//! What a text means: lines ended by a newline, fields between commas.
use vstd::prelude::*;

verus! {

/// The byte between two fields of a record: `,`.
pub const COMMA: u8 = 0x2c;

/// The byte that ends a record: `\n`.
pub const NEWLINE: u8 = 0x0a;

/// The position of the first `byte` in `text`, or the length of `text` where
/// there is none.
pub open spec fn until(text: Seq<u8>, byte: u8) -> int
    decreases text.len(),
{
    if text.len() == 0 || text[0] == byte {
        0
    } else {
        1 + until(text.skip(1), byte)
    }
}

/// Whether `text` holds a whole line, its newline included.
pub open spec fn has_line(text: Seq<u8>) -> bool {
    until(text, NEWLINE) < text.len()
}

/// The first line of `text`, without its newline.
pub open spec fn line(text: Seq<u8>) -> Seq<u8> {
    text.take(until(text, NEWLINE))
}

/// What follows the first line of `text` and its newline.
pub open spec fn after_line(text: Seq<u8>) -> Seq<u8> {
    if has_line(text) {
        text.skip(until(text, NEWLINE) + 1)
    } else {
        Seq::empty()
    }
}

/// The pieces of a line: what stands between its commas, and before the first
/// and after the last. A line without a comma is one piece.
pub open spec fn split(line: Seq<u8>) -> Seq<Seq<u8>>
    decreases line.len(),
    via split_decreases
{
    let comma = until(line, COMMA);
    if comma < line.len() {
        seq![line.take(comma)] + split(line.skip(comma + 1))
    } else {
        seq![line]
    }
}

#[via_fn]
proof fn split_decreases(line: Seq<u8>) {
    lemma_until(line, COMMA);
}

/// The fields of a line. An empty line has none; any other has its pieces.
pub open spec fn fields(line: Seq<u8>) -> Seq<Seq<u8>> {
    if line.len() == 0 {
        Seq::empty()
    } else {
        split(line)
    }
}

/// Where the field at `index` starts in its line: behind those before it and the
/// comma after each.
pub open spec fn field_start(fields: Seq<Seq<u8>>, index: int) -> int
    decreases index,
{
    if index <= 0 {
        0
    } else {
        field_start(fields, index - 1) + fields[index - 1].len() + 1
    }
}

/// The records of a whole text, in order. The last line may lack its newline; a
/// text that ends in a newline has nothing after it.
pub open spec fn records(text: Seq<u8>) -> Seq<Seq<Seq<u8>>>
    decreases text.len(),
    via records_decreases
{
    if text.len() == 0 {
        Seq::empty()
    } else {
        seq![fields(line(text))] + records(after_line(text))
    }
}

#[via_fn]
proof fn records_decreases(text: Seq<u8>) {
    lemma_until(text, NEWLINE);
}

/// The line whose fields these are.
pub open spec fn join(fields: Seq<Seq<u8>>) -> Seq<u8>
    decreases fields.len(),
{
    if fields.len() == 0 {
        Seq::empty()
    } else if fields.len() == 1 {
        fields[0]
    } else {
        fields[0].push(COMMA) + join(fields.skip(1))
    }
}

/// The text whose records these are, each on a line that is ended by a newline.
pub open spec fn write(records: Seq<Seq<Seq<u8>>>) -> Seq<u8>
    decreases records.len(),
{
    if records.len() == 0 {
        Seq::empty()
    } else {
        join(records[0]).push(NEWLINE) + write(records.skip(1))
    }
}

/// Whether a record can stand on a line: none of its fields holds a separator,
/// and it is not a single empty field, which no line has.
pub open spec fn writable(record: Seq<Seq<u8>>) -> bool {
    &&& record.len() == 1 ==> record[0].len() > 0
    &&& forall|i: int|
        #![trigger record[i]]
        0 <= i < record.len() ==> !record[i].contains(COMMA) && !record[i].contains(NEWLINE)
}

/// `until` is the first position that holds the byte.
pub proof fn lemma_until(text: Seq<u8>, byte: u8)
    ensures
        0 <= until(text, byte) <= text.len(),
        until(text, byte) < text.len() ==> text[until(text, byte)] == byte,
        forall|i: int| 0 <= i < until(text, byte) ==> text[i] != byte,
    decreases text.len(),
{
    if text.len() != 0 && text[0] != byte {
        let rest = text.skip(1);
        lemma_until(rest, byte);
        assert forall|i: int| 0 <= i < until(text, byte) implies text[i] != byte by {
            if i > 0 {
                assert(rest[i - 1] == text[i]);
            }
        }
    }
}

/// A position is `until` as soon as nothing before it holds the byte and it
/// does, or is the end.
pub proof fn lemma_until_is(text: Seq<u8>, byte: u8, at: int)
    requires
        0 <= at <= text.len(),
        at < text.len() ==> text[at] == byte,
        forall|i: int| 0 <= i < at ==> text[i] != byte,
    ensures
        until(text, byte) == at,
{
    lemma_until(text, byte);
    let found = until(text, byte);
    if found < at {
        assert(text[found] != byte);
    } else if at < found {
        assert(text[at] != byte);
    }
}

/// A last field after a comma is one more field.
pub proof fn lemma_split_last(front: Seq<u8>, last: Seq<u8>)
    requires
        !last.contains(COMMA),
    ensures
        split(front.push(COMMA) + last) == split(front).push(last),
    decreases front.len(),
{
    let whole = front.push(COMMA) + last;
    let comma = until(front, COMMA);
    lemma_until(front, COMMA);
    assert(whole[front.len() as int] == COMMA);
    assert forall|i: int| 0 <= i < comma implies whole[i] != COMMA by {
        assert(whole[i] == front[i]);
    }
    if comma < front.len() {
        assert(whole[comma] == front[comma]);
        lemma_until_is(whole, COMMA, comma);
        let rest = front.skip(comma + 1);
        lemma_split_last(rest, last);
        assert(whole.skip(comma + 1) =~= rest.push(COMMA) + last);
        assert(whole.take(comma) =~= front.take(comma));
        assert(split(whole) =~= split(front).push(last));
    } else {
        lemma_until_is(whole, COMMA, comma);
        lemma_split_one(last);
        assert(whole.skip(comma + 1) =~= last);
        assert(whole.take(comma) =~= front);
        assert(split(whole) =~= split(front).push(last));
    }
}

/// A line without a comma is one field.
pub proof fn lemma_split_one(line: Seq<u8>)
    requires
        !line.contains(COMMA),
    ensures
        split(line) == seq![line],
{
    assert forall|i: int| 0 <= i < line.len() implies line[i] != COMMA by {
        if line[i] == COMMA {
            assert(line.contains(COMMA));
        }
    }
    lemma_until_is(line, COMMA, line.len() as int);
}

/// A line that has ended is not changed by what follows it.
pub proof fn lemma_line_stays(text: Seq<u8>, more: Seq<u8>)
    requires
        has_line(text),
    ensures
        has_line(text + more),
        until(text + more, NEWLINE) == until(text, NEWLINE),
        line(text + more) == line(text),
        after_line(text + more) == after_line(text) + more,
{
    let end = until(text, NEWLINE);
    lemma_until(text, NEWLINE);
    assert forall|i: int| 0 <= i < end implies (text + more)[i] != NEWLINE by {
        assert((text + more)[i] == text[i]);
    }
    lemma_until_is(text + more, NEWLINE, end);
    assert((text + more).take(end) =~= text.take(end));
    assert((text + more).skip(end + 1) =~= text.skip(end + 1) + more);
}

/// A later field starts behind the end of an earlier one.
pub proof fn lemma_starts_apart(fields: Seq<Seq<u8>>, i: int, j: int)
    requires
        0 <= i < j,
    ensures
        field_start(fields, i) + fields[i].len() < field_start(fields, j),
    decreases j,
{
    if i < j - 1 {
        lemma_starts_apart(fields, i, j - 1);
    }
}

/// A text holds a line exactly where it holds a newline.
pub proof fn lemma_has_line(text: Seq<u8>)
    ensures
        has_line(text) <==> text.contains(NEWLINE),
{
    lemma_until(text, NEWLINE);
    if text.contains(NEWLINE) {
        let i = choose|i: int| 0 <= i < text.len() && text[i] == NEWLINE;
        if until(text, NEWLINE) == text.len() {
            assert(text[i] != NEWLINE);
        }
    } else if has_line(text) {
        assert(text.contains(text[until(text, NEWLINE)]));
    }
}

} // verus!
