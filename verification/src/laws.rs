//! What holds of texts, and of whole runs of the parser.
use crate::model;
use crate::model::{COMMA, NEWLINE};
use crate::parser::Parser;
use crate::record::{Record, Step};
use crate::ring::ReadEvent;
use crate::scan;
use crate::scan::Span;
use vstd::prelude::*;

verus! {

/// The first line of a text is what stands before its first newline byte, and what
/// follows comes behind that byte. A text without that byte is one line.
pub proof fn law_first_line_ends_at_the_first_newline(text: Seq<u8>)
    ensures
        model::has_line(text) <==> text.contains(0x0a),
        !model::line(text).contains(0x0a),
        text.contains(0x0a) ==> text == model::line(text) + seq![0x0au8] + model::after_line(text),
        !text.contains(0x0a) ==> model::line(text) == text && model::after_line(text)
            == Seq::<u8>::empty(),
{
    model::lemma_has_line(text);
    model::lemma_until(text, NEWLINE);
    assert(!text.contains(NEWLINE) ==> model::line(text) =~= text);
    assert(text.contains(NEWLINE) ==> text =~= model::line(text) + seq![NEWLINE]
        + model::after_line(text));
}

/// Whether a field is what lies between two cuts of a line, the first of them at
/// its front or just behind a comma byte, and the field without that byte.
pub open spec fn is_cut_out(line: Seq<u8>, field: Seq<u8>, cut: int, next: int) -> bool {
    &&& 0 <= cut < next <= line.len() + 1
    &&& cut > 0 ==> line[cut - 1] == 0x2c
    &&& field == line.subrange(cut, next - 1)
    &&& !field.contains(0x2c)
}

/// Whether `fields` are what lies between the given cuts of a line: the first cut
/// is its front and the last is one past the line's end.
pub open spec fn is_cutting(line: Seq<u8>, fields: Seq<Seq<u8>>, cuts: Seq<int>) -> bool {
    &&& fields.len() > 0
    &&& cuts.len() == fields.len() + 1
    &&& cuts[0] == 0
    &&& cuts[fields.len() as int] == line.len() + 1
    &&& forall|i: int|
        #![trigger fields[i]]
        0 <= i < fields.len() ==> is_cut_out(line, fields[i], cuts[i], cuts[i + 1])
}

/// The fields of a line are what lies between its comma bytes, all of it and in
/// order; an empty line has none.
pub proof fn law_fields_lie_between_commas(line: Seq<u8>)
    ensures
        line.len() == 0 ==> model::fields(line) == Seq::<Seq<u8>>::empty(),
        line.len() > 0 ==> exists|cuts: Seq<int>| is_cutting(line, model::fields(line), cuts),
{
    if line.len() > 0 {
        let cuts = lemma_cuts(line);
        assert(is_cutting(line, model::fields(line), cuts));
    }
}

/// Where the pieces of a line are cut.
proof fn lemma_cuts(line: Seq<u8>) -> (cuts: Seq<int>)
    ensures
        is_cutting(line, model::split(line), cuts),
    decreases line.len(),
{
    let comma = model::until(line, COMMA);
    let pieces = model::split(line);
    lemma_split_keeps_the_line(line);
    model::lemma_until(line, COMMA);
    if comma < line.len() {
        let tail = line.skip(comma + 1);
        let later = lemma_cuts(tail);
        let cuts = Seq::new(
            (later.len() + 1) as nat,
            |i: int|
                if i == 0 {
                    0
                } else {
                    later[i - 1] + comma + 1
                },
        );
        assert forall|i: int| #![trigger pieces[i]] 0 <= i < pieces.len() implies is_cut_out(
            line,
            pieces[i],
            cuts[i],
            cuts[i + 1],
        ) by {
            if i == 0 {
                assert(later[0] == 0);
                assert(pieces[0] =~= line.subrange(0, comma));
            } else {
                let piece = model::split(tail)[i - 1];
                assert(pieces[i] == piece);
                assert(is_cut_out(tail, piece, later[i - 1], later[i]));
                assert(piece =~= line.subrange(cuts[i], cuts[i + 1] - 1));
                if later[i - 1] > 0 {
                    assert(tail[later[i - 1] - 1] == line[cuts[i] - 1]);
                }
            }
        }
        let count = model::split(tail).len() as int;
        assert(pieces.len() == count + 1);
        assert(cuts[count + 1] == later[count] + comma + 1);
        assert(is_cutting(line, pieces, cuts));
        cuts
    } else {
        let cuts = seq![0int, line.len() as int + 1];
        assert(pieces[0] =~= line.subrange(0, line.len() as int));
        assert(is_cutting(line, pieces, cuts));
        cuts
    }
}

/// The records of a text come line by line: a line with its newline byte is one
/// record and those of what follows come behind it; a last line without that byte
/// is one record unless it is empty.
pub proof fn law_records_come_line_by_line(line: Seq<u8>, following: Seq<u8>)
    requires
        !line.contains(0x0a),
    ensures
        model::records(line + seq![0x0au8] + following) == seq![model::fields(line)]
            + model::records(following),
        model::records(line) == if line.len() == 0 {
            Seq::empty()
        } else {
            seq![model::fields(line)]
        },
{
    let text = line + seq![NEWLINE] + following;
    assert forall|i: int| 0 <= i < line.len() implies text[i] != NEWLINE by {
        assert(text[i] == line[i]);
        assert(line.contains(line[i]));
    }
    assert(text[line.len() as int] == NEWLINE);
    model::lemma_until_is(text, NEWLINE, line.len() as int);
    assert(text.take(line.len() as int) =~= line);
    assert(text.skip(line.len() as int + 1) =~= following);
    model::lemma_has_line(line);
    lemma_records_of_unended(line);
}

/// Reading a line loses nothing: its fields, with a comma between each two, are
/// the line again. None of them holds a comma, and an empty line is the one that
/// has none.
pub proof fn law_fields_keep_the_line(line: Seq<u8>)
    ensures
        model::join(model::fields(line)) == line,
        model::fields(line).len() == 0 <==> line.len() == 0,
        forall|i: int|
            #![trigger model::fields(line)[i]]
            0 <= i < model::fields(line).len() ==> !model::fields(line)[i].contains(COMMA),
{
    lemma_split_keeps_the_line(line);
    assert(line.len() == 0 ==> line =~= Seq::empty());
}

/// The pieces of a line, with a comma between each two, are the line again.
proof fn lemma_split_keeps_the_line(line: Seq<u8>)
    ensures
        model::join(model::split(line)) == line,
        model::split(line).len() > 0,
        forall|i: int|
            #![trigger model::split(line)[i]]
            0 <= i < model::split(line).len() ==> !model::split(line)[i].contains(COMMA),
    decreases line.len(),
{
    let comma = model::until(line, COMMA);
    let fields = model::split(line);
    model::lemma_until(line, COMMA);
    if comma < line.len() {
        let tail = line.skip(comma + 1);
        lemma_split_keeps_the_line(tail);
        assert(fields.skip(1) =~= model::split(tail));
        assert(line.take(comma).push(COMMA) + tail =~= line);
        assert forall|i: int| #![trigger fields[i]] 0 <= i < fields.len() implies !fields[i].contains(
            COMMA,
        ) by {
            if i > 0 {
                assert(fields[i] == model::split(tail)[i - 1]);
            }
        }
    }
}

/// Writing a line loses nothing: its fields are those that were joined. A single
/// empty field is left out: it leaves an empty line, which has no fields.
pub proof fn law_join_keeps_the_fields(fields: Seq<Seq<u8>>)
    requires
        fields.len() == 1 ==> fields[0].len() > 0,
        forall|i: int| #![trigger fields[i]] 0 <= i < fields.len() ==> !fields[i].contains(COMMA),
    ensures
        model::fields(model::join(fields)) == fields,
{
    if fields.len() == 0 {
        assert(model::fields(model::join(fields)) =~= fields);
    } else {
        lemma_join_keeps_the_pieces(fields);
    }
}

/// The pieces of joined pieces are those pieces.
proof fn lemma_join_keeps_the_pieces(fields: Seq<Seq<u8>>)
    requires
        fields.len() > 0,
        forall|i: int| #![trigger fields[i]] 0 <= i < fields.len() ==> !fields[i].contains(COMMA),
    ensures
        model::split(model::join(fields)) == fields,
    decreases fields.len(),
{
    let line = model::join(fields);
    if fields.len() == 1 {
        model::lemma_split_one(fields[0]);
        assert(model::split(line) =~= fields);
    } else {
        let first = fields[0];
        let tail = fields.skip(1);
        assert forall|i: int| #![trigger tail[i]] 0 <= i < tail.len() implies !tail[i].contains(
            COMMA,
        ) by {
            assert(tail[i] == fields[i + 1]);
        }
        lemma_join_keeps_the_pieces(tail);
        assert forall|i: int| 0 <= i < first.len() implies line[i] != COMMA by {
            assert(line[i] == first[i]);
            assert(!fields[0].contains(COMMA));
        }
        assert(line[first.len() as int] == COMMA);
        model::lemma_until_is(line, COMMA, first.len() as int);
        assert(line.take(first.len() as int) =~= first);
        assert(line.skip(first.len() as int + 1) =~= model::join(tail));
        assert(model::split(line) =~= fields);
    }
}

/// What is written is what is read: the records of the text that holds these
/// records are these records.
pub proof fn law_written_records_are_read_back(records: Seq<Seq<Seq<u8>>>)
    requires
        forall|i: int| #![trigger records[i]] 0 <= i < records.len() ==> model::writable(records[i]),
    ensures
        model::records(model::write(records)) == records,
    decreases records.len(),
{
    let text = model::write(records);
    if records.len() == 0 {
        assert(model::records(text) =~= records);
    } else {
        let first = model::join(records[0]);
        let tail = records.skip(1);
        assert forall|i: int| #![trigger tail[i]] 0 <= i < tail.len() implies model::writable(
            tail[i],
        ) by {
            assert(tail[i] == records[i + 1]);
        }
        law_written_records_are_read_back(tail);
        assert(model::writable(records[0]));
        law_join_keeps_the_fields(records[0]);
        lemma_join_plain(records[0]);
        assert forall|i: int| 0 <= i < first.len() implies text[i] != NEWLINE by {
            assert(text[i] == first[i]);
        }
        assert(text[first.len() as int] == NEWLINE);
        model::lemma_until_is(text, NEWLINE, first.len() as int);
        assert(text.take(first.len() as int) =~= first);
        assert(text.skip(first.len() as int + 1) =~= model::write(tail));
        assert(model::records(text) =~= records);
    }
}

/// A line of fields without a newline has none.
proof fn lemma_join_plain(fields: Seq<Seq<u8>>)
    requires
        forall|i: int| #![trigger fields[i]] 0 <= i < fields.len() ==> !fields[i].contains(NEWLINE),
    ensures
        !model::join(fields).contains(NEWLINE),
    decreases fields.len(),
{
    let line = model::join(fields);
    if fields.len() > 1 {
        let tail = fields.skip(1);
        assert forall|i: int| #![trigger tail[i]] 0 <= i < tail.len() implies !tail[i].contains(
            NEWLINE,
        ) by {
            assert(tail[i] == fields[i + 1]);
        }
        lemma_join_plain(tail);
        if line.contains(NEWLINE) {
            let i = choose|i: int| 0 <= i < line.len() && line[i] == NEWLINE;
            let first = fields[0];
            if i < first.len() {
                assert(first[i] == NEWLINE);
                assert(fields[0].contains(NEWLINE));
            } else if i > first.len() {
                assert(model::join(tail)[i - first.len() - 1] == NEWLINE);
            }
        }
    } else if fields.len() == 1 {
        assert(!fields[0].contains(NEWLINE));
    }
}

/// Reading a text loses nothing: its records, written out, are the text, but for
/// the newline after the last line, which the text may lack. Each record can
/// stand on a line: no field holds a separator, and none is a single empty field.
pub proof fn law_records_keep_the_text(text: Seq<u8>)
    ensures
        model::write(model::records(text)) == if text.len() == 0 || text.last() == NEWLINE {
            text
        } else {
            text.push(NEWLINE)
        },
        forall|i: int|
            #![trigger model::records(text)[i]]
            0 <= i < model::records(text).len() ==> model::writable(model::records(text)[i]),
    decreases text.len(),
{
    let records = model::records(text);
    if text.len() > 0 {
        let end = model::until(text, NEWLINE);
        let line = model::line(text);
        let tail = model::after_line(text);
        model::lemma_until(text, NEWLINE);
        law_records_keep_the_text(tail);
        law_fields_keep_the_line(line);
        assert(records.skip(1) =~= model::records(tail));
        if end < text.len() {
            assert(line.push(NEWLINE) + tail =~= text);
            if tail.len() > 0 {
                assert(tail.last() == text.last());
                assert(line.push(NEWLINE) + tail.push(NEWLINE) =~= text.push(NEWLINE));
            }
        } else {
            assert(line =~= text);
            assert(tail =~= Seq::<u8>::empty());
            assert(model::write(records) =~= text.push(NEWLINE));
        }
        lemma_fields_plain(line);
        assert forall|i: int|
            #![trigger records[i]]
            0 <= i < records.len() implies model::writable(records[i]) by {
            if i > 0 {
                assert(records[i] == model::records(tail)[i - 1]);
            }
        }
    }
}

/// The fields of a line without a newline can stand on a line.
proof fn lemma_fields_plain(line: Seq<u8>)
    requires
        forall|i: int| 0 <= i < line.len() ==> line[i] != NEWLINE,
    ensures
        model::writable(model::fields(line)),
{
    law_fields_keep_the_line(line);
    lemma_pieces_plain(line);
}

/// Splitting gives records that can be written: what a text without a newline byte
/// is split into holds no separator and is not a single empty field.
pub proof fn law_fields_are_writable(line: Seq<u8>)
    requires
        !line.contains(0x0a),
    ensures
        model::writable(model::fields(line)),
{
    assert forall|i: int| 0 <= i < line.len() implies line[i] != NEWLINE by {
        assert(line.contains(line[i]));
    }
    lemma_fields_plain(line);
}

/// The pieces of a line without a newline have none.
proof fn lemma_pieces_plain(line: Seq<u8>)
    requires
        forall|i: int| 0 <= i < line.len() ==> line[i] != NEWLINE,
    ensures
        forall|i: int|
            #![trigger model::split(line)[i]]
            0 <= i < model::split(line).len() ==> !model::split(line)[i].contains(NEWLINE),
    decreases line.len(),
{
    let comma = model::until(line, COMMA);
    let pieces = model::split(line);
    model::lemma_until(line, COMMA);
    if comma < line.len() {
        let tail = line.skip(comma + 1);
        lemma_pieces_plain(tail);
        assert forall|i: int| #![trigger pieces[i]] 0 <= i < pieces.len() implies !pieces[i].contains(
            NEWLINE,
        ) by {
            if i > 0 {
                assert(pieces[i] == model::split(tail)[i - 1]);
            }
        }
    }
}

/// The newline after the last line makes no difference.
pub proof fn law_last_newline_is_optional(text: Seq<u8>)
    requires
        text.len() > 0,
        text.last() != NEWLINE,
    ensures
        model::records(text.push(NEWLINE)) == model::records(text),
{
    law_records_keep_the_text(text);
    law_written_records_are_read_back(model::records(text));
}

/// Every record uses up input: a text has no more records than bytes.
pub proof fn law_every_record_uses_input(text: Seq<u8>)
    ensures
        text.len() > 0 ==> model::after_line(text).len() < text.len(),
        model::records(text).len() <= text.len(),
    decreases text.len(),
{
    model::lemma_until(text, NEWLINE);
    if text.len() > 0 {
        law_every_record_uses_input(model::after_line(text));
    }
}

/// A text without a whole line is one record, or none.
proof fn lemma_records_of_unended(text: Seq<u8>)
    requires
        !model::has_line(text),
    ensures
        model::records(text) == if text.len() > 0 {
            seq![model::fields(text)]
        } else {
            Seq::empty()
        },
{
    model::lemma_until(text, NEWLINE);
    if text.len() > 0 {
        assert(model::line(text) =~= text);
        assert(model::records(model::after_line(text)) =~= Seq::empty());
        assert(model::records(text) =~= seq![model::fields(text)]);
    }
}

/// Where a haystack is cut in two for the scan does not matter: a scan of the
/// first part, without a newline, and then of the second pushes the same spans,
/// leaves the same start of the next field and finds the same newline as one scan
/// of both.
pub proof fn law_scan_can_be_cut_anywhere(start: int, base: int, first: Seq<u8>, second: Seq<u8>)
    requires
        !model::has_line(first),
    ensures
        scan::ended_spans(start, base, first + second) == scan::ended_spans(start, base, first) + scan::ended_spans(
            scan::start_after(start, base, first),
            base + first.len(),
            second,
        ),
        scan::start_after(start, base, first + second) == scan::start_after(
            scan::start_after(start, base, first),
            base + first.len(),
            second,
        ),
        model::until(first + second, NEWLINE) == first.len() + model::until(second, NEWLINE),
    decreases first.len(),
{
    let whole = first + second;
    if first.len() == 0 {
        assert(whole =~= second);
        assert(scan::ended_spans(start, base, first) + scan::ended_spans(start, base, second) =~= scan::ended_spans(
            start,
            base,
            second,
        ));
    } else {
        let tail = first.skip(1);
        assert(whole.skip(1) =~= tail + second);
        assert(whole[0] == first[0]);
        if first[0] == COMMA {
            law_scan_can_be_cut_anywhere(base + 1, base + 1, tail, second);
            assert(scan::ended_spans(start, base, whole) =~= scan::ended_spans(start, base, first)
                + scan::ended_spans(scan::start_after(start, base, first), base + first.len(), second));
        } else {
            law_scan_can_be_cut_anywhere(start, base + 1, tail, second);
        }
    }
}

/// Whether a byte of `hay` ends a field.
pub open spec fn separates(byte: u8) -> bool {
    byte == 0x2c || byte == 0x0a
}

/// Where the field at `index` starts: just behind the span before it and the
/// separator that ends that, or at `start`.
pub open spec fn scan_start(start: int, spans: Seq<Span>, index: int) -> int {
    if index <= 0 {
        start
    } else {
        match spans[index - 1] {
            Span::Contiguous { offset, len } => offset + len + 1,
            Span::Split { offset, len } => 0,
        }
    }
}

/// Whether a span that starts at `from` ends at a separator of `hay`, with none
/// before that, and at a newline only where it is the last.
pub open spec fn ends_at_separator(
    span: Span,
    from: int,
    base: int,
    hay: Seq<u8>,
    is_last: bool,
) -> bool {
    &&& span matches Span::Contiguous { offset, len }
    &&& offset == from
    &&& base <= offset + len < base + hay.len()
    &&& separates(hay[offset + len - base])
    &&& hay[offset + len - base] == 0x0a ==> is_last
    &&& forall|k: int|
        #![trigger hay[k]]
        0 <= k < hay.len() && offset - base <= k < offset + len - base ==> !separates(hay[k])
}

/// Whether these spans, and this start of the next field, are what a scan of `hay`
/// at logical offset `base` has to find for a field that starts at `start`.
pub open spec fn finds_every_separator(
    start: int,
    base: int,
    hay: Seq<u8>,
    spans: Seq<Span>,
    next: int,
) -> bool {
    &&& forall|i: int|
        #![trigger spans[i]]
        0 <= i < spans.len() ==> ends_at_separator(
            spans[i],
            scan_start(start, spans, i),
            base,
            hay,
            i == spans.len() - 1,
        )
    &&& next == scan_start(start, spans, spans.len() as int)
    &&& if hay.contains(0x0a) {
        spans.len() > 0 && base < next <= base + hay.len() && hay[next - 1 - base] == 0x0a
    } else {
        &&& next <= base + hay.len()
        &&& forall|k: int|
            #![trigger hay[k]]
            0 <= k < hay.len() && next - base <= k ==> !separates(hay[k])
        &&& forall|k: int| #![trigger hay[k]] 0 <= k < hay.len() ==> hay[k] != 0x0a
    }
}

/// A scan finds every separator up to the first newline and nothing else. Its
/// spans lie end to end: the first starts where the field did, each ends at a
/// separator with none inside, and the next starts just behind. Only the last can
/// end at a newline, and does where there is one; otherwise no separator follows.
/// What is left as the start of the next field is just behind the last span, or
/// where it was if there is none.
pub proof fn law_scan_finds_every_separator(start: int, base: int, hay: Seq<u8>)
    requires
        0 <= start <= base,
        base + hay.len() <= usize::MAX,
    ensures
        finds_every_separator(
            start,
            base,
            hay,
            scan::ended_spans(start, base, hay),
            scan::start_after(start, base, hay),
        ),
    decreases hay.len(),
{
    let spans = scan::ended_spans(start, base, hay);
    let next = scan::start_after(start, base, hay);
    if hay.len() > 0 {
        let tail = hay.skip(1);
        assert(hay.contains(0x0a) <==> hay[0] == 0x0a || tail.contains(0x0a)) by {
            if hay.contains(0x0a) && hay[0] != 0x0a {
                let k = choose|k: int| 0 <= k < hay.len() && hay[k] == 0x0a;
                assert(tail[k - 1] == 0x0a);
            }
            if tail.contains(0x0a) {
                let k = choose|k: int| 0 <= k < tail.len() && tail[k] == 0x0a;
                assert(hay[k + 1] == 0x0a);
            }
            if hay[0] == 0x0a {
                assert(hay.contains(hay[0]));
            }
        }
        if hay[0] == 0x0a {
            assert(spans =~= seq![scan::field_span(start, base)]);
        } else if hay[0] == 0x2c {
            let later = scan::ended_spans(base + 1, base + 1, tail);
            law_scan_finds_every_separator(base + 1, base + 1, tail);
            lemma_scan_of_tail(hay, base, base + 1, later, next);
            assert forall|i: int| #![trigger spans[i]] 0 <= i < spans.len() implies ends_at_separator(
                spans[i],
                scan_start(start, spans, i),
                base,
                hay,
                i == spans.len() - 1,
            ) by {
                if i > 0 {
                    assert(spans[i] == later[i - 1]);
                    if i > 1 {
                        assert(spans[i - 1] == later[i - 2]);
                    }
                }
            }
            if later.len() > 0 {
                assert(spans.last() == later.last());
            }
        } else {
            law_scan_finds_every_separator(start, base + 1, tail);
            lemma_scan_of_tail(hay, base, start, spans, next);
        }
    }
}

/// What a scan finds behind the first byte is there in the whole.
proof fn lemma_scan_of_tail(hay: Seq<u8>, base: int, start: int, spans: Seq<Span>, next: int)
    requires
        hay.len() > 0,
        start > base || !separates(hay[0]),
        finds_every_separator(start, base + 1, hay.skip(1), spans, next),
    ensures
        forall|i: int|
            #![trigger spans[i]]
            0 <= i < spans.len() ==> ends_at_separator(
                spans[i],
                scan_start(start, spans, i),
                base,
                hay,
                i == spans.len() - 1,
            ),
        hay.skip(1).contains(0x0a) ==> hay[next - 1 - base] == 0x0a,
        !hay.skip(1).contains(0x0a) ==> forall|k: int|
            #![trigger hay[k]]
            1 <= k < hay.len() ==> (next - base <= k ==> !separates(hay[k])) && hay[k] != 0x0a,
{
    let tail = hay.skip(1);
    assert forall|i: int| #![trigger spans[i]] 0 <= i < spans.len() implies ends_at_separator(
        spans[i],
        scan_start(start, spans, i),
        base,
        hay,
        i == spans.len() - 1,
    ) by {
        let from = scan_start(start, spans, i);
        assert(ends_at_separator(spans[i], from, base + 1, tail, i == spans.len() - 1));
        assert(i > 0 ==> from > base) by {
            if i > 0 {
                assert(ends_at_separator(
                    spans[i - 1],
                    scan_start(start, spans, i - 1),
                    base + 1,
                    tail,
                    i - 1 == spans.len() - 1,
                ));
            }
        }
        lemma_span_of_tail(hay, base, from, spans[i], i == spans.len() - 1);
    }
    assert forall|k: int|
        #![trigger hay[k]]
        1 <= k < hay.len() && !tail.contains(0x0a) implies (next - base <= k ==> !separates(
        hay[k],
    )) && hay[k] != 0x0a by {
        assert(tail[k - 1] == hay[k]);
    }
}

/// A span that ends at a separator behind the first byte does so in the whole.
proof fn lemma_span_of_tail(hay: Seq<u8>, base: int, from: int, span: Span, is_last: bool)
    requires
        hay.len() > 0,
        from > base || !separates(hay[0]),
        ends_at_separator(span, from, base + 1, hay.skip(1), is_last),
    ensures
        ends_at_separator(span, from, base, hay, is_last),
{
    let tail = hay.skip(1);
    if let Span::Contiguous { offset, len } = span {
        assert(tail[offset + len - (base + 1)] == hay[offset + len - base]);
        assert forall|k: int|
            #![trigger hay[k]]
            0 <= k < hay.len() && offset - base <= k < offset + len - base implies !separates(
            hay[k],
        ) by {
            if k > 0 {
                assert(tail[k - 1] == hay[k]);
            }
        }
    }
}

/// Setting fields aside: a range of the ring that lies on both sides of the wrap
/// becomes its own piece of what is set aside, of the same length and with the
/// same bytes; any other stays exactly as it is.
pub proof fn law_only_straddling_spans_are_moved(
    text: Seq<u8>,
    wrap: nat,
    spans: Seq<Span>,
    index: int,
)
    requires
        scan::spans_within(spans, text.len() as int),
        0 <= index < spans.len(),
        scan::set_aside(text, wrap, spans).len() <= usize::MAX,
    ensures
        scan::finalized(text, wrap, spans).len() == spans.len(),
        ({
            let aside = scan::set_aside(text, wrap, spans);
            let now = scan::finalized(text, wrap, spans)[index];
            match spans[index] {
                Span::Contiguous { offset, len } => if offset < wrap && wrap < offset + len {
                    &&& now matches Span::Split { offset: at, len: kept }
                    &&& kept == len
                    &&& at + len <= aside.len()
                    &&& aside.subrange(at as int, at + len) == text.subrange(
                        offset as int,
                        offset + len,
                    )
                } else {
                    now == spans[index]
                },
                Span::Split { .. } => now == spans[index],
            }
        }),
{
    assert(spans[index] is Contiguous);
    if scan::straddling(spans[index], wrap) {
        scan::lemma_set_aside(text, wrap, spans, index);
    }
}

/// Nothing but straddling fields is set aside, and each once: a further span adds
/// its own bytes behind what is there if it lies on both sides of the wrap, and
/// nothing if not; without spans there is nothing.
pub proof fn law_nothing_else_is_set_aside(
    text: Seq<u8>,
    wrap: nat,
    spans: Seq<Span>,
    offset: usize,
    len: usize,
)
    requires
        offset + len <= text.len(),
    ensures
        scan::set_aside(text, wrap, Seq::empty()).len() == 0,
        scan::set_aside(text, wrap, spans.push(Span::Contiguous { offset, len }))
            == if offset < wrap && wrap < offset + len {
            scan::set_aside(text, wrap, spans) + text.subrange(offset as int, offset + len)
        } else {
            scan::set_aside(text, wrap, spans)
        },
{
    let all = spans.push(Span::Contiguous { offset, len });
    assert(all.drop_last() =~= spans);
}

/// A field straddles exactly where the storage wraps within its bytes: its place
/// is behind the fields before it, the commas between those and the one after.
pub proof fn law_straddling_is_by_place(record: Record, index: int)
    requires
        0 <= index < record@.len(),
    ensures
        ({
            let place = if index == 0 {
                0
            } else {
                model::join(record@.take(index)).len() + 1
            };
            record.straddles(index) <==> place < record.wrap() && record.wrap() < place
                + record@[index].len()
        }),
{
    lemma_place(record@, index);
}

/// A field starts behind the joined fields before it and a comma.
proof fn lemma_place(fields: Seq<Seq<u8>>, index: int)
    requires
        0 <= index <= fields.len(),
    ensures
        model::field_start(fields, index) == if index == 0 {
            0
        } else {
            model::join(fields.take(index)).len() + 1
        },
    decreases index,
{
    if index > 0 {
        lemma_place(fields, index - 1);
        let front = fields.take(index - 1);
        assert(fields.take(index) =~= front.push(fields[index - 1]));
        lemma_join_push(front, fields[index - 1]);
    }
}

/// One more field makes a line longer by it and a comma.
proof fn lemma_join_push(fields: Seq<Seq<u8>>, last: Seq<u8>)
    ensures
        model::join(fields.push(last)).len() == last.len() + if fields.len() == 0 {
            0
        } else {
            model::join(fields).len() + 1
        },
    decreases fields.len(),
{
    let all = fields.push(last);
    if fields.len() > 0 {
        assert(all.skip(1) =~= fields.skip(1).push(last));
        lemma_join_push(fields.skip(1), last);
        if fields.len() == 1 {
            assert(model::join(fields) == fields[0]);
        }
    }
}

/// At most one field of a record straddles the point where the storage wraps, so
/// at most one is put together.
pub proof fn law_at_most_one_field_straddles(record: Record, i: int, j: int)
    requires
        0 <= i < record@.len(),
        0 <= j < record@.len(),
        record.straddles(i),
        record.straddles(j),
    ensures
        i == j,
{
    if i < j {
        model::lemma_starts_apart(record@, i, j);
    } else if j < i {
        model::lemma_starts_apart(record@, j, i);
    }
}

/// What a finished record has put together is exactly the bytes of the one field
/// that straddles, or nothing where none does.
pub proof fn law_only_the_straddling_field_is_set_aside(record: Record)
    requires
        record.wf(),
        !record.is_reading(),
    ensures
        record.set_aside() == Seq::<u8>::empty() || exists|i: int|
            #![trigger record.straddles(i)]
            0 <= i < record@.len() && record.straddles(i) && record.set_aside() == record@[i],
        forall|i: int|
            #![trigger record.straddles(i)]
            0 <= i < record@.len() && record.straddles(i) ==> record.set_aside() == record@[i],
{
    record.lemma_finished();
}

/// The record that a step has completed, if it has one.
pub open spec fn handed_out<R, E>(parser: Parser<R>, step: Result<Step, E>) -> Seq<Seq<Seq<u8>>> {
    if step == Ok::<Step, E>(Step::Record) {
        seq![parser.fields()]
    } else {
        Seq::empty()
    }
}

/// Beginning a record neither loses nor invents one: the records of the input at
/// hand and all that follows it are the one handed out, if any, and those of what
/// is kept and all that follows.
pub proof fn law_begin_keeps_the_records<R, E>(
    before: Parser<R>,
    after: Parser<R>,
    step: Step,
    following: Seq<u8>,
)
    requires
        Parser::begins(before, after, step),
    ensures
        model::records(before.pending() + following) == handed_out(after, Ok::<Step, E>(step))
            + model::records(after.pending() + following),
{
    let text = before.pending();
    if model::has_line(text) {
        model::lemma_line_stays(text, following);
    }
    assert(model::records(text + following) =~= handed_out(after, Ok::<Step, E>(step))
        + model::records(after.pending() + following));
}

/// An empty line is handed out like any other, as a record without fields; its
/// newline is used up. It is not the end of the input.
pub proof fn law_empty_line_is_a_record<R>(before: Parser<R>, after: Parser<R>, step: Step)
    requires
        Parser::begins(before, after, step),
        before.pending().len() > 0,
        before.pending()[0] == NEWLINE,
    ensures
        step == Step::Record,
        after.fields() == Seq::<Seq<u8>>::empty(),
        after.pending() == before.pending().skip(1),
{
    model::lemma_until_is(before.pending(), NEWLINE, 0);
}

/// The bytes that a read took from the space before it.
pub open spec fn taken<R, E>(before: Parser<R>, event: ReadEvent<E>) -> Seq<u8> {
    match event {
        ReadEvent::Read(n) => before.spare().take(n as int),
        _ => Seq::empty(),
    }
}

/// Neither does going on with one, however the read ended, with what was read
/// between the input at hand and all that follows. After the end of the input
/// nothing follows.
pub proof fn law_resume_keeps_the_records<R, E>(
    before: Parser<R>,
    event: ReadEvent<E>,
    after: Parser<R>,
    step: Result<Step, E>,
    following: Seq<u8>,
)
    requires
        Parser::resumes(before, event, after, step),
        event matches ReadEvent::Read(n) ==> n <= before.spare().len() && (n == 0
            ==> following.len() == 0),
    ensures
        model::records(before.pending() + taken(before, event) + following) == handed_out(
            after,
            step,
        ) + model::records(after.pending() + following),
{
    match event {
        ReadEvent::Read(n) => {
            let text = before.pending() + before.spare().take(n as int);
            if model::has_line(text) {
                model::lemma_line_stays(text, following);
            } else if n == 0 {
                assert(text + following =~= text);
                assert(after.pending() + following =~= Seq::<u8>::empty());
                lemma_records_of_unended(text);
            }
            assert(model::records(text + following) =~= handed_out(after, step)
                + model::records(after.pending() + following));
        },
        _ => {
            assert(before.pending() + Seq::<u8>::empty() =~= before.pending());
            assert(Seq::<Seq<Seq<u8>>>::empty() + model::records(after.pending() + following)
                =~= model::records(after.pending() + following));
        },
    }
}

/// A call of the parser, with what it was before and after.
pub struct Move<R, E> {
    pub before: Parser<R>,
    pub call: Call<E>,
    pub after: Parser<R>,
}

/// Which call it was, and its answer.
pub enum Call<E> {
    /// `read_record`.
    Begin { step: Step },
    /// `read_request`, with what then stands in the space that it hands out.
    Request { written: Seq<u8> },
    /// `resume`.
    Resume { event: ReadEvent<E>, answer: Result<Step, E> },
}

impl<R, E> Move<R, E> {
    /// The call could be made, and did what its contract says.
    pub open spec fn valid(self) -> bool {
        match self.call {
            Call::Begin { step } => Parser::begins(self.before, self.after, step),
            Call::Request { written } => {
                &&& self.before.is_reading()
                &&& Parser::requests(self.before, written, self.after)
            },
            Call::Resume { event, answer } => {
                &&& self.before.is_reading()
                &&& Parser::resumes(self.before, event, self.after, answer)
                &&& event matches ReadEvent::Read(n) ==> n <= self.before.spare().len()
            },
        }
    }

    /// The bytes that it took in.
    pub open spec fn input(self) -> Seq<u8> {
        match self.call {
            Call::Begin { .. } => Seq::empty(),
            Call::Request { .. } => Seq::empty(),
            Call::Resume { event, .. } => taken(self.before, event),
        }
    }

    /// The record that it handed out, if any.
    pub open spec fn output(self) -> Seq<Seq<Seq<u8>>> {
        match self.call {
            Call::Begin { step } => handed_out(self.after, Ok::<Step, E>(step)),
            Call::Request { .. } => Seq::empty(),
            Call::Resume { answer, .. } => handed_out(self.after, answer),
        }
    }

    /// Whether it finished a record, or told that there is none.
    pub open spec fn finished(self) -> bool {
        match self.call {
            Call::Begin { step } => step != Step::Read,
            Call::Request { .. } => false,
            Call::Resume { answer, .. } => answer matches Ok(step) && step != Step::Read,
        }
    }

    /// Whether it was told the end of the input.
    pub open spec fn at_end(self) -> bool {
        self.call matches Call::Resume { event, .. } && event matches ReadEvent::Read(n) && n == 0
    }
}

/// All bytes that a run of calls took in.
pub open spec fn run_input<R, E>(run: Seq<Move<R, E>>) -> Seq<u8>
    decreases run.len(),
{
    if run.len() == 0 {
        Seq::empty()
    } else {
        run[0].input() + run_input(run.skip(1))
    }
}

/// All records that a run of calls handed out.
pub open spec fn run_output<R, E>(run: Seq<Move<R, E>>) -> Seq<Seq<Seq<u8>>>
    decreases run.len(),
{
    if run.len() == 0 {
        Seq::empty()
    } else {
        run[0].output() + run_output(run.skip(1))
    }
}

/// Whether these calls can be made one after the other, with `following` still to
/// come: each finds the parser as the one before left it, and after the end of the
/// input nothing comes.
pub open spec fn is_run<R, E>(run: Seq<Move<R, E>>, following: Seq<u8>) -> bool
    decreases run.len(),
{
    run.len() > 0 ==> {
        &&& run[0].valid()
        &&& run.len() > 1 ==> run[1].before == run[0].after
        &&& run[0].at_end() ==> run_input(run.skip(1)).len() == 0 && following.len() == 0
        &&& is_run(run.skip(1), following)
    }
}

/// Over any run, with reads of any size, interrupted and failed ones among them,
/// no record is lost, invented or changed: those handed out, and those of what is
/// kept and still to come, are the records of the text as a whole.
pub proof fn law_run_keeps_the_records<R, E>(run: Seq<Move<R, E>>, following: Seq<u8>)
    requires
        run.len() > 0,
        is_run(run, following),
    ensures
        model::records(run[0].before.pending() + run_input(run) + following) == run_output(run)
            + model::records(run.last().after.pending() + following),
    decreases run.len(),
{
    let first = run[0];
    let tail = run.skip(1);
    let later = run_input(tail) + following;
    assert(run_input(run) + following =~= first.input() + later);
    assert(first.before.pending() + run_input(run) + following =~= first.before.pending()
        + first.input() + later);
    match first.call {
        Call::Begin { step } => {
            law_begin_keeps_the_records::<R, E>(first.before, first.after, step, later);
            assert(first.before.pending() + first.input() =~= first.before.pending());
        },
        Call::Request { .. } => {
            assert(first.before.pending() + first.input() =~= first.before.pending());
            assert(first.output() + model::records(first.after.pending() + later) =~= model::records(
                first.after.pending() + later,
            ));
        },
        Call::Resume { event, answer } => {
            law_resume_keeps_the_records(first.before, event, first.after, answer, later);
        },
    }
    if tail.len() > 0 {
        law_run_keeps_the_records(tail, following);
        assert(first.after.pending() + later =~= tail[0].before.pending() + run_input(tail)
            + following);
        assert(tail.last() == run.last());
        assert(run_output(run) + model::records(run.last().after.pending() + following)
            =~= first.output() + (run_output(tail) + model::records(
            tail.last().after.pending() + following,
        )));
    } else {
        assert(later =~= following);
        assert(run_output(tail) =~= Seq::empty());
        assert(run_output(run) =~= first.output());
    }
}

/// A run that begins and ends without input at hand hands out exactly the records
/// of what it read.
pub proof fn law_run_reads_the_text<R, E>(run: Seq<Move<R, E>>)
    requires
        run.len() > 0,
        is_run(run, Seq::empty()),
        run[0].before.pending().len() == 0,
        run.last().after.pending().len() == 0,
    ensures
        run_output(run) == model::records(run_input(run)),
{
    let none = Seq::<u8>::empty();
    law_run_keeps_the_records(run, none);
    assert(run[0].before.pending() + run_input(run) + none =~= run_input(run));
    assert(run.last().after.pending() + none =~= none);
    assert(model::records(none) =~= Seq::empty());
    assert(run_output(run) + Seq::empty() =~= run_output(run));
}

/// How the input is cut into reads makes no difference: two such runs that read
/// the same text hand out the same records.
pub proof fn law_reads_can_be_cut_anywhere<R, E>(run: Seq<Move<R, E>>, other: Seq<Move<R, E>>)
    requires
        run.len() > 0,
        is_run(run, Seq::empty()),
        run[0].before.pending().len() == 0,
        run.last().after.pending().len() == 0,
        other.len() > 0,
        is_run(other, Seq::empty()),
        other[0].before.pending().len() == 0,
        other.last().after.pending().len() == 0,
        run_input(run) == run_input(other),
    ensures
        run_output(run) == run_output(other),
{
    law_run_reads_the_text(run);
    law_run_reads_the_text(other);
}

/// What bounds a parser whose chunks are of `chunk` bytes: less than two chunks
/// are reserved, and the input at hand is less than two chunks unless it is all
/// part of one unfinished line. A parser that waits for input has such a line.
spec fn bounded<R>(parser: Parser<R>, chunk: nat) -> bool {
    &&& parser.chunk_size() == chunk
    &&& parser.spare().len() < 2 * chunk
    &&& parser.pending().len() < 2 * chunk || !model::has_line(parser.pending())
    &&& parser.is_reading() ==> !model::has_line(parser.pending())
}

/// A call keeps the bound, and where it finishes a record the input at hand is
/// less than two chunks.
proof fn lemma_bounded<R, E>(call: Move<R, E>, chunk: nat)
    requires
        call.valid(),
        bounded(call.before, chunk),
    ensures
        bounded(call.after, chunk),
        call.finished() ==> call.after.pending().len() < 2 * chunk,
{
    let pending = call.before.pending();
    model::lemma_until(pending, NEWLINE);
    match call.call {
        Call::Begin { .. } => {},
        Call::Request { .. } => {},
        Call::Resume { event, .. } => {
            if let ReadEvent::Read(n) = event {
                let text = pending + call.before.spare().take(n as int);
                model::lemma_until(text, NEWLINE);
                if model::has_line(text) {
                    let end = model::until(text, NEWLINE);
                    if end < pending.len() {
                        assert(pending[end] == text[end]);
                    }
                }
            }
        },
    }
}

/// The buffer stays small, however long the input: from a fresh parser on, less
/// than two chunks are ever reserved, and after each finished record less than two
/// chunks of input are at hand. A chunk of no bytes is left out: nothing can be
/// read into it.
pub proof fn law_buffer_stays_small<R, E>(run: Seq<Move<R, E>>, following: Seq<u8>)
    requires
        run.len() > 0,
        is_run(run, following),
        run[0].before.pending().len() == 0,
        run[0].before.spare().len() == 0,
        !run[0].before.is_reading(),
        run[0].before.chunk_size() > 0,
    ensures
        forall|i: int|
            #![trigger run[i]]
            0 <= i < run.len() ==> {
                &&& run[i].after.chunk_size() == run[0].before.chunk_size()
                &&& run[i].after.spare().len() < 2 * run[i].after.chunk_size()
                &&& run[i].finished() ==> run[i].after.pending().len() < 2
                    * run[i].after.chunk_size()
            },
{
    lemma_run_bounded(run, following, run[0].before.chunk_size());
}

/// A run keeps the bound.
proof fn lemma_run_bounded<R, E>(run: Seq<Move<R, E>>, following: Seq<u8>, chunk: nat)
    requires
        is_run(run, following),
        run.len() > 0 ==> bounded(run[0].before, chunk),
    ensures
        forall|i: int|
            #![trigger run[i]]
            0 <= i < run.len() ==> {
                &&& bounded(run[i].after, chunk)
                &&& run[i].finished() ==> run[i].after.pending().len() < 2 * chunk
            },
    decreases run.len(),
{
    if run.len() > 0 {
        let tail = run.skip(1);
        lemma_bounded(run[0], chunk);
        lemma_run_bounded(tail, following, chunk);
        assert forall|i: int| #![trigger run[i]] 0 <= i < run.len() implies {
            &&& bounded(run[i].after, chunk)
            &&& run[i].finished() ==> run[i].after.pending().len() < 2 * chunk
        } by {
            if i > 0 {
                assert(tail[i - 1] == run[i]);
            }
        }
    }
}

/// A read that was interrupted: the request for space, what then stood in it, and
/// the answer to the interruption.
pub struct Attempt<R, E> {
    pub before: Parser<R>,
    pub written: Seq<u8>,
    pub offered: Parser<R>,
    pub answer: Result<Step, E>,
    pub after: Parser<R>,
}

impl<R, E> Attempt<R, E> {
    /// The calls did what their contracts say.
    pub open spec fn valid(self) -> bool {
        &&& Parser::requests(self.before, self.written, self.offered)
        &&& Parser::resumes(self.offered, ReadEvent::Interrupted, self.after, self.answer)
    }
}

/// Whether these reads can be interrupted one after the other.
pub open spec fn are_retries<R, E>(attempts: Seq<Attempt<R, E>>) -> bool {
    &&& forall|i: int| #![trigger attempts[i]] 0 <= i < attempts.len() ==> attempts[i].valid()
    &&& forall|i: int, j: int|
        #![trigger attempts[i], attempts[j]]
        0 <= i < attempts.len() && j == i + 1 && j < attempts.len() ==> attempts[j].before
            == attempts[i].after
}

/// Interrupted reads leave no trace: however many there are, each is only answered
/// that input is needed, and each, like the read that ends them, is offered space
/// of the same length. That read then stands as if it had been made at once.
pub proof fn law_interrupted_reads_leave_no_trace<R, E>(
    attempts: Seq<Attempt<R, E>>,
    written: Seq<u8>,
    offered: Parser<R>,
)
    requires
        attempts.len() > 0,
        are_retries(attempts),
        Parser::requests(attempts.last().after, written, offered),
    ensures
        forall|i: int|
            #![trigger attempts[i]]
            0 <= i < attempts.len() ==> {
                &&& attempts[i].answer == Ok::<Step, E>(Step::Read)
                &&& attempts[i].written.len() == written.len()
            },
        Parser::requests(attempts[0].before, written, offered),
    decreases attempts.len(),
{
    let last = attempts.last();
    let front = attempts.drop_last();
    assert(attempts[attempts.len() - 1].valid());
    lemma_request_again(last.before, last.written, last.offered, written, offered);
    if front.len() > 0 {
        assert(attempts[front.len() - 1].after == attempts[front.len() as int].before);
        assert forall|i: int| #![trigger front[i]] 0 <= i < front.len() implies front[i].valid() by {
            assert(front[i] == attempts[i]);
        }
        assert forall|i: int, j: int|
            #![trigger front[i], front[j]]
            0 <= i < front.len() && j == i + 1 && j < front.len() implies front[j].before
            == front[i].after by {
            assert(front[i] == attempts[i] && front[j] == attempts[j]);
        }
        law_interrupted_reads_leave_no_trace(front, written, offered);
        assert forall|i: int| #![trigger attempts[i]] 0 <= i < attempts.len() implies {
            &&& attempts[i].answer == Ok::<Step, E>(Step::Read)
            &&& attempts[i].written.len() == written.len()
        } by {
            if i < front.len() {
                assert(front[i] == attempts[i]);
            }
        }
    }
}

/// A second request is for the same space as the first.
proof fn lemma_request_again<R>(
    before: Parser<R>,
    first: Seq<u8>,
    between: Parser<R>,
    second: Seq<u8>,
    after: Parser<R>,
)
    requires
        Parser::requests(before, first, between),
        Parser::requests(between, second, after),
    ensures
        first.len() == second.len(),
        Parser::requests(before, second, after),
{
    let kept = before.reserved().skip(first.len() as int);
    assert(between.spare() == first + kept);
    assert(between.reserved() == between.spare());
    assert((first + kept).skip(first.len() as int) =~= kept);
}

/// What a read comes to depends on the input at hand and the space before it
/// alone: two parsers that agree on these agree on what follows.
pub proof fn law_read_depends_on_input_alone<R, E>(
    one: Parser<R>,
    other: Parser<R>,
    event: ReadEvent<E>,
    one_after: Parser<R>,
    one_answer: Result<Step, E>,
    other_after: Parser<R>,
    other_answer: Result<Step, E>,
)
    requires
        one.pending() == other.pending(),
        one.spare() == other.spare(),
        one.is_reading() == other.is_reading(),
        Parser::resumes(one, event, one_after, one_answer),
        Parser::resumes(other, event, other_after, other_answer),
    ensures
        one_answer == other_answer,
        one_after.pending() == other_after.pending(),
        one_after.spare() == other_after.spare(),
        one_after.is_reading() == other_after.is_reading(),
        one_answer == Ok::<Step, E>(Step::Record) ==> one_after.fields() == other_after.fields(),
{
}

/// A failed read costs nothing: once the record is begun again, the parser waits
/// for input as it did before, with the same input at hand.
pub proof fn law_failure_can_be_retried<R, E>(
    before: Parser<R>,
    error: E,
    failed: Parser<R>,
    answer: Result<Step, E>,
    after: Parser<R>,
    step: Step,
)
    requires
        before.wf(),
        before.is_reading(),
        Parser::resumes(before, ReadEvent::Failed(error), failed, answer),
        Parser::begins(failed, after, step),
    ensures
        answer == Err::<Step, E>(error),
        step == Step::Read,
        after.is_reading(),
        after.pending() == before.pending(),
        after.spare() == before.spare(),
{
    before.lemma_reading();
}

/// The end of the input stays the end: a parser without input that reads nothing
/// has no further record, each time it is asked.
pub proof fn law_end_stays<R, E>(
    before: Parser<R>,
    waiting: Parser<R>,
    asked: Step,
    after: Parser<R>,
    answer: Result<Step, E>,
)
    requires
        before.pending().len() == 0,
        Parser::begins(before, waiting, asked),
        Parser::resumes(waiting, ReadEvent::Read(0), after, answer),
    ensures
        asked == Step::Read,
        answer == Ok::<Step, E>(Step::End),
        after.pending().len() == 0,
{
    model::lemma_until(before.pending(), NEWLINE);
    assert(waiting.pending() + waiting.spare().take(0) =~= before.pending());
}

} // verus!
