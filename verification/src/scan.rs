//! The search for separators in one physically contiguous piece of text.
use crate::model;
use crate::model::{COMMA, NEWLINE};
use vstd::prelude::*;

verus! {

/// Where a field's bytes are.
#[derive(Clone, Copy, PartialEq, Eq, Structural, Debug)]
pub enum Span {
    /// At a logical offset of the ring buffer.
    Contiguous { offset: usize, len: usize },
    /// At an offset of the record's own buffer.
    Split { offset: usize, len: usize },
}

/// How the scan of a piece of text ended.
#[derive(Clone, Copy, PartialEq, Eq, Structural, Debug)]
pub enum ScanOutcome {
    /// No newline: the logical offset of the piece's end.
    NeedMoreData(usize),
    /// The logical offset after the newline that ends the record.
    RecordComplete(usize),
}

/// `memchr::memchr2`: the position of the first byte that is one of the two
/// needles, or `None` where there is no such byte.
pub assume_specification[ memchr::memchr2 ](
    needle1: u8,
    needle2: u8,
    haystack: &[u8],
) -> (found: Option<usize>)
    ensures
        match found {
            Some(at) => {
                &&& at < haystack@.len()
                &&& haystack@[at as int] == needle1 || haystack@[at as int] == needle2
                &&& forall|i: int|
                    0 <= i < at ==> haystack@[i] != needle1 && haystack@[i] != needle2
            },
            None => forall|i: int|
                0 <= i < haystack@.len() ==> haystack@[i] != needle1 && haystack@[i] != needle2,
        },
;

/// The span of a field of the ring that starts at `start` and ends before `end`.
pub open spec fn field_span(start: int, end: int) -> Span {
    Span::Contiguous { offset: start as usize, len: (end - start) as usize }
}

/// The spans of the fields that end in `hay`, up to its first newline, where
/// `hay` starts at logical offset `base` and its first field at `start`: a comma
/// ends a field and the next starts behind it; a newline ends the last.
pub open spec fn ended_spans(start: int, base: int, hay: Seq<u8>) -> Seq<Span>
    decreases hay.len(),
{
    if hay.len() == 0 {
        Seq::empty()
    } else if hay[0] == NEWLINE {
        seq![field_span(start, base)]
    } else if hay[0] == COMMA {
        seq![field_span(start, base)] + ended_spans(base + 1, base + 1, hay.skip(1))
    } else {
        ended_spans(start, base + 1, hay.skip(1))
    }
}

/// Where the field starts that follows those which end in `hay`, up to its first
/// newline: behind the last separator, or at `start` where there is none.
pub open spec fn start_after(start: int, base: int, hay: Seq<u8>) -> int
    decreases hay.len(),
{
    if hay.len() == 0 {
        start
    } else if hay[0] == NEWLINE {
        base + 1
    } else if hay[0] == COMMA {
        start_after(base + 1, base + 1, hay.skip(1))
    } else {
        start_after(start, base + 1, hay.skip(1))
    }
}

/// Bytes that are no separators end no field.
proof fn lemma_skip_plain(start: int, base: int, hay: Seq<u8>, n: int)
    requires
        0 <= n <= hay.len(),
        forall|i: int| 0 <= i < n ==> hay[i] != COMMA && hay[i] != NEWLINE,
    ensures
        ended_spans(start, base, hay) == ended_spans(start, base + n, hay.skip(n)),
        start_after(start, base, hay) == start_after(start, base + n, hay.skip(n)),
    decreases n,
{
    if n == 0 {
        assert(hay.skip(0) =~= hay);
    } else {
        lemma_skip_plain(start, base + 1, hay.skip(1), n - 1);
        assert(hay.skip(1).skip(n - 1) =~= hay.skip(n));
    }
}

/// The pieces of `text` that the spans are.
pub open spec fn spans_fields(text: Seq<u8>, spans: Seq<Span>) -> Seq<Seq<u8>> {
    Seq::new(
        spans.len(),
        |i: int|
            match spans[i] {
                Span::Contiguous { offset, len } => text.subrange(offset as int, offset + len),
                Span::Split { offset, len } => Seq::empty(),
            },
    )
}

/// Where the field after these spans starts: behind the separator that follows
/// the last, or at the front.
pub open spec fn next_start(spans: Seq<Span>) -> int {
    if spans.len() == 0 {
        0
    } else {
        match spans.last() {
            Span::Contiguous { offset, len } => offset + len + 1,
            Span::Split { offset, len } => 0,
        }
    }
}

/// Each span starts where the field after those before it does.
pub open spec fn spans_chained(spans: Seq<Span>) -> bool {
    forall|i: int|
        #![trigger spans[i]]
        0 <= i < spans.len() ==> (spans[i] matches Span::Contiguous { offset, .. } && offset
            == next_start(spans.take(i)))
}

/// Each span is a range of the first `end` bytes.
pub open spec fn spans_within(spans: Seq<Span>, end: int) -> bool {
    forall|i: int|
        #![trigger spans[i]]
        0 <= i < spans.len() ==> (spans[i] matches Span::Contiguous { offset, len } && offset + len
            <= end)
}

/// All of `text` has been scanned without a newline: the spans are the fields
/// that ended, and an unfinished one starts at `field_start`.
pub open spec fn scanned(text: Seq<u8>, field_start: int, spans: Seq<Span>) -> bool {
    &&& 0 <= field_start <= text.len()
    &&& field_start == next_start(spans)
    &&& spans_chained(spans)
    &&& spans_within(spans, text.len() as int)
    &&& !text.contains(NEWLINE)
    &&& !text.skip(field_start).contains(COMMA)
    &&& if field_start == 0 {
        spans.len() == 0
    } else {
        &&& text[field_start - 1] == COMMA
        &&& spans_fields(text, spans) == model::split(text.take(field_start - 1))
    }
}

/// Whether a range of the ring lies on both sides of the offset `wrap`.
pub open spec fn straddling(span: Span, wrap: nat) -> bool {
    span matches Span::Contiguous { offset, len } && offset < wrap < offset + len
}

/// The bytes of the spans that straddle, one after the other.
pub open spec fn set_aside(text: Seq<u8>, wrap: nat, spans: Seq<Span>) -> Seq<u8>
    decreases spans.len(),
{
    if spans.len() == 0 {
        Seq::empty()
    } else {
        let before = set_aside(text, wrap, spans.drop_last());
        if straddling(spans.last(), wrap) {
            before + spans_fields(text, spans).last()
        } else {
            before
        }
    }
}

/// The spans once those that straddle are set aside: each of these is its own
/// piece of what is set aside, the others stay as they are.
pub open spec fn finalized(text: Seq<u8>, wrap: nat, spans: Seq<Span>) -> Seq<Span> {
    Seq::new(
        spans.len(),
        |i: int|
            match spans[i] {
                Span::Contiguous { offset, len } if straddling(spans[i], wrap) => Span::Split {
                    offset: set_aside(text, wrap, spans.take(i)).len() as usize,
                    len,
                },
                _ => spans[i],
            },
    )
}

/// What is set aside for a span is in its place.
pub(crate) proof fn lemma_set_aside(text: Seq<u8>, wrap: nat, spans: Seq<Span>, index: int)
    requires
        spans_within(spans, text.len() as int),
        0 <= index < spans.len(),
        straddling(spans[index], wrap),
    ensures
        ({
            let whole = set_aside(text, wrap, spans);
            let field = spans_fields(text, spans)[index];
            let at = set_aside(text, wrap, spans.take(index)).len();
            &&& at + field.len() <= whole.len()
            &&& whole.subrange(at as int, (at + field.len()) as int) == field
        }),
    decreases spans.len(),
{
    let whole = set_aside(text, wrap, spans);
    let front = spans.drop_last();
    let field = spans_fields(text, spans)[index];
    let at = set_aside(text, wrap, spans.take(index)).len();
    if index == spans.len() - 1 {
        assert(spans.take(index) =~= front);
        assert(whole.subrange(at as int, (at + field.len()) as int) =~= field);
    } else {
        assert(front[index] == spans[index]);
        assert(front.take(index) =~= spans.take(index));
        lemma_set_aside(text, wrap, front, index);
        assert(spans_fields(text, front)[index] == field);
        assert(whole.subrange(at as int, (at + field.len()) as int) =~= set_aside(
            text,
            wrap,
            front,
        ).subrange(at as int, (at + field.len()) as int));
    }
}

/// Where no span straddles, nothing is set aside; where one does, its bytes.
pub(crate) proof fn lemma_set_aside_one(text: Seq<u8>, wrap: nat, spans: Seq<Span>)
    requires
        forall|i: int, j: int|
            #![trigger spans[i], spans[j]]
            0 <= i < spans.len() && 0 <= j < spans.len() && straddling(spans[i], wrap)
                && straddling(spans[j], wrap) ==> i == j,
    ensures
        (forall|i: int|
            #![trigger spans[i]]
            0 <= i < spans.len() ==> !straddling(spans[i], wrap)) ==> set_aside(text, wrap, spans)
            == Seq::<u8>::empty(),
        forall|i: int|
            #![trigger spans[i]]
            0 <= i < spans.len() && straddling(spans[i], wrap) ==> set_aside(text, wrap, spans)
                == spans_fields(text, spans)[i],
    decreases spans.len(),
{
    if spans.len() > 0 {
        let front = spans.drop_last();
        let last = spans.len() - 1;
        assert forall|i: int, j: int|
            #![trigger front[i], front[j]]
            0 <= i < front.len() && 0 <= j < front.len() && straddling(front[i], wrap)
                && straddling(front[j], wrap) implies i == j by {
            assert(front[i] == spans[i] && front[j] == spans[j]);
        }
        lemma_set_aside_one(text, wrap, front);
        if straddling(spans[last], wrap) {
            assert forall|i: int| #![trigger front[i]] 0 <= i < front.len() implies !straddling(
                front[i],
                wrap,
            ) by {
                assert(front[i] == spans[i]);
            }
            assert(set_aside(text, wrap, spans) =~= spans_fields(text, spans)[last]);
            assert forall|i: int|
                #![trigger spans[i]]
                0 <= i < spans.len() && straddling(spans[i], wrap) implies i == last by {
                assert(straddling(spans[last], wrap));
            }
        } else {
            assert forall|i: int|
                #![trigger spans[i]]
                0 <= i < spans.len() && straddling(spans[i], wrap) implies set_aside(
                text,
                wrap,
                spans,
            ) == spans_fields(text, spans)[i] by {
                assert(front[i] == spans[i]);
                assert(spans_fields(text, front)[i] == spans_fields(text, spans)[i]);
            }
            if forall|i: int|
                #![trigger spans[i]]
                0 <= i < spans.len() ==> !straddling(spans[i], wrap) {
                assert forall|i: int| #![trigger front[i]] 0 <= i < front.len() implies !straddling(
                    front[i],
                    wrap,
                ) by {
                    assert(front[i] == spans[i]);
                }
            }
        }
    }
}

/// A span that starts where the next field does is chained to those before it.
proof fn lemma_chain(spans: Seq<Span>, span: Span)
    requires
        spans_chained(spans),
        span matches Span::Contiguous { offset, .. } && offset == next_start(spans),
    ensures
        spans_chained(spans.push(span)),
{
    let all = spans.push(span);
    assert forall|i: int| #![trigger all[i]] 0 <= i < all.len() implies (
    all[i] matches Span::Contiguous { offset, .. } && offset == next_start(all.take(i))) by {
        assert(all.take(i) =~= spans.take(i));
        if i == spans.len() {
            assert(spans.take(i) =~= spans);
        } else {
            assert(all[i] == spans[i]);
        }
    }
}

/// A chained span starts where its field does in the line.
pub(crate) proof fn lemma_starts(text: Seq<u8>, spans: Seq<Span>, index: int)
    requires
        spans_chained(spans),
        spans_within(spans, text.len() as int),
        0 <= index <= spans.len(),
    ensures
        model::field_start(spans_fields(text, spans), index) == next_start(spans.take(index)),
    decreases index,
{
    if index > 0 {
        lemma_starts(text, spans, index - 1);
        assert(spans.take(index).last() == spans[index - 1]);
        assert(spans[index - 1] is Contiguous);
    }
}

/// The field that is unfinished at the end of a scanned text is its last.
pub(crate) proof fn lemma_last_field(text: Seq<u8>, field_start: int, spans: Seq<Span>, span: Span)
    requires
        scanned(text, field_start, spans),
        span matches Span::Contiguous { offset, len } && offset == field_start && offset + len
            == text.len(),
    ensures
        spans_fields(text, spans.push(span)) == model::split(text),
        spans_within(spans.push(span), text.len() as int),
        spans_chained(spans.push(span)),
{
    lemma_chain(spans, span);
    let last = text.skip(field_start);
    assert(spans_fields(text, spans.push(span)) =~= spans_fields(text, spans).push(last));
    if field_start == 0 {
        assert(last =~= text);
        model::lemma_split_one(text);
        assert(spans_fields(text, spans.push(span)) =~= seq![text]);
    } else {
        let front = text.take(field_start - 1);
        model::lemma_split_last(front, last);
        assert(front.push(COMMA) + last =~= text);
    }
}

/// Fields stay what they are when text is added.
pub(crate) proof fn lemma_fields_extend(text: Seq<u8>, more: Seq<u8>, spans: Seq<Span>)
    requires
        spans_within(spans, text.len() as int),
    ensures
        spans_within(spans, (text + more).len() as int),
        spans_fields(text + more, spans) == spans_fields(text, spans),
{
    assert forall|i: int| 0 <= i < spans.len() implies spans_fields(text + more, spans)[i]
        == spans_fields(text, spans)[i] by {
        if let Span::Contiguous { offset, len } = spans[i] {
            assert((text + more).subrange(offset as int, offset + len) =~= text.subrange(
                offset as int,
                offset + len,
            ));
        }
    }
    assert(spans_fields(text + more, spans) =~= spans_fields(text, spans));
}

/// Text without a separator goes to the unfinished field.
pub(crate) proof fn lemma_scan_plain(
    text: Seq<u8>,
    more: Seq<u8>,
    field_start: int,
    spans: Seq<Span>,
)
    requires
        scanned(text, field_start, spans),
        forall|i: int| 0 <= i < more.len() ==> more[i] != COMMA && more[i] != NEWLINE,
    ensures
        scanned(text + more, field_start, spans),
{
    let whole = text + more;
    lemma_fields_extend(text, more, spans);
    if whole.contains(NEWLINE) {
        let i = choose|i: int| 0 <= i < whole.len() && whole[i] == NEWLINE;
        if i < text.len() {
            assert(text[i] == NEWLINE);
        } else {
            assert(more[i - text.len()] == NEWLINE);
        }
    }
    let open = whole.skip(field_start);
    if open.contains(COMMA) {
        let i = choose|i: int| 0 <= i < open.len() && open[i] == COMMA;
        if field_start + i < text.len() {
            assert(text.skip(field_start)[i] == COMMA);
        } else {
            assert(more[field_start + i - text.len()] == COMMA);
        }
    }
    if field_start > 0 {
        assert(whole.take(field_start - 1) =~= text.take(field_start - 1));
    }
}

/// A comma ends the unfinished field and starts the next.
pub(crate) proof fn lemma_scan_comma(text: Seq<u8>, field_start: int, spans: Seq<Span>, span: Span)
    requires
        scanned(text, field_start, spans),
        span matches Span::Contiguous { offset, len } && offset == field_start && offset + len
            == text.len(),
    ensures
        scanned(text.push(COMMA), text.len() as int + 1, spans.push(span)),
{
    let whole = text.push(COMMA);
    lemma_last_field(text, field_start, spans, span);
    assert(whole =~= text + seq![COMMA]);
    lemma_fields_extend(text, seq![COMMA], spans.push(span));
    assert(whole.take(text.len() as int) =~= text);
    if whole.contains(NEWLINE) {
        let i = choose|i: int| 0 <= i < whole.len() && whole[i] == NEWLINE;
        assert(text[i] == NEWLINE);
    }
    assert(whole.skip(text.len() as int + 1) =~= Seq::<u8>::empty());
}

/// What a scan does to text that follows a scanned one: without a newline all of
/// it is scanned; with one, the spans are the pieces of the line.
#[verifier::opaque]
pub open spec fn scan_continues(
    seen: Seq<u8>,
    hay: Seq<u8>,
    field_start: int,
    spans: Seq<Span>,
) -> bool {
    let base = seen.len() as int;
    let text = seen + hay;
    let all = spans + ended_spans(field_start, base, hay);
    &&& model::until(text, NEWLINE) == base + model::until(hay, NEWLINE)
    &&& if model::has_line(hay) {
        &&& spans_within(all, model::until(text, NEWLINE))
        &&& spans_chained(all)
        &&& spans_fields(text, all) == model::split(model::line(text))
    } else {
        scanned(text, start_after(field_start, base, hay), all)
    }
}

/// A newline ends the last field of the line.
proof fn lemma_scan_newline(seen: Seq<u8>, hay: Seq<u8>, field_start: int, spans: Seq<Span>)
    requires
        scanned(seen, field_start, spans),
        seen.len() + hay.len() <= usize::MAX,
        hay.len() > 0,
        hay[0] == NEWLINE,
    ensures
        scan_continues(seen, hay, field_start, spans),
{
    reveal(scan_continues);
    let base = seen.len() as int;
    let text = seen + hay;
    let span = field_span(field_start, base);
    let all = spans + ended_spans(field_start, base, hay);
    lemma_last_field(seen, field_start, spans, span);
    lemma_no_newline(seen);
    assert forall|i: int| 0 <= i < base implies text[i] != NEWLINE by {
        assert(text[i] == seen[i]);
    }
    model::lemma_until_is(text, NEWLINE, base);
    assert(all =~= spans.push(span));
    assert(text.take(base) =~= seen);
    lemma_fields_extend(seen, hay, all);
}

/// Nothing to scan changes nothing.
proof fn lemma_scan_nothing(seen: Seq<u8>, field_start: int, spans: Seq<Span>)
    requires
        scanned(seen, field_start, spans),
    ensures
        scan_continues(seen, Seq::empty(), field_start, spans),
{
    reveal(scan_continues);
    let none = Seq::<u8>::empty();
    assert(seen + none =~= seen);
    assert(spans + ended_spans(field_start, seen.len() as int, none) =~= spans);
    lemma_no_newline(seen);
}

/// A scan goes on behind a byte that is no newline.
proof fn lemma_scan_byte(
    seen: Seq<u8>,
    hay: Seq<u8>,
    field_start: int,
    spans: Seq<Span>,
    next_start: int,
    next_spans: Seq<Span>,
)
    requires
        hay.len() > 0,
        hay[0] != NEWLINE,
        scan_continues(seen.push(hay[0]), hay.skip(1), next_start, next_spans),
        spans + ended_spans(field_start, seen.len() as int, hay) == next_spans + ended_spans(
            next_start,
            seen.len() as int + 1,
            hay.skip(1),
        ),
        start_after(field_start, seen.len() as int, hay) == start_after(
            next_start,
            seen.len() as int + 1,
            hay.skip(1),
        ),
    ensures
        scan_continues(seen, hay, field_start, spans),
{
    reveal(scan_continues);
    assert(seen + hay =~= seen.push(hay[0]) + hay.skip(1));
}

/// A scan goes on from a scanned text as [`scan_continues`] says.
pub(crate) proof fn lemma_scan(seen: Seq<u8>, hay: Seq<u8>, field_start: int, spans: Seq<Span>)
    requires
        scanned(seen, field_start, spans),
        seen.len() + hay.len() <= usize::MAX,
    ensures
        scan_continues(seen, hay, field_start, spans),
    decreases hay.len(),
{
    let base = seen.len() as int;
    let all = spans + ended_spans(field_start, base, hay);
    if hay.len() == 0 {
        lemma_scan_nothing(seen, field_start, spans);
        assert(hay =~= Seq::empty());
    } else if hay[0] == NEWLINE {
        lemma_scan_newline(seen, hay, field_start, spans);
    } else if hay[0] == COMMA {
        let tail = hay.skip(1);
        let span = field_span(field_start, base);
        lemma_scan_comma(seen, field_start, spans, span);
        lemma_scan(seen.push(COMMA), tail, base + 1, spans.push(span));
        assert(all =~= spans.push(span) + ended_spans(base + 1, base + 1, tail));
        lemma_scan_byte(seen, hay, field_start, spans, base + 1, spans.push(span));
    } else {
        let tail = hay.skip(1);
        lemma_scan_plain(seen, seq![hay[0]], field_start, spans);
        assert(seen + seq![hay[0]] =~= seen.push(hay[0]));
        lemma_scan(seen.push(hay[0]), tail, field_start, spans);
        lemma_scan_byte(seen, hay, field_start, spans, field_start, spans);
    }
}

/// A text without a newline holds no line.
proof fn lemma_no_newline(text: Seq<u8>)
    requires
        !text.contains(NEWLINE),
    ensures
        model::until(text, NEWLINE) == text.len(),
        forall|i: int| 0 <= i < text.len() ==> text[i] != NEWLINE,
{
    assert forall|i: int| 0 <= i < text.len() implies text[i] != NEWLINE by {
        if text[i] == NEWLINE {
            assert(text.contains(NEWLINE));
        }
    }
    model::lemma_until_is(text, NEWLINE, text.len() as int);
}

/// Scans the contiguous piece `hay`, which starts at logical offset `base`, up to
/// a newline. A span is pushed for each field that ends, and `field_start` moves
/// past each.
pub fn scan_segment(
    spans: &mut Vec<Span>,
    field_start: &mut usize,
    base: usize,
    hay: &[u8],
) -> (outcome: ScanOutcome)
    requires
        *old(field_start) <= base,
        base + hay@.len() <= usize::MAX,
    ensures
        outcome == if model::has_line(hay@) {
            ScanOutcome::RecordComplete((base + model::until(hay@, NEWLINE) + 1) as usize)
        } else {
            ScanOutcome::NeedMoreData((base + hay@.len()) as usize)
        },
        final(spans)@ == old(spans)@ + ended_spans(*old(field_start) as int, base as int, hay@),
        *final(field_start) == start_after(*old(field_start) as int, base as int, hay@),
{
    let mut local: usize = 0;
    let ghost spans0 = spans@;
    let ghost start0 = *field_start as int;
    assert(hay@.skip(0) =~= hay@);
    loop
        invariant
            base + hay@.len() <= usize::MAX,
            local <= hay@.len(),
            *field_start <= base + local,
            spans@ + ended_spans(*field_start as int, base + local, hay@.skip(local as int))
                == spans0 + ended_spans(start0, base as int, hay@),
            start_after(*field_start as int, base + local, hay@.skip(local as int)) == start_after(
                start0,
                base as int,
                hay@,
            ),
            forall|j: int| 0 <= j < local ==> hay@[j] != NEWLINE,
            spans0 == old(spans)@,
            start0 == *old(field_start),
        decreases hay@.len() - local,
    {
        let rest = &hay[local..hay.len()];
        assert(rest@ =~= hay@.skip(local as int));
        match memchr::memchr2(COMMA, NEWLINE, rest) {
            Some(i) => {
                let pos = base + local + i;
                let is_newline = hay[local + i] == NEWLINE;
                let span = Span::Contiguous { offset: *field_start, len: pos - *field_start };
                proof {
                    lemma_skip_plain(*field_start as int, base + local, rest@, i as int);
                    assert(rest@.skip(i as int)[0] == hay@[local + i]);
                    assert(rest@.skip(i as int).skip(1) =~= hay@.skip(local + i + 1));
                    assert forall|j: int| 0 <= j < local + i implies hay@[j] != NEWLINE by {
                        if j >= local {
                            assert(rest@[j - local] == hay@[j]);
                        }
                    }
                }
                let ghost before = spans@;
                let ghost ended = ended_spans(*field_start as int, pos as int, rest@.skip(i as int));
                spans.push(span);
                *field_start = pos + 1;
                local += i + 1;
                if is_newline {
                    proof {
                        assert(before + ended =~= spans@);
                        model::lemma_until_is(hay@, NEWLINE, local - 1);
                    }
                    return ScanOutcome::RecordComplete(pos + 1);
                }
                proof {
                    assert(before + ended =~= spans@ + ended_spans(
                        pos + 1,
                        pos + 1,
                        hay@.skip(local as int),
                    ));
                }
            },
            None => {
                proof {
                    lemma_skip_plain(*field_start as int, base + local, rest@, rest@.len() as int);
                    assert(rest@.skip(rest@.len() as int) =~= Seq::<u8>::empty());
                    assert(spans@ + Seq::<Span>::empty() =~= spans@);
                    assert forall|j: int| 0 <= j < hay@.len() implies hay@[j] != NEWLINE by {
                        if j >= local {
                            assert(rest@[j - local] == hay@[j]);
                        }
                    }
                    model::lemma_until_is(hay@, NEWLINE, hay@.len() as int);
                }
                return ScanOutcome::NeedMoreData(base + hay.len());
            },
        }
    }
}

} // verus!
