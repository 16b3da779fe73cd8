//! A record and the steps by which it is parsed.
use crate::model;
use crate::ring::{ReadEvent, RingBuffer};
use crate::scan;
use crate::scan::{scan_segment, ScanOutcome, Span};
use vstd::prelude::*;

verus! {

/// What parsing has come to.
#[derive(Clone, Copy, PartialEq, Eq, Structural, Debug)]
pub enum Step {
    /// The next record is complete and can be had.
    Record,
    /// The input is at its end: there is no further record.
    End,
    /// The next record needs more input.
    Read,
}

/// One record: the fields of one line, as slices of the buffers that it owns.
pub struct Record {
    buffer: RingBuffer,
    split_buffer: Vec<u8>,
    spans: Vec<Span>,
    /// Bytes to drop from the front of `buffer` when the next record is begun, so
    /// that the fields of this one stay where they are until then.
    pending_advance: usize,
    scan: Scan,
    /// Whether the record is unfinished for want of input.
    reading: bool,
}

/// How far the scan of an unfinished record has come.
struct Scan {
    /// Where the unfinished field starts.
    field_start: usize,
    /// The end of what has been scanned.
    scan_pos: usize,
    /// Whether there was any input at all.
    any_data: bool,
}

impl View for Record {
    type V = Seq<Seq<u8>>;

    /// The fields.
    closed spec fn view(&self) -> Seq<Seq<u8>> {
        Seq::new(self.spans@.len(), |i: int| self.span_bytes(self.spans@[i]))
    }
}

impl Record {
    /// The bytes that a span stands for.
    spec fn span_bytes(&self, span: Span) -> Seq<u8> {
        match span {
            Span::Contiguous { offset, len } => self.buffer@.subrange(offset as int, offset + len),
            Span::Split { offset, len } => self.split_buffer@.subrange(offset as int, offset + len),
        }
    }

    /// Whether a span is within its buffer and, in the ring, in one piece.
    spec fn span_placed(&self, span: Span) -> bool {
        match span {
            Span::Contiguous { offset, len } => {
                &&& offset + len <= self.buffer@.len()
                &&& offset >= self.buffer.wrap() || offset + len <= self.buffer.wrap()
            },
            Span::Split { offset, len } => offset + len <= self.split_buffer@.len(),
        }
    }

    /// Whether the field at `index` was put together from two pieces.
    spec fn is_split(&self, index: int) -> bool {
        self.spans@[index] is Split
    }

    /// The scan of an unfinished record, as far as it has come.
    spec fn scanning(&self) -> bool {
        &&& self.buffer.wf()
        &&& self.pending_advance == 0
        &&& self.scan.scan_pos <= self.buffer@.len()
        &&& scan::scanned(
            self.buffer@.take(self.scan.scan_pos as int),
            self.scan.field_start as int,
            self.spans@,
        )
    }

    /// The record's validity: finished, each field can be had as one slice;
    /// unfinished, all input so far has been scanned.
    pub closed spec fn wf(&self) -> bool {
        &&& self.buffer.wf()
        &&& if self.reading {
            &&& self.scanning()
            &&& self.scan.scan_pos == self.buffer@.len()
            &&& self.scan.any_data == (self.buffer@.len() > 0)
        } else {
            &&& self.pending_advance <= self.buffer@.len()
            &&& forall|i: int|
                #![trigger self.spans@[i]]
                0 <= i < self.spans@.len() ==> {
                    &&& self.span_placed(self.spans@[i])
                    &&& self.is_split(i) <==> self.straddles(i)
                }
            &&& self.one_set_aside()
        }
    }

    /// Whether the record is unfinished and waits for input.
    pub closed spec fn is_reading(&self) -> bool {
        self.reading
    }

    /// The input that no record so far has used up.
    pub closed spec fn pending(&self) -> Seq<u8> {
        self.buffer@.skip(self.pending_advance as int)
    }

    /// What the space reserved for input holds.
    pub closed spec fn spare(&self) -> Seq<u8> {
        self.buffer.spare()
    }

    /// The least space that is reserved for a read.
    pub closed spec fn chunk_size(&self) -> nat {
        self.buffer.chunk_size()
    }

    /// What the space reserved for input holds once it is at least a chunk.
    pub open spec fn reserved(&self) -> Seq<u8> {
        if self.spare().len() < self.chunk_size() {
            self.spare() + Seq::new(self.chunk_size(), |i: int| 0u8)
        } else {
            self.spare()
        }
    }

    /// Whether the reserved space is at least a chunk or can be grown by one: no
    /// allocation holds more than `isize::MAX` bytes.
    pub open spec fn has_room(&self) -> bool {
        self.spare().len() < self.chunk_size() ==> self.pending().len() + self.spare().len()
            + self.chunk_size() <= isize::MAX
    }

    /// The logical offset at which the ring's storage wraps.
    pub closed spec fn wrap(&self) -> nat {
        self.buffer.wrap()
    }

    /// Whether the field at `index` lies on both sides of the point where the
    /// ring's storage wraps.
    pub open spec fn straddles(&self, index: int) -> bool {
        let start = model::field_start(self@, index);
        start < self.wrap() < start + self@[index].len()
    }

    /// The bytes that were put together, apart from the ring.
    pub closed spec fn set_aside(&self) -> Seq<u8> {
        self.split_buffer@
    }

    /// What is put together is the field that straddles, and nothing where none
    /// does.
    pub open spec fn one_set_aside(&self) -> bool {
        &&& forall|i: int|
            #![trigger self.straddles(i)]
            0 <= i < self@.len() && self.straddles(i) ==> self.set_aside() == self@[i]
        &&& (forall|i: int|
            #![trigger self.straddles(i)]
            0 <= i < self@.len() ==> !self.straddles(i)) ==> self.set_aside() == Seq::<u8>::empty()
    }

    /// A record that waits for input has used all that holds a line.
    pub proof fn lemma_reading(&self)
        requires
            self.wf(),
            self.is_reading(),
        ensures
            !model::has_line(self.pending()),
    {
        let text = self.buffer@;
        assert(text.take(text.len() as int) =~= text);
        assert(self.pending() =~= text);
        model::lemma_until(text, model::NEWLINE);
    }

    /// A finished record has put together the field that straddles, and no more.
    pub proof fn lemma_finished(&self)
        requires
            self.wf(),
            !self.is_reading(),
        ensures
            self.one_set_aside(),
    {
    }

    /// Number of fields in this record.
    pub fn len(&self) -> (len: usize)
        ensures
            len == self@.len(),
    {
        self.spans.len()
    }

    /// Returns `true` if this record has no fields (an empty line).
    #[must_use]
    pub fn is_empty(&self) -> (empty: bool)
        ensures
            empty == (self@.len() == 0),
    {
        self.len() == 0
    }

    /// Returns the raw bytes of the field at `index`, or `None` if `index` is out
    /// of range.
    pub fn get_at(&self, index: usize) -> (field: Option<&[u8]>)
        requires
            self.wf(),
            !self.is_reading(),
        ensures
            match field {
                Some(bytes) => index < self@.len() && bytes@ == self@[index as int],
                None => index >= self@.len(),
            },
    {
        if index >= self.spans.len() {
            return None;
        }
        match self.spans[index] {
            Span::Contiguous { offset, len } => {
                let (a, b) = self.buffer.field_at(offset, len);
                assert((self.buffer@ + self.buffer.spare()).subrange(offset as int, offset + len)
                    =~= self.buffer@.subrange(offset as int, offset + len));
                if b.is_empty() {
                    assert(a@ + b@ =~= a@);
                    Some(a)
                } else {
                    assert(a@ + b@ =~= b@);
                    Some(b)
                }
            },
            Span::Split { offset, len } => {
                assert(self.split_buffer.len() == self.split_buffer@.len());
                Some(&self.split_buffer[offset..offset + len])
            },
        }
    }

    /// Whether the record has a field that is a slice of the ring, and whether it
    /// has one that was put together.
    pub fn span_kinds(&self) -> (kinds: (bool, bool))
        requires
            self.wf(),
            !self.is_reading(),
        ensures
            kinds.0 == exists|i: int| 0 <= i < self@.len() && !self.straddles(i),
            kinds.1 == exists|i: int| 0 <= i < self@.len() && self.straddles(i),
    {
        let mut has_contiguous = false;
        let mut has_split = false;
        let mut i: usize = 0;
        while i < self.spans.len()
            invariant
                self.wf(),
                !self.is_reading(),
                i <= self.spans@.len(),
                has_contiguous == exists|j: int| 0 <= j < i && !self.straddles(j),
                has_split == exists|j: int| 0 <= j < i && self.straddles(j),
            decreases self.spans@.len() - i,
        {
            match self.spans[i] {
                Span::Contiguous { .. } => {
                    assert(!self.straddles(i as int));
                    has_contiguous = true;
                },
                Span::Split { .. } => {
                    assert(self.straddles(i as int));
                    has_split = true;
                },
            }
            i += 1;
        }
        (has_contiguous, has_split)
    }

    /// A record without fields, and without any input yet.
    pub(crate) fn new(chunk_size: usize) -> (record: Self)
        ensures
            record.wf(),
            !record.is_reading(),
            record@ == Seq::<Seq<u8>>::empty(),
            record.pending() == Seq::<u8>::empty(),
            record.spare() == Seq::<u8>::empty(),
            record.chunk_size() == chunk_size,
    {
        Record {
            buffer: RingBuffer::new(chunk_size),
            split_buffer: Vec::new(),
            spans: Vec::new(),
            pending_advance: 0,
            scan: Scan { field_start: 0, scan_pos: 0, any_data: false },
            reading: false,
        }
    }

    /// Rewrites any `Contiguous` span that straddles the buffer's wrap point into
    /// a `Split` span backed by `split_buffer`. It runs once, after the buffer is
    /// done being changed for this record: until then the wrap point can move.
    fn finalize_spans(&mut self)
        requires
            old(self).buffer.wf(),
            scan::spans_within(old(self).spans@, old(self).buffer@.len() as int),
        ensures
            final(self).buffer == old(self).buffer,
            final(self).pending_advance == old(self).pending_advance,
            final(self).scan == old(self).scan,
            final(self).reading == old(self).reading,
            final(self).split_buffer@ == scan::set_aside(
                old(self).buffer@,
                old(self).buffer.wrap(),
                old(self).spans@,
            ),
            final(self).spans@ == scan::finalized(
                old(self).buffer@,
                old(self).buffer.wrap(),
                old(self).spans@,
            ),
            final(self)@ == scan::spans_fields(old(self).buffer@, old(self).spans@),
            forall|i: int|
                #![trigger final(self).spans@[i]]
                0 <= i < final(self).spans@.len() ==> final(self).span_placed(
                    final(self).spans@[i],
                ),
    {
        let wrap_point = self.buffer.wrap_point();
        self.split_buffer.clear();
        let ghost spans0 = self.spans@;
        let ghost text = self.buffer@;
        let ghost wrap = self.buffer.wrap();
        let mut i: usize = 0;
        while i < self.spans.len()
            invariant
                self.buffer == old(self).buffer,
                self.pending_advance == old(self).pending_advance,
                self.scan == old(self).scan,
                self.reading == old(self).reading,
                self.buffer.wf(),
                text == self.buffer@,
                spans0 == old(self).spans@,
                wrap_point == wrap == self.buffer.wrap(),
                scan::spans_within(spans0, text.len() as int),
                i <= self.spans@.len() == spans0.len(),
                self.split_buffer@ == scan::set_aside(text, wrap, spans0.take(i as int)),
                forall|j: int|
                    #![trigger self.spans@[j]]
                    i <= j < spans0.len() ==> self.spans@[j] == spans0[j],
                forall|j: int|
                    #![trigger self.spans@[j]]
                    0 <= j < i ==> self.spans@[j] == scan::finalized(text, wrap, spans0)[j],
            decreases spans0.len() - i,
        {
            proof {
                self.buffer.lemma_len();
                let taken = spans0.take(i + 1);
                assert(taken.drop_last() =~= spans0.take(i as int));
                assert(taken.last() == spans0[i as int]);
            }
            let ghost before = *self;
            if let Span::Contiguous { offset, len } = self.spans[i] {
                let end = offset + len;
                if offset < wrap_point && end > wrap_point {
                    let (a, b) = self.buffer.field_at(offset, len);
                    let split_offset = self.split_buffer.len();
                    self.split_buffer.extend_from_slice(a);
                    self.split_buffer.extend_from_slice(b);
                    self.spans[i] = Span::Split { offset: split_offset, len };
                    proof {
                        let field = text.subrange(offset as int, offset + len);
                        assert((text + self.buffer.spare()).subrange(offset as int, offset + len)
                            =~= field);
                        assert(self.split_buffer@ =~= before.split_buffer@ + field);
                    }
                }
            }
            i += 1;
        }
        proof {
            assert(spans0.take(i as int) =~= spans0);
            assert(self.spans@ =~= scan::finalized(text, wrap, spans0));
            assert forall|i: int| #![trigger self.spans@[i]] 0 <= i < self.spans@.len() implies {
                &&& self.span_placed(self.spans@[i])
                &&& self.span_bytes(self.spans@[i]) == scan::spans_fields(text, spans0)[i]
            } by {
                assert(spans0[i] is Contiguous);
                if scan::straddling(spans0[i], wrap) {
                    scan::lemma_set_aside(text, wrap, spans0, i);
                    assert(self.split_buffer.len() == self.split_buffer@.len());
                }
            }
            assert(self@ =~= scan::spans_fields(text, spans0));
        }
    }

    /// Ends the record at logical offset `end`: what precedes it is used up.
    fn finish(&mut self, end: usize)
        requires
            old(self).buffer.wf(),
            end <= old(self).buffer@.len(),
            scan::spans_within(old(self).spans@, old(self).buffer@.len() as int),
            scan::spans_chained(old(self).spans@),
        ensures
            final(self).wf(),
            !final(self).is_reading(),
            final(self).one_set_aside(),
            final(self)@ == scan::spans_fields(old(self).buffer@, old(self).spans@),
            final(self).pending() == old(self).buffer@.skip(end as int),
            final(self).spare() == old(self).spare(),
            final(self).chunk_size() == old(self).chunk_size(),
            final(self).wrap() == old(self).wrap(),
    {
        let ghost spans0 = self.spans@;
        self.pending_advance = end;
        self.finalize_spans();
        let ghost finalized = *self;
        self.reading = false;
        proof {
            let text = self.buffer@;
            let wrap = self.buffer.wrap();
            assert(self@ =~= finalized@);
            assert(self@.len() == spans0.len());
            assert forall|i: int| #![trigger self.spans@[i]] 0 <= i < self.spans@.len() implies {
                &&& self.span_placed(self.spans@[i])
                &&& self.is_split(i) <==> self.straddles(i)
                &&& self.straddles(i) <==> scan::straddling(spans0[i], wrap)
            } by {
                assert(finalized.span_placed(finalized.spans@[i]));
                scan::lemma_starts(text, spans0, i);
                assert(spans0[i] is Contiguous);
            }
            assert forall|i: int, j: int|
                #![trigger spans0[i], spans0[j]]
                0 <= i < spans0.len() && 0 <= j < spans0.len() && scan::straddling(spans0[i], wrap)
                    && scan::straddling(spans0[j], wrap) implies i == j by {
                let _ = (self.spans@[i], self.spans@[j]);
                assert(self.straddles(i) && self.straddles(j));
                if i < j {
                    model::lemma_starts_apart(self@, i, j);
                } else if j < i {
                    model::lemma_starts_apart(self@, j, i);
                }
            }
            scan::lemma_set_aside_one(text, wrap, spans0);
            assert forall|i: int|
                #![trigger self.straddles(i)]
                0 <= i < self@.len() && self.straddles(i) implies self.set_aside() == self@[i] by {
                let _ = self.spans@[i];
                assert(scan::straddling(spans0[i], wrap));
            }
            if forall|i: int|
                #![trigger self.straddles(i)]
                0 <= i < self@.len() ==> !self.straddles(i) {
                assert forall|i: int| #![trigger spans0[i]] 0 <= i < spans0.len() implies
                    !scan::straddling(spans0[i], wrap) by {
                    let _ = self.spans@[i];
                    assert(!self.straddles(i));
                }
            }
        }
    }

    /// Ends the record at logical offset `end`, behind its newline. An empty line
    /// has no fields.
    fn finish_line(&mut self, end: usize)
        requires
            old(self).buffer.wf(),
            model::has_line(old(self).buffer@),
            end == model::until(old(self).buffer@, model::NEWLINE) + 1,
            scan::spans_within(old(self).spans@, end - 1),
            scan::spans_chained(old(self).spans@),
            scan::spans_fields(old(self).buffer@, old(self).spans@) == model::split(
                model::line(old(self).buffer@),
            ),
        ensures
            final(self).wf(),
            !final(self).is_reading(),
            final(self).one_set_aside(),
            final(self)@ == model::fields(model::line(old(self).buffer@)),
            final(self).pending() == model::after_line(old(self).buffer@),
            final(self).spare() == old(self).spare(),
            final(self).chunk_size() == old(self).chunk_size(),
            final(self).wrap() == old(self).wrap(),
    {
        proof {
            model::lemma_until(self.buffer@, model::NEWLINE);
        }
        if end == 1 {
            self.spans.clear();
        }
        self.finish(end);
        assert(end == 1 ==> self@ =~= Seq::empty());
    }

    /// Scans what has not been scanned yet and ends the record at a newline.
    /// Returns whether there was one.
    fn scan_buffered(&mut self) -> (done: bool)
        requires
            old(self).scanning(),
            old(self).scan.any_data == (old(self).buffer@.len() > 0),
        ensures
            final(self).wf(),
            final(self).spare() == old(self).spare(),
            final(self).chunk_size() == old(self).chunk_size(),
            final(self).wrap() == old(self).wrap(),
            final(self).is_reading() == !done,
            done == model::has_line(old(self).buffer@),
            done ==> final(self)@ == model::fields(model::line(old(self).buffer@)),
            done ==> final(self).pending() == model::after_line(old(self).buffer@),
            done ==> final(self).one_set_aside(),
            !done ==> final(self).pending() == old(self).buffer@,
    {
        let ghost text = self.buffer@;
        let base = self.scan.scan_pos;
        let (hay0, hay1) = self.buffer.readable_from(base);
        let ghost seen = text.take(base as int);
        proof {
            reveal(scan::scan_continues);
            self.buffer.lemma_len();
            assert(seen + text.skip(base as int) =~= text);
            assert(seen + hay0@ + hay1@ =~= seen + (hay0@ + hay1@));
            model::lemma_until(hay0@, model::NEWLINE);
            model::lemma_until(hay1@, model::NEWLINE);
            scan::lemma_scan(seen, hay0@, self.scan.field_start as int, self.spans@);
        }
        match scan_segment(&mut self.spans, &mut self.scan.field_start, base, hay0) {
            ScanOutcome::RecordComplete(end) => {
                proof {
                    Self::lemma_line_end(seen + hay0@, hay1@, self.spans@);
                }
                self.finish_line(end);
                return true;
            },
            ScanOutcome::NeedMoreData(pos) => {
                self.scan.scan_pos = pos;
            },
        }
        let base = self.scan.scan_pos;
        proof {
            scan::lemma_scan(seen + hay0@, hay1@, self.scan.field_start as int, self.spans@);
        }
        match scan_segment(&mut self.spans, &mut self.scan.field_start, base, hay1) {
            ScanOutcome::RecordComplete(end) => {
                self.finish_line(end);
                true
            },
            ScanOutcome::NeedMoreData(pos) => {
                self.scan.scan_pos = pos;
                self.reading = true;
                assert(text.take(pos as int) =~= text);
                false
            },
        }
    }

    /// A line that has ended is not changed by what follows.
    proof fn lemma_line_end(text: Seq<u8>, more: Seq<u8>, spans: Seq<Span>)
        requires
            model::has_line(text),
            scan::spans_within(spans, text.len() as int),
        ensures
            model::has_line(text + more),
            model::until(text + more, model::NEWLINE) == model::until(text, model::NEWLINE),
            model::line(text + more) == model::line(text),
            model::after_line(text + more) == model::after_line(text) + more,
            scan::spans_fields(text + more, spans) == scan::spans_fields(text, spans),
    {
        model::lemma_line_stays(text, more);
        scan::lemma_fields_extend(text, more, spans);
    }

    /// Begins the next record and scans the input that is there. Where that holds
    /// no line, the record waits for input.
    pub(crate) fn parse(&mut self) -> (step: Step)
        requires
            old(self).wf(),
        ensures
            final(self).wf(),
            final(self).spare() == old(self).spare(),
            final(self).chunk_size() == old(self).chunk_size(),
            if model::has_line(old(self).pending()) {
                &&& step == Step::Record
                &&& !final(self).is_reading()
                &&& final(self)@ == model::fields(model::line(old(self).pending()))
                &&& final(self).pending() == model::after_line(old(self).pending())
                &&& final(self).one_set_aside()
            } else {
                &&& step == Step::Read
                &&& final(self).is_reading()
                &&& final(self).pending() == old(self).pending()
            },
    {
        self.buffer.advance_front(self.pending_advance);
        self.pending_advance = 0;
        self.spans.clear();
        let any_data = self.buffer.has_data();
        self.scan = Scan { field_start: 0, scan_pos: 0, any_data };
        if self.scan_buffered() {
            Step::Record
        } else {
            Step::Read
        }
    }

    /// Goes on with an unfinished record once a read into the reserved space has
    /// ended. The end of the input ends the record where there is any input left.
    /// A read's error is handed on; the input so far is then kept, and parsing can
    /// begin again.
    pub(crate) fn resume<E>(&mut self, event: ReadEvent<E>) -> (step: Result<Step, E>)
        requires
            old(self).wf(),
            old(self).is_reading(),
            event matches ReadEvent::Read(n) ==> n <= old(self).spare().len(),
        ensures
            final(self).wf(),
            final(self).chunk_size() == old(self).chunk_size(),
            final(self).wrap() == old(self).wrap(),
            match event {
                ReadEvent::Read(n) => {
                    let text = old(self).pending() + old(self).spare().take(n as int);
                    &&& final(self).spare() == old(self).spare().skip(n as int)
                    &&& if model::has_line(text) {
                        &&& step == Ok::<Step, E>(Step::Record)
                        &&& !final(self).is_reading()
                        &&& final(self)@ == model::fields(model::line(text))
                        &&& final(self).pending() == model::after_line(text)
                        &&& final(self).one_set_aside()
                    } else if n > 0 {
                        &&& step == Ok::<Step, E>(Step::Read)
                        &&& final(self).is_reading()
                        &&& final(self).pending() == text
                    } else {
                        &&& step == Ok::<Step, E>(
                            if text.len() > 0 {
                                Step::Record
                            } else {
                                Step::End
                            },
                        )
                        &&& !final(self).is_reading()
                        &&& final(self)@ == model::fields(text)
                        &&& final(self).pending() == Seq::<u8>::empty()
                        &&& final(self).one_set_aside()
                    }
                },
                ReadEvent::Interrupted => {
                    &&& step == Ok::<Step, E>(Step::Read)
                    &&& *final(self) == *old(self)
                },
                ReadEvent::Failed(e) => {
                    &&& step == Err::<Step, E>(e)
                    &&& !final(self).is_reading()
                    &&& final(self)@ == Seq::<Seq<u8>>::empty()
                    &&& final(self).pending() == old(self).pending()
                    &&& final(self).spare() == old(self).spare()
                },
            },
    {
        let ghost text = self.buffer@;
        assert(text.skip(0) =~= text);
        assert(text.take(text.len() as int) =~= text);
        proof {
            self.lemma_reading();
        }
        match self.buffer.fill(event) {
            Ok(Some(n)) => {
                if n == 0 {
                    assert(self.buffer@ =~= text);
                    let any_data = self.scan.any_data;
                    if self.scan.any_data {
                        let span = Span::Contiguous {
                            offset: self.scan.field_start,
                            len: self.scan.scan_pos - self.scan.field_start,
                        };
                        proof {
                            scan::lemma_last_field(
                                text,
                                self.scan.field_start as int,
                                self.spans@,
                                span,
                            );
                        }
                        self.spans.push(span);
                    }
                    self.finish(self.scan.scan_pos);
                    assert(!any_data ==> self@ =~= Seq::empty());
                    return Ok(
                        if any_data {
                            Step::Record
                        } else {
                            Step::End
                        },
                    );
                }
                self.scan.any_data = true;
                assert(self.buffer@.take(self.scan.scan_pos as int) =~= text);
                assert(self.buffer@.len() > 0);
                if self.scan_buffered() {
                    Ok(Step::Record)
                } else {
                    Ok(Step::Read)
                }
            },
            Ok(None) => Ok(Step::Read),
            Err(e) => {
                self.spans.clear();
                self.split_buffer.clear();
                self.reading = false;
                Err(e)
            },
        }
    }

    /// Whether the reserved space is at least a chunk or can be grown by one.
    pub(crate) fn can_reserve(&self) -> (room: bool)
        requires
            self.wf(),
            self.is_reading(),
        ensures
            room == self.has_room(),
            room <==> self.spare().len() >= self.chunk_size() || self.pending().len() + self.spare().len()
                + self.chunk_size() <= isize::MAX,
    {
        self.buffer.can_reserve()
    }

    /// How many bytes are reserved for input.
    pub(crate) fn spare_len(&self) -> (len: usize)
        requires
            self.wf(),
        ensures
            len == self.spare().len(),
    {
        self.buffer.spare_len()
    }

    /// Space for the next read: the part of the reserved space that is in one
    /// piece with the end of the data.
    pub(crate) fn spare_capacity_mut(&mut self) -> (space: &mut [u8])
        requires
            old(self).wf(),
            old(self).is_reading(),
            old(self).has_room(),
        ensures
            space@.len() <= old(self).reserved().len(),
            space@ == old(self).reserved().take(space@.len() as int),
            space@.len() == if old(self).pending().len() < final(self).wrap() {
                final(self).wrap() - old(self).pending().len()
            } else {
                old(self).reserved().len() as int
            },
            final(space)@.len() == space@.len(),
            final(self).wf(),
            final(self).is_reading(),
            final(self).pending() == old(self).pending(),
            final(self).spare() == final(space)@ + old(self).reserved().skip(space@.len() as int),
            final(self).chunk_size() == old(self).chunk_size(),
            old(self).spare().len() >= old(self).chunk_size() ==> final(self).wrap()
                == old(self).wrap(),
    {
        self.buffer.reserve();
        self.buffer.spare_capacity_mut()
    }
}

} // verus!
