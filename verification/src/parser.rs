//! The reader of records, as a machine that asks for input.
use crate::model;
use crate::record::{Record, Step};
use crate::ring::ReadEvent;
use vstd::prelude::*;

verus! {

/// The least space reserved for a read, unless another is chosen.
pub const DEFAULT_CHUNK_SIZE: usize = 1024 * 8;

/// Reads the records of a source of bytes, one after the other.
///
/// The parser does no input of its own. [`Parser::read_record`] says how far the
/// input at hand gets it. While the answer is [`Step::Read`], its owner reads
/// into the space that [`Parser::read_request`] hands out, once, and reports how
/// that ended to [`Parser::resume`], which answers in the same way.
pub struct Parser<R> {
    reader: R,
    record: Record,
}

impl<R> Parser<R> {
    /// The parser's validity.
    pub closed spec fn wf(&self) -> bool {
        self.record.wf()
    }

    /// The source that the input is read from.
    pub closed spec fn source(&self) -> R {
        self.reader
    }

    /// Whether the next record has been begun and waits for input.
    pub closed spec fn is_reading(&self) -> bool {
        self.record.is_reading()
    }

    /// The fields of the record read last.
    pub closed spec fn fields(&self) -> Seq<Seq<u8>> {
        self.record@
    }

    /// The input that no record so far has used up.
    pub closed spec fn pending(&self) -> Seq<u8> {
        self.record.pending()
    }

    /// What the space reserved for input holds.
    pub closed spec fn spare(&self) -> Seq<u8> {
        self.record.spare()
    }

    /// The least space that is reserved for a read.
    pub closed spec fn chunk_size(&self) -> nat {
        self.record.chunk_size()
    }

    /// The logical offset at which the buffer's storage wraps.
    pub closed spec fn wrap(&self) -> nat {
        self.record.wrap()
    }

    /// What the space reserved for input holds once it is at least a chunk: where
    /// it is less, a chunk of zeros is added.
    pub open spec fn reserved(&self) -> Seq<u8> {
        if self.spare().len() < self.chunk_size() {
            self.spare() + Seq::new(self.chunk_size(), |i: int| 0u8)
        } else {
            self.spare()
        }
    }

    /// Whether the reserved space is at least a chunk or can be grown by one: no
    /// allocation holds more than `isize::MAX` bytes.
    pub open spec fn has_room(&self) -> bool {
        self.spare().len() < self.chunk_size() ==> self.pending().len() + self.spare().len()
            + self.chunk_size() <= isize::MAX
    }

    /// What beginning a record comes to: where the input at hand holds a line, the
    /// record is the line's fields and the line is used up; where not, the input
    /// is kept and more is needed.
    pub open spec fn begins(before: Self, after: Self, step: Step) -> bool {
        &&& after.chunk_size() == before.chunk_size()
        &&& after.spare() == before.spare()
        &&& if model::has_line(before.pending()) {
            &&& step == Step::Record
            &&& !after.is_reading()
            &&& after.fields() == model::fields(model::line(before.pending()))
            &&& after.pending() == model::after_line(before.pending())
        } else {
            &&& step == Step::Read
            &&& after.is_reading()
            &&& after.pending() == before.pending()
        }
    }

    /// What a request for space comes to, once `written` stands in that space: it
    /// is the front of the reserved space, up to where the storage wraps.
    pub open spec fn requests(before: Self, written: Seq<u8>, after: Self) -> bool {
        &&& written.len() <= before.reserved().len()
        &&& written.len() == if before.pending().len() < after.wrap() {
            after.wrap() - before.pending().len()
        } else {
            before.reserved().len() as int
        }
        &&& after.is_reading()
        &&& after.pending() == before.pending()
        &&& after.spare() == written + before.reserved().skip(written.len() as int)
        &&& after.chunk_size() == before.chunk_size()
        &&& before.spare().len() >= before.chunk_size() ==> after.wrap() == before.wrap()
    }

    /// What going on with a record comes to, by how the read ended. Where the
    /// storage wraps stays as it is.
    pub open spec fn resumes<E>(
        before: Self,
        event: ReadEvent<E>,
        after: Self,
        step: Result<Step, E>,
    ) -> bool {
        &&& after.chunk_size() == before.chunk_size()
        &&& after.wrap() == before.wrap()
        &&& match event {
            ReadEvent::Read(n) => {
                let text = before.pending() + before.spare().take(n as int);
                &&& after.spare() == before.spare().skip(n as int)
                &&& if model::has_line(text) {
                    &&& step == Ok::<Step, E>(Step::Record)
                    &&& !after.is_reading()
                    &&& after.fields() == model::fields(model::line(text))
                    &&& after.pending() == model::after_line(text)
                } else if n > 0 {
                    &&& step == Ok::<Step, E>(Step::Read)
                    &&& after.is_reading()
                    &&& after.pending() == text
                } else if text.len() > 0 {
                    &&& step == Ok::<Step, E>(Step::Record)
                    &&& !after.is_reading()
                    &&& after.fields() == model::fields(text)
                    &&& after.pending() == Seq::<u8>::empty()
                } else {
                    &&& step == Ok::<Step, E>(Step::End)
                    &&& !after.is_reading()
                    &&& after.fields() == Seq::<Seq<u8>>::empty()
                    &&& after.pending() == Seq::<u8>::empty()
                }
            },
            ReadEvent::Interrupted => {
                &&& step == Ok::<Step, E>(Step::Read)
                &&& after == before
            },
            ReadEvent::Failed(e) => {
                &&& step == Err::<Step, E>(e)
                &&& !after.is_reading()
                &&& after.fields() == Seq::<Seq<u8>>::empty()
                &&& after.pending() == before.pending()
                &&& after.spare() == before.spare()
            },
        }
    }

    /// A parser that waits for input has used all that holds a line.
    pub proof fn lemma_reading(&self)
        requires
            self.wf(),
            self.is_reading(),
        ensures
            !model::has_line(self.pending()),
    {
        self.record.lemma_reading();
    }

    /// A parser that has read nothing yet from `reader`.
    pub fn new(reader: R) -> (parser: Self)
        ensures
            parser.wf(),
            !parser.is_reading(),
            parser.source() == reader,
            parser.fields() == Seq::<Seq<u8>>::empty(),
            parser.pending() == Seq::<u8>::empty(),
            parser.spare() == Seq::<u8>::empty(),
            parser.chunk_size() == DEFAULT_CHUNK_SIZE,
            parser.chunk_size() == 8192,
    {
        Self::with_chunk_size(reader, DEFAULT_CHUNK_SIZE)
    }

    /// A parser that has read nothing yet from `reader` and will reserve space by
    /// `chunk_size` bytes.
    pub fn with_chunk_size(reader: R, chunk_size: usize) -> (parser: Self)
        ensures
            parser.wf(),
            !parser.is_reading(),
            parser.source() == reader,
            parser.fields() == Seq::<Seq<u8>>::empty(),
            parser.pending() == Seq::<u8>::empty(),
            parser.spare() == Seq::<u8>::empty(),
            parser.chunk_size() == chunk_size,
    {
        Parser { reader, record: Record::new(chunk_size) }
    }

    /// Begins the next record with the input at hand. Where that holds a line, the
    /// record is the line's fields, none if it is empty; where not, input is needed.
    ///
    /// The record read before is gone then: its fields were slices of a buffer
    /// that is reused.
    pub fn read_record(&mut self) -> (step: Step)
        requires
            old(self).wf(),
        ensures
            final(self).wf(),
            final(self).source() == old(self).source(),
            Self::begins(*old(self), *final(self), step),
            step == Step::Read || step == Step::Record,
            final(self).is_reading() <==> step == Step::Read,
            final(self).is_reading() <==> !old(self).pending().contains(model::NEWLINE),
            final(self).chunk_size() == old(self).chunk_size(),
    {
        proof {
            model::lemma_has_line(self.pending());
        }
        self.record.parse()
    }

    /// Whether [`Parser::read_request`] can reserve the space that it needs.
    pub fn can_read(&self) -> (room: bool)
        requires
            self.wf(),
            self.is_reading(),
        ensures
            room == self.has_room(),
            room <==> self.spare().len() >= self.chunk_size() || self.pending().len()
                + self.spare().len() + self.chunk_size() <= isize::MAX,
    {
        self.record.can_reserve()
    }

    /// The source, and space to read from it into: the part of the reserved space
    /// that is in one piece with the end of the data.
    pub fn read_request(&mut self) -> (request: (&mut R, &mut [u8]))
        requires
            old(self).wf(),
            old(self).is_reading(),
            old(self).has_room(),
        ensures
            *request.0 == old(self).source(),
            request.1@ == old(self).reserved().take(request.1@.len() as int),
            final(request.1)@.len() == request.1@.len(),
            final(self).wf(),
            final(self).source() == *final(request.0),
            Self::requests(*old(self), final(request.1)@, *final(self)),
            old(self).chunk_size() > 0 ==> request.1@.len() > 0,
            request.1@.len() <= final(self).spare().len(),
            final(self).spare().take(request.1@.len() as int) == final(request.1)@,
            final(self).is_reading(),
            final(self).pending() == old(self).pending(),
            final(self).chunk_size() == old(self).chunk_size(),
    {
        (&mut self.reader, self.record.spare_capacity_mut())
    }

    /// How many bytes are reserved for input.
    pub fn spare_len(&self) -> (len: usize)
        requires
            self.wf(),
        ensures
            len == self.spare().len(),
    {
        self.record.spare_len()
    }

    /// Goes on with the next record once a read has ended.
    ///
    /// What was read is added to the input at hand. A read of no bytes is the end
    /// of the input, which ends the last record where there is anything left. An
    /// interrupted read is to be made again. After one that failed the input at
    /// hand is kept, and `read_record` begins the record again.
    pub fn resume<E>(&mut self, event: ReadEvent<E>) -> (step: Result<Step, E>)
        requires
            old(self).wf(),
            old(self).is_reading(),
            event matches ReadEvent::Read(n) ==> n <= old(self).spare().len(),
        ensures
            final(self).wf(),
            final(self).source() == old(self).source(),
            Self::resumes(*old(self), event, *final(self), step),
            final(self).is_reading() <==> step == Ok::<Step, E>(Step::Read),
            step is Err <==> event is Failed,
            final(self).chunk_size() == old(self).chunk_size(),
    {
        self.record.resume(event)
    }

    /// The record read last.
    pub fn record(&self) -> (record: &Record)
        requires
            self.wf(),
            !self.is_reading(),
        ensures
            record.wf(),
            !record.is_reading(),
            record.one_set_aside(),
            record@ == self.fields(),
            record.wrap() == self.wrap(),
            record.pending() == self.pending(),
            record.spare() == self.spare(),
            record.chunk_size() == self.chunk_size(),
    {
        proof {
            self.record.lemma_finished();
        }
        &self.record
    }
}

} // verus!
