//! The ring buffer that input is read into.
use crate::deque::{as_mut_slices, as_slices, drain_front};
use std::collections::VecDeque;
use std::ops::Range;
use vstd::prelude::*;

verus! {

/// A reused byte buffer: real data in front, reserved space for the next read
/// behind it.
pub struct RingBuffer {
    data: VecDeque<u8>,
    /// `[0, written)` is real data; `[written, data.len())` is reserved space,
    /// already pushed so it can be read into directly, but not yet meaningful.
    written: usize,
    chunk_size: usize,
}

/// How a read into a buffer's reserved space ended.
pub enum ReadEvent<E> {
    /// So many bytes were read; none means the end of the input.
    Read(usize),
    /// The read was interrupted and is to be tried again.
    Interrupted,
    /// The read failed for good.
    Failed(E),
}

impl View for RingBuffer {
    type V = Seq<u8>;

    /// The real data.
    closed spec fn view(&self) -> Seq<u8> {
        self.data@.take(self.written as int)
    }
}

impl RingBuffer {
    /// The real data lies within what the deque holds.
    pub closed spec fn wf(&self) -> bool {
        self.written <= self.data@.len()
    }

    /// What the reserved space holds.
    pub closed spec fn spare(&self) -> Seq<u8> {
        self.data@.skip(self.written as int)
    }

    /// The least space that is reserved for a read.
    pub closed spec fn chunk_size(&self) -> nat {
        self.chunk_size as nat
    }

    /// The logical offset at which the storage wraps.
    pub closed spec fn wrap(&self) -> nat {
        crate::deque::first_piece_len(self.data)
    }

    /// Whether the reserved space is at least a chunk or can be grown by one: no
    /// allocation holds more than `isize::MAX` bytes.
    pub open spec fn has_room(&self) -> bool {
        self.spare().len() < self.chunk_size() ==> self@.len() + self.spare().len()
            + self.chunk_size() <= isize::MAX
    }

    /// No buffer holds more than the machine can count.
    pub proof fn lemma_len(&self)
        requires
            self.wf(),
        ensures
            self@.len() + self.spare().len() <= usize::MAX,
    {
        assert(self.data.len() == self.data@.len());
    }

    /// A buffer that holds nothing and will grow by `chunk_size` bytes.
    pub fn new(chunk_size: usize) -> (buffer: Self)
        ensures
            buffer.wf(),
            buffer@ == Seq::<u8>::empty(),
            buffer.spare() == Seq::<u8>::empty(),
            buffer.chunk_size() == chunk_size,
    {
        RingBuffer { data: VecDeque::new(), written: 0, chunk_size }
    }

    /// Clamps `[from, to)` into two ranges, one for each of two physical pieces
    /// of which the first has `len0` bytes: each end lands in whichever piece it
    /// falls in, and a range collapses to an empty one once it lies outside its
    /// piece.
    pub fn split_ranges(len0: usize, from: usize, to: usize) -> (ranges: (Range<usize>, Range<usize>))
        ensures
            ranges.0.start == if from < len0 { from } else { len0 },
            ranges.0.end == if to < len0 { to } else { len0 },
            ranges.1.start == if from < len0 { 0 } else { from - len0 },
            ranges.1.end == if to < len0 { 0 } else { to - len0 },
    {
        (from.min(len0)..to.min(len0), from.saturating_sub(len0)..to.saturating_sub(len0))
    }

    /// The bytes `[from, to)` of the two pieces in a row, as one part of each.
    pub fn physical_range<'a>(s0: &'a [u8], s1: &'a [u8], from: usize, to: usize) -> (parts: (
        &'a [u8],
        &'a [u8],
    ))
        requires
            from <= to <= s0@.len() + s1@.len(),
        ensures
            parts.0@ + parts.1@ == (s0@ + s1@).subrange(from as int, to as int),
            parts.0@.len() == if to <= s0@.len() {
                to - from
            } else if from < s0@.len() {
                s0@.len() - from
            } else {
                0
            },
    {
        let (r0, r1) = Self::split_ranges(s0.len(), from, to);
        (&s0[r0], &s1[r1])
    }

    /// Bytes before this logical offset lie in the first physical piece, the
    /// others in the second.
    pub fn wrap_point(&self) -> (point: usize)
        ensures
            point == self.wrap(),
            self.wf() ==> point <= self@.len() + self.spare().len(),
    {
        as_slices(&self.data).0.len()
    }

    /// The bytes at or after logical offset `from`, as at most two parts.
    pub fn readable_from(&self, from: usize) -> (parts: (&[u8], &[u8]))
        requires
            self.wf(),
            from <= self@.len(),
        ensures
            parts.0@ + parts.1@ == self@.skip(from as int),
            parts.0@.len() == if self@.len() <= self.wrap() {
                self@.len() - from
            } else if from < self.wrap() {
                self.wrap() - from
            } else {
                0
            },
    {
        let (s0, s1) = as_slices(&self.data);
        Self::physical_range(s0, s1, from, self.written)
    }

    /// A field's bytes, in two parts where it straddles the wrap.
    pub fn field_at(&self, offset: usize, len: usize) -> (parts: (&[u8], &[u8]))
        requires
            self.wf(),
            offset + len <= self@.len() + self.spare().len(),
        ensures
            parts.0@ + parts.1@ == (self@ + self.spare()).subrange(offset as int, offset + len),
            parts.0@.len() == if offset + len <= self.wrap() {
                len as int
            } else if offset < self.wrap() {
                self.wrap() - offset
            } else {
                0
            },
    {
        assert(self@ + self.spare() =~= self.data@);
        assert(self.data.len() == self.data@.len());
        let (s0, s1) = as_slices(&self.data);
        Self::physical_range(s0, s1, offset, offset + len)
    }

    /// The next physically contiguous part of the reserved space.
    pub fn spare_capacity_mut(&mut self) -> (space: &mut [u8])
        requires
            old(self).wf(),
        ensures
            space@.len() <= old(self).spare().len(),
            space@ == old(self).spare().take(space@.len() as int),
            space@.len() == if old(self)@.len() < old(self).wrap() {
                old(self).wrap() - old(self)@.len()
            } else {
                old(self).spare().len() as int
            },
            final(space)@.len() == space@.len(),
            final(self).wf(),
            final(self)@ == old(self)@,
            final(self).spare() == final(space)@ + old(self).spare().skip(space@.len() as int),
            final(self).chunk_size() == old(self).chunk_size(),
            final(self).wrap() == old(self).wrap(),
    {
        let written = self.written;
        let len = self.data.len();
        let (s0, s1) = as_mut_slices(&mut self.data);
        let (r0, r1) = Self::split_ranges(s0.len(), written, len);
        if r0.start >= r0.end {
            s1.split_at_mut(r1.start).1
        } else {
            s0.split_at_mut(r0.start).1
        }
    }

    /// How many bytes are reserved.
    pub fn spare_len(&self) -> (len: usize)
        requires
            self.wf(),
        ensures
            len == self.spare().len(),
    {
        self.data.len() - self.written
    }

    /// Whether the reserved space is at least a chunk or can be grown by one.
    pub fn can_reserve(&self) -> (room: bool)
        requires
            self.wf(),
        ensures
            room == self.has_room(),
            room <==> self.spare().len() >= self.chunk_size() || self@.len() + self.spare().len()
                + self.chunk_size() <= isize::MAX,
    {
        let len = self.data.len();
        let limit: usize = isize::MAX as usize;
        len - self.written >= self.chunk_size || (len <= limit && self.chunk_size <= limit - len)
    }

    /// Grows the reserved space by a chunk of zeros where it is less than a
    /// chunk.
    pub fn reserve(&mut self)
        requires
            old(self).wf(),
            old(self).has_room(),
        ensures
            final(self).wf(),
            final(self)@ == old(self)@,
            final(self).spare() == if old(self).spare().len() < old(self).chunk_size() {
                old(self).spare() + Seq::new(old(self).chunk_size(), |i: int| 0u8)
            } else {
                old(self).spare()
            },
            final(self).chunk_size() == old(self).chunk_size(),
            old(self).spare().len() >= old(self).chunk_size() ==> *final(self) == *old(self),
    {
        if self.data.len() - self.written < self.chunk_size {
            let new_len = self.data.len() + self.chunk_size;
            self.data.resize(new_len, 0);
        }
    }

    /// Takes in what a read into the reserved space came to: the bytes read
    /// become real data. Returns how many those are (none at the end of the
    /// input), `None` where the read is to be tried again, or its error.
    pub fn fill<E>(&mut self, event: ReadEvent<E>) -> (filled: Result<Option<usize>, E>)
        requires
            old(self).wf(),
            event matches ReadEvent::Read(n) ==> n <= old(self).spare().len(),
        ensures
            final(self).wf(),
            final(self).chunk_size() == old(self).chunk_size(),
            final(self).wrap() == old(self).wrap(),
            match event {
                ReadEvent::Read(n) => {
                    &&& filled == Ok::<Option<usize>, E>(Some(n))
                    &&& final(self)@ == old(self)@ + old(self).spare().take(n as int)
                    &&& final(self).spare() == old(self).spare().skip(n as int)
                },
                ReadEvent::Interrupted => {
                    &&& filled == Ok::<Option<usize>, E>(None)
                    &&& *final(self) == *old(self)
                },
                ReadEvent::Failed(e) => {
                    &&& filled == Err::<Option<usize>, E>(e)
                    &&& *final(self) == *old(self)
                },
            },
    {
        match event {
            ReadEvent::Read(n) => {
                assert(self.data.len() == self.data@.len());
                self.written += n;
                Ok(Some(n))
            },
            ReadEvent::Interrupted => Ok(None),
            ReadEvent::Failed(e) => Err(e),
        }
    }

    /// Reclaims the space of the first `n` bytes of data.
    pub fn advance_front(&mut self, n: usize)
        requires
            old(self).wf(),
            n <= old(self)@.len(),
        ensures
            final(self).wf(),
            final(self)@ == old(self)@.skip(n as int),
            final(self).spare() == old(self).spare(),
            final(self).chunk_size() == old(self).chunk_size(),
    {
        drain_front(&mut self.data, n);
        self.written -= n;
    }

    /// Whether there is any data.
    pub fn has_data(&self) -> (some: bool)
        requires
            self.wf(),
        ensures
            some == (self@.len() > 0),
    {
        self.written > 0
    }
}

} // verus!
