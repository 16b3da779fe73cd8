use csv_parser::{ReadEvent, RingBuffer};

/// Reads all of `bytes` into the buffer.
fn put(buffer: &mut RingBuffer, mut bytes: &[u8]) {
    while !bytes.is_empty() {
        assert!(buffer.can_reserve());
        buffer.reserve();
        let space = buffer.spare_capacity_mut();
        let n = space.len().min(bytes.len());
        space[..n].copy_from_slice(&bytes[..n]);
        bytes = &bytes[n..];
        let filled: Result<Option<usize>, ()> = buffer.fill(ReadEvent::Read(n));
        assert_eq!(filled, Ok(Some(n)));
    }
}

fn contents(buffer: &RingBuffer, from: usize) -> Vec<u8> {
    let (a, b) = buffer.readable_from(from);
    let mut all = a.to_vec();
    all.extend_from_slice(b);
    all
}

#[test]
fn ranges_are_clamped_to_their_piece() {
    assert_eq!(RingBuffer::split_ranges(5, 1, 3), (1..3, 0..0));
    assert_eq!(RingBuffer::split_ranges(5, 3, 8), (3..5, 0..3));
    assert_eq!(RingBuffer::split_ranges(5, 6, 9), (5..5, 1..4));
    assert_eq!(RingBuffer::split_ranges(5, 5, 5), (5..5, 0..0));
    assert_eq!(RingBuffer::split_ranges(0, 0, 2), (0..0, 0..2));
}

#[test]
fn a_new_buffer_is_empty() {
    let buffer = RingBuffer::new(4);
    assert!(!buffer.has_data());
    assert_eq!(buffer.spare_len(), 0);
    assert_eq!(buffer.wrap_point(), 0);
    assert_eq!(contents(&buffer, 0), Vec::<u8>::new());
}

#[test]
fn space_grows_by_a_chunk_where_there_is_less() {
    let mut buffer = RingBuffer::new(4);
    buffer.reserve();
    assert_eq!(buffer.spare_len(), 4);
    buffer.reserve();
    assert_eq!(buffer.spare_len(), 4);
    put(&mut buffer, b"a");
    assert_eq!(buffer.spare_len(), 3);
    buffer.reserve();
    assert_eq!(buffer.spare_len(), 7);
}

#[test]
fn a_chunk_too_large_for_the_machine_has_no_room() {
    let buffer = RingBuffer::new(usize::MAX);
    assert!(!buffer.can_reserve());
    let buffer = RingBuffer::new(0);
    assert!(buffer.can_reserve());
}

#[test]
fn only_a_read_changes_the_data() {
    let mut buffer = RingBuffer::new(4);
    put(&mut buffer, b"abc");
    let again: Result<Option<usize>, u8> = buffer.fill(ReadEvent::Interrupted);
    assert_eq!(again, Ok(None));
    let failed: Result<Option<usize>, u8> = buffer.fill(ReadEvent::Failed(3));
    assert_eq!(failed, Err(3));
    assert_eq!(contents(&buffer, 0), b"abc");
    assert!(buffer.has_data());
}

#[test]
fn the_front_is_reclaimed() {
    let mut buffer = RingBuffer::new(4);
    put(&mut buffer, b"abcdef");
    let spare = buffer.spare_len();
    buffer.advance_front(4);
    assert_eq!(contents(&buffer, 0), b"ef");
    assert_eq!(contents(&buffer, 1), b"f");
    assert_eq!(buffer.spare_len(), spare);
}

#[test]
fn fields_are_in_order_while_the_ring_turns() {
    let mut buffer = RingBuffer::new(8);
    let mut expected: Vec<u8> = Vec::new();
    let mut wrapped = false;
    for round in 0..60u8 {
        let bytes = [round, round + 60, round + 120, round + 180, 7, 9];
        put(&mut buffer, &bytes);
        expected.extend_from_slice(&bytes);
        if expected.len() > 12 {
            buffer.advance_front(5);
            expected.drain(..5);
        }
        for from in 0..expected.len() {
            for to in from..=expected.len() {
                let (a, b) = buffer.field_at(from, to - from);
                wrapped |= !a.is_empty() && !b.is_empty();
                let wrap = buffer.wrap_point();
                let in_first = to.min(wrap).saturating_sub(from);
                assert_eq!(a.len(), in_first);
                let mut got = a.to_vec();
                got.extend_from_slice(b);
                assert_eq!(got, expected[from..to]);
            }
        }
        if expected.len() > 40 {
            buffer.advance_front(30);
            expected.drain(..30);
        }
    }
    assert!(wrapped, "the ring never wrapped");
}
