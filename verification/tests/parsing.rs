use csv_parser::{Parser, ReadEvent, Record, RingBuffer, Step};
use std::collections::VecDeque;
use std::io::{self, Cursor, Read};

/// Reads the next record, making the reads that the parser asks for.
fn read_record<R: Read>(parser: &mut Parser<R>) -> io::Result<Option<&Record>> {
    let mut step = parser.read_record();
    while step == Step::Read {
        assert!(parser.can_read());
        let (reader, space) = parser.read_request();
        let event = match reader.read(space) {
            Ok(n) => ReadEvent::Read(n),
            Err(e) if e.kind() == io::ErrorKind::Interrupted => ReadEvent::Interrupted,
            Err(e) => ReadEvent::Failed(e),
        };
        step = parser.resume(event)?;
    }
    if step == Step::Record {
        Ok(Some(parser.record()))
    } else {
        Ok(None)
    }
}

fn fields(record: &Record) -> Vec<Vec<u8>> {
    let mut all = Vec::new();
    for i in 0..record.len() {
        all.push(record.get_at(i).unwrap().to_vec());
    }
    all
}

/// All records of a source, with the given chunk size.
fn all_records<R: Read>(reader: R, chunk_size: usize) -> Vec<Vec<Vec<u8>>> {
    let mut parser = Parser::with_chunk_size(reader, chunk_size);
    let mut all = Vec::new();
    while let Some(record) = read_record(&mut parser).unwrap() {
        all.push(fields(record));
    }
    all
}

fn rows(expected: &[&[&str]]) -> Vec<Vec<Vec<u8>>> {
    expected
        .iter()
        .map(|row| row.iter().map(|f| f.as_bytes().to_vec()).collect())
        .collect()
}

/// Hands out what it is given, one piece per read; `None` interrupts a read and
/// an empty piece fails it.
struct Pieces(VecDeque<Option<Vec<u8>>>);

impl Read for Pieces {
    fn read(&mut self, buf: &mut [u8]) -> io::Result<usize> {
        match self.0.pop_front() {
            None => Ok(0),
            Some(None) => Err(io::Error::new(io::ErrorKind::Interrupted, "again")),
            Some(Some(piece)) if piece.is_empty() => {
                Err(io::Error::new(io::ErrorKind::BrokenPipe, "broken"))
            }
            Some(Some(piece)) => {
                let n = piece.len().min(buf.len());
                buf[..n].copy_from_slice(&piece[..n]);
                if n < piece.len() {
                    self.0.push_front(Some(piece[n..].to_vec()));
                }
                Ok(n)
            }
        }
    }
}

#[test]
fn parses_multiple_records_and_terminates() {
    let data = b"a,b,c\n1,2,3\n4,5,6\n".to_vec();
    let mut parser = Parser::new(Cursor::new(data));

    let record = read_record(&mut parser).unwrap().expect("first record");
    assert_eq!(record.len(), 3);
    assert_eq!(record.get_at(0), Some(&b"a"[..]));
    assert_eq!(record.get_at(1), Some(&b"b"[..]));
    assert_eq!(record.get_at(2), Some(&b"c"[..]));

    let record = read_record(&mut parser).unwrap().expect("second record");
    assert_eq!(record.get_at(0), Some(&b"1"[..]));
    assert_eq!(record.get_at(1), Some(&b"2"[..]));
    assert_eq!(record.get_at(2), Some(&b"3"[..]));

    let record = read_record(&mut parser).unwrap().expect("third record");
    assert_eq!(record.get_at(0), Some(&b"4"[..]));
    assert_eq!(record.get_at(1), Some(&b"5"[..]));
    assert_eq!(record.get_at(2), Some(&b"6"[..]));

    assert!(read_record(&mut parser).unwrap().is_none());
}

#[test]
fn parses_final_record_without_trailing_newline() {
    let data = b"a,b\n1,2".to_vec();
    let mut parser = Parser::new(Cursor::new(data));

    let record = read_record(&mut parser).unwrap().expect("first record");
    assert_eq!(record.get_at(0), Some(&b"a"[..]));
    assert_eq!(record.get_at(1), Some(&b"b"[..]));

    let record = read_record(&mut parser).unwrap().expect("second record");
    assert_eq!(record.get_at(0), Some(&b"1"[..]));
    assert_eq!(record.get_at(1), Some(&b"2"[..]));

    assert!(read_record(&mut parser).unwrap().is_none());
}

#[test]
fn reuses_buffer_across_read_record_calls() {
    let data = b"a,b\n1,22\n333,4\n".to_vec();
    let mut parser = Parser::new(Cursor::new(data));

    let record = read_record(&mut parser).unwrap().expect("first record");
    assert_eq!(record.get_at(0), Some(&b"a"[..]));
    assert_eq!(record.get_at(1), Some(&b"b"[..]));

    let record = read_record(&mut parser).unwrap().expect("second record");
    assert_eq!(record.get_at(0), Some(&b"1"[..]));
    assert_eq!(record.get_at(1), Some(&b"22"[..]));

    let record = read_record(&mut parser).unwrap().expect("third record");
    assert_eq!(record.get_at(0), Some(&b"333"[..]));
    assert_eq!(record.get_at(1), Some(&b"4"[..]));

    assert!(read_record(&mut parser).unwrap().is_none());
}

#[test]
fn preserves_field_spanning_multiple_buffer_refills() {
    let data = b"aaaaaaaaaaaa,b\n".to_vec();
    let mut parser = Parser::with_chunk_size(Cursor::new(data), 4);

    let record = read_record(&mut parser).unwrap().expect("record");
    assert_eq!(record.get_at(0), Some(&b"aaaaaaaaaaaa"[..]));
    assert_eq!(record.get_at(1), Some(&b"b"[..]));

    assert!(read_record(&mut parser).unwrap().is_none());
}

#[test]
fn physical_range_matches_logical_order_across_a_wrap() {
    let mut data: VecDeque<u8> = VecDeque::new();
    data.reserve_exact(8);
    let cap = data.capacity();
    for _ in 0..cap {
        data.push_back(0);
    }
    data.drain(..cap / 2);
    for &b in b"the-wrapped-payload" {
        data.push_back(b);
    }

    let (s0, _) = data.as_slices();
    assert!(
        s0.len() < data.len(),
        "test setup didn't produce a wrapped layout"
    );

    let logical: Vec<u8> = data.iter().copied().collect();
    for from in 0..=logical.len() {
        for to in from..=logical.len() {
            let (s0, s1) = data.as_slices();
            let (a, b) = RingBuffer::physical_range(s0, s1, from, to);
            let mut got = a.to_vec();
            got.extend_from_slice(b);
            assert_eq!(got, logical[from..to], "range [{from}, {to})");
        }
    }
}

#[test]
fn splits_fields_across_the_ring_wrap_under_sustained_load() {
    let mut data = Vec::new();
    let mut expected: Vec<Vec<Vec<u8>>> = Vec::new();
    for row in 0..40 {
        let mut fields = Vec::new();
        for col in 0..3 {
            let field = format!("r{row}c{col}-{}", "x".repeat(col + row % 5));
            data.extend_from_slice(field.as_bytes());
            data.push(if col == 2 { b'\n' } else { b',' });
            fields.push(field.into_bytes());
        }
        expected.push(fields);
    }

    let mut parser = Parser::with_chunk_size(Cursor::new(data), 8);
    let mut saw_split = false;
    let mut saw_mixed = false;
    for row in expected {
        let record = read_record(&mut parser).unwrap().expect("record");
        assert_eq!(record.len(), row.len());
        for (i, field) in row.iter().enumerate() {
            assert_eq!(record.get_at(i), Some(field.as_slice()));
        }
        let (has_contiguous, has_split) = record.span_kinds();
        saw_split |= has_split;
        saw_mixed |= has_contiguous && has_split;
    }
    assert!(read_record(&mut parser).unwrap().is_none());
    assert!(saw_split, "test setup never exercised the Split-field path");
    assert!(
        saw_mixed,
        "test setup never exercised a record mixing Contiguous and Split fields"
    );
}

#[test]
fn empty_input_has_no_record() {
    let mut parser = Parser::new(Cursor::new(Vec::new()));
    assert!(read_record(&mut parser).unwrap().is_none());
    assert!(parser.record().is_empty());
    assert_eq!(parser.record().len(), 0);
    assert_eq!(parser.record().get_at(0), None);
    assert!(read_record(&mut parser).unwrap().is_none());
}

#[test]
fn an_empty_line_is_a_record_without_fields() {
    let mut parser = Parser::new(Cursor::new(b"\n".to_vec()));
    let record = read_record(&mut parser).unwrap().unwrap();
    assert!(record.is_empty());
    assert_eq!(record.len(), 0);
    assert_eq!(record.get_at(0), None);
    assert_eq!(record.span_kinds(), (false, false));
    assert!(read_record(&mut parser).unwrap().is_none());

    let got = all_records(Cursor::new(b"\n\na\n\n".to_vec()), 8);
    assert_eq!(got, rows(&[&[], &[], &["a"], &[]]));
    let got = all_records(Cursor::new(b"a\n\n,".to_vec()), 1);
    assert_eq!(got, rows(&[&["a"], &[], &["", ""]]));
}

#[test]
fn commas_at_the_edges_bound_empty_fields() {
    let got = all_records(Cursor::new(b",\n,a,,b,\n,".to_vec()), 8);
    assert_eq!(got, rows(&[&["", ""], &["", "a", "", "b", ""], &["", ""]]));
}

#[test]
fn other_bytes_are_kept_as_they_are() {
    let got = all_records(Cursor::new(b"\"a,b\"\r\n\xff\x00, c\n".to_vec()), 8);
    assert_eq!(got[0], vec![b"\"a".to_vec(), b"b\"\r".to_vec()]);
    assert_eq!(got[1], vec![b"\xff\x00".to_vec(), b" c".to_vec()]);
    assert_eq!(got.len(), 2);
}

#[test]
fn an_index_out_of_range_has_no_field() {
    let mut parser = Parser::new(Cursor::new(b"a,b\n".to_vec()));
    let record = read_record(&mut parser).unwrap().unwrap();
    assert!(!record.is_empty());
    assert_eq!(record.span_kinds(), (true, false));
    assert_eq!(record.get_at(1), Some(&b"b"[..]));
    assert_eq!(record.get_at(2), None);
    assert_eq!(record.get_at(usize::MAX), None);
}

#[test]
fn a_chunk_size_of_zero_reads_nothing() {
    assert_eq!(all_records(Cursor::new(b"a,b\n".to_vec()), 0), rows(&[]));
}

#[test]
fn a_record_longer_than_a_default_chunk_is_read() {
    let long = "y".repeat(20_000);
    let text = format!("{long},{long}\nz\n");
    let got = all_records(Cursor::new(text.into_bytes()), 1024 * 8);
    assert_eq!(got, rows(&[&[&long, &long], &["z"]]));
}

#[test]
fn the_input_can_be_cut_anywhere() {
    let text = b"one,two\n\n,three,\nfour,five";
    let expected = rows(&[&["one", "two"], &[], &["", "three", ""], &["four", "five"]]);
    for chunk_size in 1..40 {
        for cut in 1..text.len() {
            let pieces = text.chunks(cut).map(|c| Some(c.to_vec())).collect();
            assert_eq!(all_records(Pieces(pieces), chunk_size), expected);
        }
    }
}

#[test]
fn the_last_newline_is_optional() {
    let with = all_records(Cursor::new(b"a,b\nc,\n".to_vec()), 4);
    let without = all_records(Cursor::new(b"a,b\nc,".to_vec()), 4);
    assert_eq!(with, without);
    assert_eq!(with, rows(&[&["a", "b"], &["c", ""]]));
}

#[test]
fn written_records_are_read_back() {
    let records = rows(&[&["x", "", "yy"], &[], &["long field", "z"]]);
    let mut text = Vec::new();
    for record in &records {
        text.extend_from_slice(&record.join(&b','));
        text.push(b'\n');
    }
    assert_eq!(all_records(Cursor::new(text), 3), records);
}

#[test]
fn an_interrupted_read_is_made_again() {
    let pieces = vec![
        None,
        Some(b"a,".to_vec()),
        None,
        None,
        Some(b"b\nc".to_vec()),
        None,
    ];
    let got = all_records(Pieces(pieces.into()), 4);
    assert_eq!(got, rows(&[&["a", "b"], &["c"]]));
}

#[test]
fn a_failed_read_loses_nothing() {
    let pieces = vec![
        Some(b"a,b\nc,d".to_vec()),
        Some(Vec::new()),
        Some(Vec::new()),
        Some(b"e,\nf".to_vec()),
    ];
    let mut parser = Parser::new(Pieces(pieces.into()));
    let first = read_record(&mut parser).unwrap().unwrap();
    assert_eq!(fields(first), vec![b"a".to_vec(), b"b".to_vec()]);
    for _ in 0..2 {
        let error = read_record(&mut parser).err().unwrap();
        assert_eq!(error.kind(), io::ErrorKind::BrokenPipe);
        assert!(parser.record().is_empty());
    }
    let second = read_record(&mut parser).unwrap().unwrap();
    assert_eq!(
        fields(second),
        vec![b"c".to_vec(), b"de".to_vec(), b"".to_vec()]
    );
    let third = read_record(&mut parser).unwrap().unwrap();
    assert_eq!(fields(third), vec![b"f".to_vec()]);
    assert!(read_record(&mut parser).unwrap().is_none());
}

#[test]
fn each_retry_is_offered_the_same_space() {
    let mut parser = Parser::with_chunk_size((), 8);
    let mut lens = Vec::new();
    for round in 0..20 {
        assert_eq!(parser.read_record(), Step::Read);
        let len = parser.read_request().1.len();
        for _ in 0..3 {
            let answer: Result<Step, u8> = parser.resume(ReadEvent::Interrupted);
            assert_eq!(answer, Ok(Step::Read));
            assert_eq!(parser.read_request().1.len(), len);
        }
        let space = parser.read_request().1;
        let n = space.len().min(1 + round % 5);
        space[..n].fill(b'x');
        space[n - 1] = b'\n';
        let answer: Result<Step, u8> = parser.resume(ReadEvent::Read(n));
        assert_eq!(answer, Ok(Step::Record));
        assert_eq!(parser.record().is_empty(), n == 1);
        lens.push(len);
    }
    assert!(lens.iter().all(|&len| len > 0));
}

#[test]
fn at_most_one_field_is_put_together() {
    let lines: Vec<String> = (0..80)
        .map(|row| format!("{},{},,{}", "a".repeat(row % 7), "b".repeat(4 + row % 5), row))
        .collect();
    let text = lines.join("\n").into_bytes();
    let mut parser = Parser::with_chunk_size(Cursor::new(text), 8);
    let mut saw_split = false;
    for line in lines {
        let record = read_record(&mut parser).unwrap().unwrap();
        assert_eq!(fields(record).join(&b','), line.as_bytes());
        let (has_contiguous, has_split) = record.span_kinds();
        assert!(has_contiguous);
        saw_split |= has_split;
    }
    assert!(saw_split);
    assert!(read_record(&mut parser).unwrap().is_none());
}

#[test]
fn the_buffer_stays_small() {
    for chunk_size in 1..30 {
        let text = "abc,defg\nh\n\n".repeat(100).into_bytes();
        let mut parser = Parser::with_chunk_size(Cursor::new(text), chunk_size);
        let mut count = 0;
        while read_record(&mut parser).unwrap().is_some() {
            assert!(parser.spare_len() < 2 * chunk_size);
            count += 1;
        }
        assert!(parser.spare_len() < 2 * chunk_size);
        assert_eq!(count, 300);
    }
}

#[test]
fn the_end_stays_the_end() {
    let mut parser = Parser::new(Cursor::new(b"a".to_vec()));
    assert_eq!(
        fields(read_record(&mut parser).unwrap().unwrap()),
        vec![b"a".to_vec()]
    );
    for _ in 0..3 {
        assert!(read_record(&mut parser).unwrap().is_none());
    }
}

#[test]
fn the_machine_answers_step_by_step() {
    let mut parser = Parser::with_chunk_size((), 4);
    assert_eq!(parser.read_record(), Step::Read);
    let (_, space) = parser.read_request();
    assert_eq!(space.len(), 4);
    assert_eq!(space.to_vec(), vec![0, 0, 0, 0]);
    space.copy_from_slice(b"a\nb,");
    assert_eq!(parser.spare_len(), 4);
    let answer: Result<Step, ()> = parser.resume(ReadEvent::Read(4));
    assert_eq!(answer, Ok(Step::Record));
    assert_eq!(fields(parser.record()), vec![b"a".to_vec()]);

    assert_eq!(parser.read_record(), Step::Read);
    let answer: Result<Step, u8> = parser.resume(ReadEvent::Interrupted);
    assert_eq!(answer, Ok(Step::Read));
    let answer: Result<Step, u8> = parser.resume(ReadEvent::Failed(7));
    assert_eq!(answer, Err(7));
    assert_eq!(parser.read_record(), Step::Read);
    let answer: Result<Step, u8> = parser.resume(ReadEvent::Read(0));
    assert_eq!(answer, Ok(Step::Record));
    assert_eq!(fields(parser.record()), vec![b"b".to_vec(), b"".to_vec()]);
    assert_eq!(parser.read_record(), Step::Read);
    let answer: Result<Step, u8> = parser.resume(ReadEvent::Read(0));
    assert_eq!(answer, Ok(Step::End));
}
