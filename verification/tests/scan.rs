use csv_parser::scan::{scan_segment, ScanOutcome, Span};

fn span(offset: usize, len: usize) -> Span {
    Span::Contiguous { offset, len }
}

#[test]
fn a_newline_completes_the_record() {
    let mut spans = Vec::new();
    let mut field_start = 7;
    let outcome = scan_segment(&mut spans, &mut field_start, 10, b"ab,c\nd,e");
    assert_eq!(outcome, ScanOutcome::RecordComplete(15));
    assert_eq!(spans, vec![span(7, 5), span(13, 1)]);
    assert_eq!(field_start, 15);
}

#[test]
fn text_without_a_newline_needs_more() {
    let mut spans = vec![span(0, 2)];
    let mut field_start = 3;
    let outcome = scan_segment(&mut spans, &mut field_start, 5, b",x,yz");
    assert_eq!(outcome, ScanOutcome::NeedMoreData(10));
    assert_eq!(spans, vec![span(0, 2), span(3, 2), span(6, 1)]);
    assert_eq!(field_start, 8);
}

#[test]
fn text_without_a_separator_changes_nothing() {
    let mut spans = vec![span(4, 0)];
    let mut field_start = 2;
    let outcome = scan_segment(&mut spans, &mut field_start, 9, b"plain");
    assert_eq!(outcome, ScanOutcome::NeedMoreData(14));
    assert_eq!(spans, vec![span(4, 0)]);
    assert_eq!(field_start, 2);
    let outcome = scan_segment(&mut spans, &mut field_start, 14, b"");
    assert_eq!(outcome, ScanOutcome::NeedMoreData(14));
    assert_eq!(field_start, 2);
}

#[test]
fn a_haystack_can_be_cut_anywhere() {
    let hay = b"a,bc,,def\ng,h";
    let mut whole = Vec::new();
    let mut whole_start = 1;
    let expected = scan_segment(&mut whole, &mut whole_start, 3, hay);
    assert_eq!(expected, ScanOutcome::RecordComplete(13));
    for cut in 0..=9 {
        let mut spans = Vec::new();
        let mut field_start = 1;
        let first = scan_segment(&mut spans, &mut field_start, 3, &hay[..cut]);
        assert_eq!(first, ScanOutcome::NeedMoreData(3 + cut));
        let second = scan_segment(&mut spans, &mut field_start, 3 + cut, &hay[cut..]);
        assert_eq!(second, expected);
        assert_eq!(spans, whole);
        assert_eq!(field_start, whole_start);
    }
}
