use docsync::source::{ByteRange, LineColumn, Source, Span};

fn at(line: usize, column: usize) -> LineColumn {
    LineColumn { line, column }
}

#[test]
fn a_position_is_the_start_of_its_line_plus_its_column() {
    let source = Source::new(b"fn a() {}\n    fn b() {}\n");
    assert_eq!(source.position(at(1, 0)), Some(0));
    assert_eq!(source.position(at(1, 3)), Some(3));
    assert_eq!(source.position(at(2, 0)), Some(10));
    assert_eq!(source.position(at(2, 4)), Some(14));
}

#[test]
fn a_column_counts_characters_and_not_bytes() {
    let text = "é = 1;\nlet ü = \"日本\";";
    let source = Source::new(text.as_bytes());
    assert_eq!(source.position(at(1, 1)), Some(2));
    assert_eq!(source.position(at(2, 5)), Some(8 + 6));
    assert_eq!(source.position(at(2, 9)), Some(8 + 10));
    assert_eq!(source.position(at(2, 10)), Some(8 + 13));
    assert_eq!(source.position(at(2, 11)), Some(8 + 16));
    for (column, (offset, _)) in "let ü = \"日本\";".char_indices().enumerate() {
        assert_eq!(source.position(at(2, column)), Some(8 + offset));
    }
}

#[test]
fn a_column_past_the_line_is_the_end_of_the_line() {
    let source = Source::new(b"ab\r\ncd");
    assert_eq!(source.position(at(1, 2)), Some(2));
    assert_eq!(source.position(at(1, 99)), Some(2));
    assert_eq!(source.position(at(2, 99)), Some(6));
}

#[test]
fn a_line_that_the_text_lacks_does_not_resolve() {
    let source = Source::new(b"ab\ncd\n");
    assert_eq!(source.position(at(0, 0)), None);
    assert_eq!(source.position(at(3, 0)), None);
    assert_eq!(source.position(at(usize::MAX, 0)), None);
    assert_eq!(Source::new(b"").position(at(1, 0)), None);
}

#[test]
fn a_range_needs_both_of_its_ends() {
    let source = Source::new(b"/// old\nfn a() {}\n");
    let span = Span { start: at(1, 0), end: at(1, 7) };
    assert_eq!(source.range_for(span), Some(ByteRange { start: 0, end: 7 }));
    let across = Span { start: at(1, 4), end: at(2, 2) };
    assert_eq!(source.range_for(across), Some(ByteRange { start: 4, end: 10 }));
    assert_eq!(source.range_for(Span { start: at(1, 0), end: at(3, 0) }), None);
    assert_eq!(source.range_for(Span { start: at(0, 0), end: at(1, 0) }), None);
}

#[test]
fn positions_keep_their_order_and_stay_in_the_text() {
    let text = "a\nbé\r\n\nçd";
    let source = Source::new(text.as_bytes());
    let mut last = 0;
    for line in 1..=4 {
        for column in 0..4 {
            let p = source.position(at(line, column)).unwrap();
            assert!(last <= p && p <= text.len());
            assert!(text.is_char_boundary(p));
            last = p;
        }
    }
    assert_eq!(source.full(), text.as_bytes());
}
