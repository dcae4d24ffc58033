use docsync::replace::{
    apply_replacements, reindent, replace_range, sort_replacements, Replacement, SpliceError,
};
use docsync::source::ByteRange;

fn put(start: usize, end: usize, text: &str) -> Replacement {
    Replacement { range: ByteRange { start, end }, text: text.as_bytes().to_vec() }
}

fn apply(buffer: &str, reps: Vec<Replacement>) -> Result<String, SpliceError> {
    let mut bytes = buffer.as_bytes().to_vec();
    apply_replacements(&mut bytes, &reps)?;
    Ok(String::from_utf8(bytes).unwrap())
}

#[test]
fn reindent_at_column_zero_keeps_the_text() {
    assert_eq!(reindent(b"/// a\n/// b", 0), b"/// a\n/// b".to_vec());
    assert_eq!(reindent(b"/// a\r\n/// b\n", 0), b"/// a\r\n/// b\n".to_vec());
}

#[test]
fn reindent_indents_every_line_but_the_first() {
    assert_eq!(reindent(b"/// a\n/// b", 4), b"/// a\n    /// b\n    ".to_vec());
    assert_eq!(reindent(b"/// a", 2), b"/// a\n  ".to_vec());
    assert_eq!(reindent(b"a\n\nb\n", 1), b"a\n \n b\n ".to_vec());
    assert_eq!(reindent(b"a\r\nb\r", 3), b"a\n   b\r\n   ".to_vec());
}

#[test]
fn every_line_after_the_first_begins_with_the_spaces_of_the_column() {
    for column in 1..6 {
        let out = String::from_utf8(reindent(b"/// one\n/// two\n/// three", column)).unwrap();
        let lines: Vec<&str> = out.split('\n').collect();
        assert_eq!(lines.len(), 4);
        assert_eq!(lines[0], "/// one");
        for line in &lines[1..3] {
            assert_eq!(line.len() - line.trim_start_matches(' ').len(), column);
        }
        assert_eq!(lines[3], " ".repeat(column));
    }
}

#[test]
fn replace_range_puts_the_text_in_place_of_the_range() {
    let mut buffer = b"0123456789".to_vec();
    replace_range(&mut buffer, ByteRange { start: 2, end: 5 }, b"abcdef");
    assert_eq!(buffer, b"01abcdef56789".to_vec());
    replace_range(&mut buffer, ByteRange { start: 0, end: 0 }, b">");
    assert_eq!(buffer, b">01abcdef56789".to_vec());
    replace_range(&mut buffer, ByteRange { start: 14, end: 14 }, b"<");
    assert_eq!(buffer, b">01abcdef56789<".to_vec());
    replace_range(&mut buffer, ByteRange { start: 1, end: 14 }, b"");
    assert_eq!(buffer, b"><".to_vec());
}

#[test]
fn replacing_again_what_was_put_changes_nothing() {
    let mut buffer = b"0123456789".to_vec();
    replace_range(&mut buffer, ByteRange { start: 2, end: 5 }, b"abcdef");
    let once = buffer.clone();
    replace_range(&mut buffer, ByteRange { start: 2, end: 8 }, b"abcdef");
    assert_eq!(buffer, once);
}

#[test]
fn replacements_are_ordered_by_start_and_keep_their_order_at_one_start() {
    let reps = vec![put(7, 7, "a"), put(3, 3, "b"), put(7, 9, "c"), put(0, 1, "d"), put(3, 3, "e")];
    assert_eq!(sort_replacements(&reps), vec![3, 1, 4, 0, 2]);
    assert_eq!(sort_replacements(&vec![]), Vec::<usize>::new());
}

#[test]
fn at_one_start_an_insertion_comes_before_a_replacement() {
    let reps = vec![put(7, 9, "a"), put(7, 7, "b"), put(7, 8, "c"), put(7, 7, "d")];
    assert_eq!(sort_replacements(&reps), vec![1, 3, 2, 0]);
}

#[test]
fn replacements_are_applied_whatever_their_order() {
    let reps = vec![put(8, 10, "<C>"), put(0, 0, "<A>"), put(3, 5, "")];
    assert_eq!(apply("0123456789", reps), Ok("<A>012567<C>".to_string()));
}

#[test]
fn insertions_at_one_offset_come_in_the_order_in_which_they_were_found() {
    let reps = vec![put(4, 4, "one"), put(4, 4, "two"), put(4, 6, "three")];
    assert_eq!(apply("0123456789", reps), Ok("0123onetwothree6789".to_string()));
}

#[test]
fn no_replacement_changes_nothing() {
    assert_eq!(apply("0123456789", vec![]), Ok("0123456789".to_string()));
    assert_eq!(apply("", vec![]), Ok("".to_string()));
}

#[test]
fn a_range_out_of_bounds_is_refused() {
    assert_eq!(apply("0123", vec![put(2, 5, "x")]), Err(SpliceError::OutOfBounds));
    assert_eq!(apply("0123", vec![put(3, 2, "x")]), Err(SpliceError::OutOfBounds));
    assert_eq!(apply("0123", vec![put(0, 1, "x"), put(5, 5, "y")]), Err(SpliceError::OutOfBounds));
    assert_eq!(apply("0123", vec![put(4, 4, "x")]), Ok("0123x".to_string()));
}

#[test]
fn ranges_in_conflict_are_refused() {
    assert_eq!(apply("0123456789", vec![put(2, 5, "x"), put(4, 6, "y")]), Err(SpliceError::Overlap));
    assert_eq!(apply("0123456789", vec![put(4, 6, "y"), put(2, 5, "x")]), Err(SpliceError::Overlap));
    assert_eq!(apply("0123456789", vec![put(2, 5, "x"), put(3, 3, "y")]), Err(SpliceError::Overlap));
    assert_eq!(apply("0123456789", vec![put(2, 5, "x"), put(2, 2, "y")]), Ok("01yx56789".to_string()));
    assert_eq!(apply("0123456789", vec![put(2, 5, "x"), put(2, 4, "y")]), Err(SpliceError::Overlap));
    assert_eq!(apply("0123456789", vec![put(2, 5, "x"), put(2, 5, "y")]), Err(SpliceError::Overlap));
    assert_eq!(apply("0123456789", vec![put(2, 2, "y"), put(2, 5, "x")]), Ok("01yx56789".to_string()));
    assert_eq!(apply("0123456789", vec![put(2, 5, "x"), put(5, 5, "y")]), Ok("01xy56789".to_string()));
    assert_eq!(
        apply("0123", vec![put(0, 9, "x"), put(1, 3, "y"), put(2, 4, "z")]),
        Err(SpliceError::OutOfBounds)
    );
}
