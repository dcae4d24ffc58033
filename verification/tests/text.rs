use docsync::text::{append_range, append_spaces, split_lines, str_eq, LineSpan};

fn spans(text: &[u8]) -> Vec<(usize, usize)> {
    split_lines(text).iter().map(|l: &LineSpan| (l.start, l.end)).collect()
}

#[test]
fn lines_end_at_line_feeds() {
    assert_eq!(spans(b"ab\ncd"), vec![(0, 2), (3, 5)]);
}

#[test]
fn a_final_line_feed_opens_no_line() {
    assert_eq!(spans(b"ab\ncd\n"), vec![(0, 2), (3, 5)]);
}

#[test]
fn an_empty_text_has_no_line() {
    assert_eq!(spans(b""), Vec::<(usize, usize)>::new());
}

#[test]
fn empty_lines_are_lines() {
    assert_eq!(spans(b"\n\nx"), vec![(0, 0), (1, 1), (2, 3)]);
}

#[test]
fn a_carriage_return_before_the_line_feed_is_taken_off() {
    assert_eq!(spans(b"ab\r\ncd\r\n"), vec![(0, 2), (4, 6)]);
}

#[test]
fn a_carriage_return_without_a_line_feed_stays() {
    assert_eq!(spans(b"ab\rcd\nef\r"), vec![(0, 5), (6, 9)]);
}

#[test]
fn only_one_carriage_return_is_taken_off() {
    assert_eq!(spans(b"a\r\r\nb"), vec![(0, 2), (4, 5)]);
}

#[test]
fn lines_agree_with_the_standard_library() {
    for text in ["", "a", "a\n", "a\r\n\r\nb", "\r", "\n", "x\ry\r\n", "é\nü\r\n"] {
        let ours: Vec<&[u8]> =
            split_lines(text.as_bytes()).iter().map(|l| &text.as_bytes()[l.start..l.end]).collect();
        let theirs: Vec<&[u8]> = text.lines().map(|l| l.as_bytes()).collect();
        assert_eq!(ours, theirs);
    }
}

#[test]
fn strings_are_compared_by_their_characters() {
    assert!(str_eq("doc", "doc"));
    assert!(!str_eq("doc", "doc "));
    assert!(!str_eq("doc", "dot"));
    assert!(str_eq("", ""));
    assert!(str_eq("é", "é"));
    assert!(!str_eq("é", "e"));
}

#[test]
fn ranges_and_spaces_are_appended() {
    let mut out = b"x".to_vec();
    append_range(&mut out, b"hello", 1, 3);
    append_spaces(&mut out, 2);
    append_range(&mut out, b"hello", 5, 5);
    assert_eq!(out, b"xel  ".to_vec());
}
