use xiff::lines::{compute_line_starts, line_of_offset, split_lines};

#[test]
fn split_drops_trailing_newline() {
    let text = b"a\nbb\n".to_vec();
    let lines = split_lines(&text);
    assert_eq!(lines, vec![b"a".to_vec(), b"bb".to_vec()]);
}

#[test]
fn split_keeps_final_unterminated_line() {
    let text = b"a\nbb\nc".to_vec();
    let lines = split_lines(&text);
    assert_eq!(lines, vec![b"a".to_vec(), b"bb".to_vec(), b"c".to_vec()]);
}

#[test]
fn split_keeps_empty_lines_between_newlines() {
    let text = b"\n\na".to_vec();
    let lines = split_lines(&text);
    assert_eq!(lines, vec![b"".to_vec(), b"".to_vec(), b"a".to_vec()]);
}

#[test]
fn split_of_empty_text_is_empty() {
    let lines = split_lines(&Vec::new());
    assert_eq!(lines, Vec::<Vec<u8>>::new());
}

#[test]
fn line_starts_follow_newlines() {
    let text = b"a\nbb\nc".to_vec();
    assert_eq!(compute_line_starts(&text), vec![0, 2, 5]);
}

#[test]
fn line_starts_ignore_trailing_newline() {
    let text = b"a\nbb\n".to_vec();
    assert_eq!(compute_line_starts(&text), vec![0, 2]);
}

#[test]
fn line_of_offset_counts_newlines() {
    let text = b"a\nb\nc".to_vec();
    assert_eq!(line_of_offset(&text, 0), 0);
    assert_eq!(line_of_offset(&text, 1), 0);
    assert_eq!(line_of_offset(&text, 2), 1);
    assert_eq!(line_of_offset(&text, 4), 2);
    assert_eq!(line_of_offset(&text, 100), 2);
}
