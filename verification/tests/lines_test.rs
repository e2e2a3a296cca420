use sdfs::lines::count_lines;
use sdfs::lines::select_lines;
use sdfs::lines::split_lines;

#[test]
fn count_lines_counts_terminated_lines() {
    let data: Vec<u8> = b"a\nb\na\n".to_vec();
    assert_eq!(count_lines(&data), 3);
}

#[test]
fn count_lines_counts_trailing_segment() {
    let data: Vec<u8> = b"a\nb".to_vec();
    assert_eq!(count_lines(&data), 2);
}

#[test]
fn count_lines_empty_file_has_no_lines() {
    let data: Vec<u8> = Vec::new();
    assert_eq!(count_lines(&data), 0);
}

#[test]
fn line_count_equals_newline_count_when_terminated() {
    // a newline-terminated file reports exactly as many lines as newlines
    let data: Vec<u8> = b"x\ny\n".to_vec();
    let newlines = data.iter().filter(|b| **b == b'\n').count() as u32;
    assert_eq!(count_lines(&data), newlines);
}

#[test]
fn select_lines_keeps_middle_line() {
    let data: Vec<u8> = b"l0\nl1\nl2\n".to_vec();
    assert_eq!(select_lines(&data, 1, 1), b"l1\n".to_vec());
}

#[test]
fn select_lines_keeps_first_line() {
    let data: Vec<u8> = b"l0\nl1\nl2\n".to_vec();
    assert_eq!(select_lines(&data, 0, 0), b"l0\n".to_vec());
}

#[test]
fn select_lines_range_covers_all() {
    let data: Vec<u8> = b"l0\nl1\nl2".to_vec();
    assert_eq!(select_lines(&data, 0, 9), data);
}

#[test]
fn select_lines_out_of_range_is_empty() {
    let data: Vec<u8> = b"l0\nl1\n".to_vec();
    assert_eq!(select_lines(&data, 5, 9), Vec::<u8>::new());
}

#[test]
fn split_lines_splits_on_newline() {
    let lines = split_lines("a\nb\na");
    assert_eq!(lines, vec!["a".to_string(), "b".to_string(), "a".to_string()]);
}

#[test]
fn split_lines_strips_carriage_return() {
    let lines = split_lines("a\r\nb\r\n");
    assert_eq!(lines, vec!["a".to_string(), "b".to_string()]);
}

#[test]
fn split_lines_empty_input_has_no_lines() {
    assert_eq!(split_lines(""), Vec::<String>::new());
}

#[test]
fn split_lines_trailing_terminator_opens_no_line() {
    assert_eq!(split_lines("x\n"), vec!["x".to_string()]);
}
