use lightstage::scene_text::{read_number_below, split_lines, split_words};
use lightstage::{FormatError, Scene};

fn chars(s: &str) -> Vec<char> {
    s.chars().collect()
}

fn parse<const N: usize, const M: usize>(s: &str) -> Result<Scene<N, M>, FormatError> {
    Scene::<N, M>::parse_text(&chars(s))
}

#[test]
fn one_committed_frame() {
    let s: Scene<2, 5> = parse("0 10 20 30\nshow\n").unwrap();
    assert_eq!(s.frame_count(), 1);
    assert_eq!(s.get_node(0), Ok([10, 20, 30, 0, 0]));
    assert_eq!(s.get_node(1), Ok([0, 0, 0, 0, 0]));
    let exact: Scene<1, 3> = parse("0 10 20 30\nshow\n").unwrap();
    assert_eq!(exact.get_node(0), Ok([10, 20, 30]));
}

#[test]
fn frame_without_show_is_dropped() {
    let s: Scene<2, 5> = parse("0 10 20 30\n").unwrap();
    assert_eq!(s.frame_count(), 0);
    let t: Scene<2, 5> = parse("0 1\nshow\n1 2 3\n").unwrap();
    assert_eq!(t.frame_count(), 1);
    assert_eq!(t.get_node(1), Ok([0, 0, 0, 0, 0]));
}

#[test]
fn two_frames_in_order() {
    let mut s: Scene<1, 3> = parse("0 5\nshow\n0 9\nshow\n").unwrap();
    assert_eq!(s.frame_count(), 2);
    assert_eq!(s.get_node(0).unwrap()[0], 5);
    s.next();
    assert_eq!(s.get_node(0).unwrap()[0], 9);
}

#[test]
fn show_starts_a_dark_frame() {
    let mut s: Scene<2, 2> = parse("0 5 6\n1 7 8\nshow\n1 1\nshow\n").unwrap();
    s.next();
    assert_eq!(s.get_node(0), Ok([0, 0]));
    assert_eq!(s.get_node(1), Ok([1, 0]));
}

#[test]
fn non_numeric_index_fails() {
    let r: Result<Scene<2, 3>, FormatError> = parse("show\nx 1 2\nshow\n");
    assert_eq!(r.err(), Some(FormatError { line: 1, token: 0 }));
}

#[test]
fn channel_value_above_255_fails() {
    let r: Result<Scene<2, 3>, FormatError> = parse("0 1 2\nshow\n1 4 256\nshow\n");
    assert_eq!(r.err(), Some(FormatError { line: 2, token: 2 }));
}

#[test]
fn non_numeric_channel_value_fails() {
    let r: Result<Scene<2, 3>, FormatError> = parse("0 1 -2\nshow\n");
    assert_eq!(r.err(), Some(FormatError { line: 0, token: 2 }));
}

#[test]
fn node_index_out_of_range_fails() {
    let r: Result<Scene<2, 3>, FormatError> = parse("2 1\nshow\n");
    assert_eq!(r.err(), Some(FormatError { line: 0, token: 0 }));
    let huge: Result<Scene<2, 3>, FormatError> = parse("99999999999999999999999 1\n");
    assert_eq!(huge.err(), Some(FormatError { line: 0, token: 0 }));
}

#[test]
fn too_many_channel_values_fail() {
    let r: Result<Scene<2, 3>, FormatError> = parse("0 1 2 3 4\nshow\n");
    assert_eq!(r.err(), Some(FormatError { line: 0, token: 4 }));
}

#[test]
fn first_bad_word_is_reported() {
    let r: Result<Scene<2, 3>, FormatError> = parse("0 1 x 3 4\nshow\n");
    assert_eq!(r.err(), Some(FormatError { line: 0, token: 2 }));
}

#[test]
fn blank_line_without_index_fails() {
    let r: Result<Scene<2, 3>, FormatError> = parse("0 1\n   \nshow\n");
    assert_eq!(r.err(), Some(FormatError { line: 1, token: 0 }));
}

#[test]
fn error_after_last_show_still_fails() {
    let r: Result<Scene<2, 3>, FormatError> = parse("0 1\nshow\n0 300\n");
    assert_eq!(r.err(), Some(FormatError { line: 2, token: 1 }));
}

#[test]
fn comments_and_empty_lines_are_ignored() {
    let s: Scene<2, 3> = parse("# header\n\n0 1 2 3\n#0 9 9 9\n\nshow\n").unwrap();
    assert_eq!(s.frame_count(), 1);
    assert_eq!(s.get_node(0), Ok([1, 2, 3]));
}

#[test]
fn partial_line_keeps_later_channels() {
    let s: Scene<1, 4> = parse("0 1 2 3 4\n0 9\nshow\n").unwrap();
    assert_eq!(s.get_node(0), Ok([9, 2, 3, 4]));
}

#[test]
fn show_must_match_exactly() {
    let r: Result<Scene<1, 3>, FormatError> = parse("0 1\n show\n");
    assert_eq!(r.err(), Some(FormatError { line: 1, token: 0 }));
}

#[test]
fn crlf_lines_and_missing_final_newline() {
    let s: Scene<1, 3> = parse("0 4 5\r\nshow\r\n0 6\r\nshow").unwrap();
    assert_eq!(s.frame_count(), 2);
    assert_eq!(s.get_node(0), Ok([4, 5, 0]));
}

#[test]
fn plus_sign_and_unicode_spaces() {
    let s: Scene<1, 3> = parse("+0\u{3000}+7\t8\u{a0}9\nshow\n").unwrap();
    assert_eq!(s.get_node(0), Ok([7, 8, 9]));
}

#[test]
fn parse_lines_takes_split_lines() {
    let lines: Vec<Vec<char>> = vec![chars("0 3"), chars("show")];
    let s: Scene<1, 2> = Scene::parse_lines(&lines).unwrap();
    assert_eq!(s.frame_count(), 1);
    assert_eq!(s.get_node(0), Ok([3, 0]));
}

#[test]
fn split_lines_of_text() {
    assert_eq!(split_lines(&chars("a\r\nb\n\nc\r")), vec![chars("a"), chars("b"), chars(""), chars("c\r")]);
    assert_eq!(split_lines(&chars("")), Vec::<Vec<char>>::new());
    assert_eq!(split_lines(&chars("x\n")), vec![chars("x")]);
}

#[test]
fn split_words_of_line() {
    assert_eq!(split_words(&chars("  12 ab\t3  ")), vec![chars("12"), chars("ab"), chars("3")]);
    assert_eq!(split_words(&chars(" \t ")), Vec::<Vec<char>>::new());
}

#[test]
fn read_numbers() {
    assert_eq!(read_number_below(&chars("255"), 256), Some(255));
    assert_eq!(read_number_below(&chars("256"), 256), None);
    assert_eq!(read_number_below(&chars("+12"), 256), Some(12));
    assert_eq!(read_number_below(&chars("007"), 256), Some(7));
    assert_eq!(read_number_below(&chars("+"), 256), None);
    assert_eq!(read_number_below(&chars(""), 256), None);
    assert_eq!(read_number_below(&chars("1a"), 256), None);
    assert_eq!(read_number_below(&chars("-1"), 256), None);
    assert_eq!(read_number_below(&chars("0"), 0), None);
}
