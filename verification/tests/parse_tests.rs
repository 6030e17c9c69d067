use mastermind::format::format_pegs;
use mastermind::parse::parse_feedback;

#[test]
fn parses_plain_feedback_line() {
    assert_eq!(parse_feedback(b"3, 2\n"), Some((3, 2)));
}

#[test]
fn parses_without_space_after_comma() {
    assert_eq!(parse_feedback(b"4,0\n"), Some((4, 0)));
}

#[test]
fn parses_with_extra_whitespace() {
    assert_eq!(parse_feedback(b"1, \t 0  \n"), Some((1, 0)));
    assert_eq!(parse_feedback(b"0,\t2\t\n"), Some((0, 2)));
}

#[test]
fn rejects_missing_newline() {
    assert_eq!(parse_feedback(b"3, 2"), None);
}

#[test]
fn rejects_non_digit_input() {
    assert_eq!(parse_feedback(b"a, 2\n"), None);
    assert_eq!(parse_feedback(b"3, b\n"), None);
    assert_eq!(parse_feedback(b"\n"), None);
    assert_eq!(parse_feedback(b""), None);
}

#[test]
fn rejects_missing_comma() {
    assert_eq!(parse_feedback(b"3 2\n"), None);
    assert_eq!(parse_feedback(b"32\n"), None);
}

#[test]
fn rejects_multi_digit_counts() {
    // The format takes a single digit, a comma, and a single digit.
    assert_eq!(parse_feedback(b"12, 2\n"), None);
}

#[test]
fn rejects_junk_between_digit_and_newline() {
    assert_eq!(parse_feedback(b"3, 2x\n"), None);
}

#[test]
fn ignores_text_after_the_newline() {
    assert_eq!(parse_feedback(b"3, 2\nleftover"), Some((3, 2)));
}

#[test]
fn formats_pegs_space_separated() {
    assert_eq!(format_pegs(&vec![6i8, 6, 5, 4]), "6 6 5 4");
    assert_eq!(format_pegs(&vec![1i8]), "1");
    assert_eq!(format_pegs(&vec![]), "");
}

#[test]
fn formats_multi_digit_values() {
    assert_eq!(format_pegs(&vec![0i8, 10, 127]), "0 10 127");
}
