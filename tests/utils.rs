use calculator::utils::{
    extract_digits, extract_identifier, extract_op, extract_whitespace,
    extract_whitespace_atleast_one, tag,
};

#[test]
fn extract_one() {
    assert_eq!(extract_digits("1+2"), Ok(("+2", "1")))
}

#[test]
fn extract_multiple() {
    assert_eq!(extract_digits("10-20"), Ok(("-20", "10")))
}

#[test]
fn do_not_extract_digits_from_invalid_input() {
    assert_eq!(extract_digits("abcd"), Err("expected digits".into()));
}

#[test]
fn extract_digits_with_no_remainder() {
    assert_eq!(extract_digits("100"), Ok(("", "100")));
}

#[test]
fn extract_plus() {
    assert_eq!(extract_op("+2"), ("2", "+"));
}

#[test]
fn extract_minus() {
    assert_eq!(extract_op("-10"), ("10", "-"));
}

#[test]
fn extract_star() {
    assert_eq!(extract_op("*3"), ("3", "*"));
}

#[test]
fn extract_slash() {
    assert_eq!(extract_op("/4"), ("4", "/"));
}

#[test]
fn extract_ws() {
    assert_eq!(extract_whitespace(" 2"), ("2", " "));
}

#[test]
fn extract_mul_ws() {
    assert_eq!(extract_whitespace("       69"), ("69", "       "));
}

#[test]
fn fail_on_num_start() {
    assert_eq!(
        extract_identifier("123abc"),
        Err("expected identifier".to_string())
    );
}

#[test]
fn tag_word() {
    assert_eq!(tag("let", "let a"), Ok(" a"));
}

#[test]
fn extract_alphabetic_ident() {
    assert_eq!(extract_identifier("abcdEFG stop"), Ok((" stop", "abcdEFG")));
}

#[test]
fn extract_alphanumeric_ident() {
    assert_eq!(extract_identifier("foobar1()"), Ok(("()", "foobar1")));
}

#[test]
fn extract_newlines_or_spaces() {
    assert_eq!(extract_whitespace(" \n   \n\nabc"), ("abc", " \n   \n\n"));
}

#[test]
fn do_not_extract_spaces1_when_input_does_not_start_with_them() {
    assert_eq!(
        extract_whitespace_atleast_one("blah"),
        Err("expected a space".to_string()),
    );
}

#[test]
fn tag_reports_what_it_expected() {
    assert_eq!(tag("let", "fn a"), Err("Expected 'let'".to_string()));
    assert_eq!(tag("let", "le"), Err("Expected 'let'".to_string()));
}

#[test]
fn identifier_may_be_empty_when_input_starts_with_a_symbol() {
    assert_eq!(extract_identifier("(x"), Ok(("(x", "")));
    assert_eq!(extract_identifier(""), Ok(("", "")));
}

#[test]
fn whitespace_on_empty_input() {
    assert_eq!(extract_whitespace(""), ("", ""));
    assert_eq!(
        extract_whitespace_atleast_one(""),
        Err("expected a space".to_string())
    );
    assert_eq!(extract_whitespace_atleast_one("  x"), Ok(("x", "  ")));
}

#[test]
fn digits_stop_at_non_ascii() {
    assert_eq!(extract_digits("12é"), Ok(("é", "12")));
}
