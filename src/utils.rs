//! Scanning helpers for a small statement language: each takes a prefix of the
//! input and returns the rest of the input first, then what it took.
use vstd::prelude::*;
use vstd::string::{StrSliceExecFns, StringExecFns};

verus! {

/// The characters a scan may take.
#[derive(Clone, Copy, Debug, PartialEq, Eq, Structural)]
pub enum CharClass {
    /// Blank or line feed.
    Whitespace,
    /// ASCII letters and digits.
    Alphanumeric,
    /// ASCII digits.
    Digit,
}

pub open spec fn is_ascii_digit(c: char) -> bool {
    '0' <= c <= '9'
}

pub open spec fn is_ascii_alphanumeric(c: char) -> bool {
    is_ascii_digit(c) || ('a' <= c <= 'z') || ('A' <= c <= 'Z')
}

pub open spec fn in_class(class: CharClass, c: char) -> bool {
    match class {
        CharClass::Whitespace => c == ' ' || c == '\n',
        CharClass::Alphanumeric => is_ascii_alphanumeric(c),
        CharClass::Digit => is_ascii_digit(c),
    }
}

/// `taken` is the longest prefix of `s` in `class`, and `rest` what follows it.
pub open spec fn split_run(class: CharClass, s: Seq<char>, rest: Seq<char>, taken: Seq<char>) -> bool {
    let n = taken.len() as int;
    &&& n <= s.len()
    &&& taken == s.subrange(0, n)
    &&& rest == s.subrange(n, s.len() as int)
    &&& forall|k: int| 0 <= k < n ==> in_class(class, #[trigger] s[k])
    &&& (n == s.len() || !in_class(class, s[n]))
}

fn char_in_class(class: CharClass, c: char) -> (r: bool)
    ensures
        r == in_class(class, c),
{
    match class {
        CharClass::Whitespace => c == ' ' || c == '\n',
        CharClass::Alphanumeric => ('0' <= c && c <= '9') || ('a' <= c && c <= 'z') || ('A' <= c
            && c <= 'Z'),
        CharClass::Digit => '0' <= c && c <= '9',
    }
}

/// Splits off the longest prefix of `s` whose characters are in `class`.
pub fn take_while(class: CharClass, s: &str) -> (r: (&str, &str))
    ensures
        split_run(class, s@, r.0@, r.1@),
{
    let len = s.unicode_len();
    let mut count: usize = 0;
    while count < len && char_in_class(class, s.get_char(count))
        invariant
            count <= len,
            len == s@.len(),
            forall|k: int| 0 <= k < count ==> in_class(class, #[trigger] s@[k]),
        decreases len - count,
    {
        count += 1;
    }
    (s.substring_char(count, len), s.substring_char(0, count))
}

/// As `take_while`, but an empty prefix is the error `err_msg`.
pub fn take_while_not_empty(class: CharClass, s: &str, err_msg: String) -> (r: Result<
    (&str, &str),
    String,
>)
    ensures
        r matches Ok((rest, taken)) ==> split_run(class, s@, rest@, taken@) && taken@.len() > 0,
        r matches Err(e) ==> e@ == err_msg@ && (s@.len() == 0 || !in_class(class, s@[0])),
{
    let (rem, ex) = take_while(class, s);
    if ex.unicode_len() == 0 {
        Err(err_msg)
    } else {
        Ok((rem, ex))
    }
}

/// Splits off leading blanks and line feeds.
pub fn extract_whitespace(s: &str) -> (r: (&str, &str))
    ensures
        split_run(CharClass::Whitespace, s@, r.0@, r.1@),
{
    take_while(CharClass::Whitespace, s)
}

/// Splits off leading blanks and line feeds, of which there must be at least one.
pub fn extract_whitespace_atleast_one(s: &str) -> (r: Result<(&str, &str), String>)
    ensures
        r matches Ok((rest, taken)) ==> split_run(CharClass::Whitespace, s@, rest@, taken@)
            && taken@.len() > 0,
        r matches Err(e) ==> e@ == "expected a space"@ && (s@.len() == 0 || !in_class(
            CharClass::Whitespace,
            s@[0],
        )),
{
    take_while_not_empty(CharClass::Whitespace, s, String::from_str("expected a space"))
}

/// Splits off an identifier: letters and digits, not starting with a digit.
/// An empty identifier is accepted when `s` does not start with one.
pub fn extract_identifier(s: &str) -> (r: Result<(&str, &str), String>)
    ensures
        r is Err <==> s@.len() > 0 && is_ascii_digit(s@[0]),
        r matches Ok((rest, taken)) ==> split_run(CharClass::Alphanumeric, s@, rest@, taken@),
        r matches Err(e) ==> e@ == "expected identifier"@,
{
    let num_start = if s.unicode_len() > 0 {
        let c = s.get_char(0);
        '0' <= c && c <= '9'
    } else {
        false
    };
    if num_start {
        Err(String::from_str("expected identifier"))
    } else {
        Ok(take_while(CharClass::Alphanumeric, s))
    }
}

/// Splits off a non-empty run of digits.
pub fn extract_digits(s: &str) -> (r: Result<(&str, &str), String>)
    ensures
        r matches Ok((rest, taken)) ==> split_run(CharClass::Digit, s@, rest@, taken@)
            && taken@.len() > 0,
        r matches Err(e) ==> e@ == "expected digits"@ && (s@.len() == 0 || !is_ascii_digit(s@[0])),
{
    take_while_not_empty(CharClass::Digit, s, String::from_str("expected digits"))
}

/// Whether a character is one of the operators `+ - * /`.
pub open spec fn is_op(c: char) -> bool {
    c == '+' || c == '-' || c == '*' || c == '/'
}

/// Splits off the operator that `s` starts with.
pub fn extract_op(s: &str) -> (r: (&str, &str))
    requires
        s@.len() > 0,
        is_op(s@[0]),
    ensures
        r.1@ == s@.subrange(0, 1),
        r.0@ == s@.subrange(1, s@.len() as int),
{
    let len = s.unicode_len();
    (s.substring_char(1, len), s.substring_char(0, 1))
}

/// The error of `tag`.
fn expected_text(start_text: &str) -> (r: String)
    ensures
        r@ == "Expected '"@ + start_text@ + "'"@,
{
    let mut msg = String::from_str("Expected '");
    msg.append(start_text);
    msg.append("'");
    msg
}

/// Splits off `start_text`, which `s` must start with.
pub fn tag<'a, 'b>(start_text: &'a str, s: &'b str) -> (r: Result<&'b str, String>)
    ensures
        r is Ok <==> start_text@.len() <= s@.len() && s@.subrange(0, start_text@.len() as int)
            == start_text@,
        r matches Ok(rest) ==> rest@ == s@.subrange(start_text@.len() as int, s@.len() as int),
        r matches Err(e) ==> e@ == "Expected '"@ + start_text@ + "'"@,
{
    let n = start_text.unicode_len();
    let len = s.unicode_len();
    if n > len {
        return Err(expected_text(start_text));
    }
    let mut i: usize = 0;
    while i < n
        invariant
            n == start_text@.len(),
            len == s@.len(),
            n <= len,
            i <= n,
            forall|k: int| 0 <= k < i ==> s@[k] == start_text@[k],
        decreases n - i,
    {
        if s.get_char(i) != start_text.get_char(i) {
            assert(s@.subrange(0, n as int)[i as int] == s@[i as int]);
            return Err(expected_text(start_text));
        }
        i += 1;
    }
    assert(s@.subrange(0, n as int) =~= start_text@);
    Ok(s.substring_char(n, len))
}

} // verus!
