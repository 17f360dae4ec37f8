//! The surface syntax: a lexer over bytes and a recursive-descent grammar.
//!
//! ```text
//! Program := Expr (";" Expr)* ";"?
//! Expr    := Term (("+" | "-") Term)*        grouping to the left
//! Term    := Factor (("*" | "/") Factor)*    grouping to the left
//! Factor  := ("+" | "-") Factor | Number | "(" Expr ")"
//! Number  := digits | digits "." digits
//! ```
//!
//! Float literals get their values from the caller, in source order: see
//! `float_literal_spans` and `parse`.
use crate::ast::{Node, Operator};
use crate::val::Val;
use vstd::prelude::*;
use vstd::string::StringSliceAdditionalSpecFns;

verus! {

/// Why a source text was rejected. Positions of characters are byte offsets
/// into the source; positions of tokens are indices into its token sequence.
#[derive(Clone, Copy, Debug, PartialEq, Eq, Structural)]
pub enum ParseError {
    /// A byte that starts no token.
    UnexpectedChar(usize),
    /// An integer literal, starting here, that does not fit in 32 signed bits.
    IntegerOutOfRange(usize),
    /// A token that the grammar does not allow here.
    UnexpectedToken(usize),
    /// The input ended where the grammar needs more.
    UnexpectedEnd,
    /// Fewer float values were supplied than the source has float literals.
    MissingFloatValue,
}

/// A lexical token. A float literal is kept as the byte span of its text.
#[derive(Clone, Copy, Debug, PartialEq, Eq, Structural)]
pub enum Lexeme {
    Int(i32),
    Float(usize, usize),
    Plus,
    Minus,
    Star,
    Slash,
    LParen,
    RParen,
    Semicolon,
}

/// A token the grammar reads: a literal's value, or a punctuation mark.
#[derive(Clone, Copy, Debug, PartialEq, Eq, Structural)]
pub enum Token {
    Num(Val),
    Plus,
    Minus,
    Star,
    Slash,
    LParen,
    RParen,
    Semicolon,
}

pub open spec fn is_digit(b: u8) -> bool {
    48 <= b <= 57
}

/// Blank, tab, line feed and carriage return separate tokens.
pub open spec fn is_space(b: u8) -> bool {
    b == 32 || b == 9 || b == 10 || b == 13
}

/// The single-byte token a byte stands for, if any.
pub open spec fn punctuation(b: u8) -> Option<Lexeme> {
    if b == 43 {
        Some(Lexeme::Plus)
    } else if b == 45 {
        Some(Lexeme::Minus)
    } else if b == 42 {
        Some(Lexeme::Star)
    } else if b == 47 {
        Some(Lexeme::Slash)
    } else if b == 40 {
        Some(Lexeme::LParen)
    } else if b == 41 {
        Some(Lexeme::RParen)
    } else if b == 59 {
        Some(Lexeme::Semicolon)
    } else {
        None
    }
}

/// The end of the run of digits that starts at `i`.
pub open spec fn digits_end(s: Seq<u8>, i: int) -> int
    decreases s.len() - i,
{
    if 0 <= i < s.len() && is_digit(s[i]) {
        digits_end(s, i + 1)
    } else {
        i
    }
}

/// The decimal value of the digits `s[i..j]`.
pub open spec fn digits_value(s: Seq<u8>, i: int, j: int) -> int
    decreases j - i,
{
    if j <= i {
        0
    } else {
        digits_value(s, i, j - 1) * 10 + (s[j - 1] - 48)
    }
}

/// `l` followed by the tokens of a lexing result.
pub open spec fn prepend<T>(l: T, rest: Result<Seq<T>, ParseError>) -> Result<Seq<T>, ParseError> {
    match rest {
        Ok(ls) => Ok(seq![l] + ls),
        Err(e) => Err(e),
    }
}

/// The tokens of `s` from byte `i` on. An integer is a run of digits; a float
/// is a run of digits, a dot and another run of digits.
pub open spec fn lex_from(s: Seq<u8>, i: int) -> Result<Seq<Lexeme>, ParseError>
    decreases s.len() - i,
{
    if i < 0 || i >= s.len() {
        Ok(Seq::empty())
    } else {
        let b = s[i];
        if is_space(b) {
            lex_from(s, i + 1)
        } else if punctuation(b) is Some {
            prepend(punctuation(b)->0, lex_from(s, i + 1))
        } else if is_digit(b) {
            let j = digits_end(s, i);
            proof {
                lemma_digits_end(s, i);
                lemma_digits_end(s, i + 1);
            }
            if j + 1 < s.len() && s[j] == 46 && is_digit(s[j + 1]) {
                let k = digits_end(s, j + 1);
                proof {
                    lemma_digits_end(s, j + 1);
                    lemma_digits_end(s, j + 2);
                }
                prepend(Lexeme::Float(i as usize, k as usize), lex_from(s, k))
            } else if digits_value(s, i, j) > i32::MAX {
                Err(ParseError::IntegerOutOfRange(i as usize))
            } else {
                prepend(Lexeme::Int(digits_value(s, i, j) as i32), lex_from(s, j))
            }
        } else {
            Err(ParseError::UnexpectedChar(i as usize))
        }
    }
}

/// The run of digits from `i` ends at the first byte that is no digit.
pub proof fn lemma_digits_end(s: Seq<u8>, i: int)
    requires
        0 <= i <= s.len(),
    ensures
        i <= digits_end(s, i) <= s.len(),
        forall|m: int| i <= m < digits_end(s, i) ==> is_digit(#[trigger] s[m]),
        digits_end(s, i) < s.len() ==> !is_digit(s[digits_end(s, i)]),
    decreases s.len() - i,
{
    if i < s.len() && is_digit(s[i]) {
        lemma_digits_end(s, i + 1);
    }
}

/// Scans the run of digits that starts at `i`.
fn scan_digits(s: &[u8], i: usize) -> (j: usize)
    requires
        i <= s@.len(),
    ensures
        j == digits_end(s@, i as int),
{
    proof {
        lemma_digits_end(s@, i as int);
    }
    let mut j = i;
    while j < s.len() && s[j] >= 48 && s[j] <= 57
        invariant
            i <= j <= s@.len(),
            digits_end(s@, j as int) == digits_end(s@, i as int),
        decreases s@.len() - j,
    {
        j += 1;
    }
    j
}

/// The value of the digits `s[i..j]`, or `None` when it exceeds `i32::MAX`.
fn digits_to_int(s: &[u8], i: usize, j: usize) -> (r: Option<i32>)
    requires
        i <= j <= s@.len(),
        forall|m: int| i <= m < j ==> is_digit(#[trigger] s@[m]),
    ensures
        r is Some <==> digits_value(s@, i as int, j as int) <= i32::MAX,
        r matches Some(v) ==> v == digits_value(s@, i as int, j as int),
{
    let mut acc: i32 = 0;
    let mut k = i;
    while k < j
        invariant
            i <= k <= j,
            j <= s@.len(),
            forall|m: int| i <= m < j ==> is_digit(#[trigger] s@[m]),
            acc as int == digits_value(s@, i as int, k as int),
            0 <= acc,
        decreases j - k,
    {
        let d = (s[k] - 48) as i32;
        assert(digits_value(s@, i as int, k + 1) == acc * 10 + d);
        if acc > (i32::MAX - d) / 10 {
            proof {
                lemma_digits_grow(s@, i as int, k + 1, j as int);
                assert(acc * 10 + d > i32::MAX) by (nonlinear_arith)
                    requires
                        acc > (i32::MAX - d) / 10,
                        0 <= d <= 9,
                ;
            }
            return None;
        }
        acc = acc * 10 + d;
        k += 1;
    }
    Some(acc)
}

/// A longer run of digits is worth at least as much.
proof fn lemma_digits_grow(s: Seq<u8>, i: int, k: int, j: int)
    requires
        i <= k <= j <= s.len(),
        forall|m: int| i <= m < j ==> is_digit(#[trigger] s[m]),
    ensures
        digits_value(s, i, k) <= digits_value(s, i, j),
        0 <= digits_value(s, i, k),
    decreases j - k,
{
    lemma_digits_nonneg(s, i, k);
    if k < j {
        lemma_digits_grow(s, i, k + 1, j);
        lemma_digits_nonneg(s, i, k);
        assert(is_digit(s[k]));
    }
}

proof fn lemma_digits_nonneg(s: Seq<u8>, i: int, k: int)
    requires
        i <= k <= s.len(),
        forall|m: int| i <= m < k ==> is_digit(#[trigger] s[m]),
    ensures
        0 <= digits_value(s, i, k),
    decreases k - i,
{
    if k > i {
        lemma_digits_nonneg(s, i, k - 1);
        assert(is_digit(s[k - 1]));
    }
}

/// Splits a source text into tokens.
pub fn lex(source: &str) -> (r: Result<Vec<Lexeme>, ParseError>)
    ensures
        r matches Ok(v) ==> lex_from(source.spec_bytes(), 0) == Ok::<Seq<Lexeme>, ParseError>(v@),
        r matches Err(e) ==> lex_from(source.spec_bytes(), 0) == Err::<Seq<Lexeme>, ParseError>(e),
{
    let s = source.as_bytes();
    let ghost bs = s@;
    let mut out: Vec<Lexeme> = Vec::new();
    let mut i: usize = 0;
    while i < s.len()
        invariant
            s@ == bs,
            bs == source.spec_bytes(),
            i <= bs.len(),
            lex_from(bs, 0) == match lex_from(bs, i as int) {
                Ok(rest) => Ok(out@ + rest),
                Err(e) => Err::<Seq<Lexeme>, ParseError>(e),
            },
        decreases bs.len() - i,
    {
        let b = s[i];
        let ghost out0 = out@;
        if b == 32 || b == 9 || b == 10 || b == 13 {
            i += 1;
        } else if b == 43 || b == 45 || b == 42 || b == 47 || b == 40 || b == 41 || b == 59 {
            let l = if b == 43 {
                Lexeme::Plus
            } else if b == 45 {
                Lexeme::Minus
            } else if b == 42 {
                Lexeme::Star
            } else if b == 47 {
                Lexeme::Slash
            } else if b == 40 {
                Lexeme::LParen
            } else if b == 41 {
                Lexeme::RParen
            } else {
                Lexeme::Semicolon
            };
            out.push(l);
            proof {
                if let Ok(rest) = lex_from(bs, i + 1) {
                    assert(out0 + (seq![l] + rest) =~= out@ + rest);
                }
            }
            i += 1;
        } else if b >= 48 && b <= 57 {
            let j = scan_digits(s, i);
            proof {
                lemma_digits_end(bs, i as int);
            }
            if j < s.len() && s[j] == 46 && j + 1 < s.len() && s[j + 1] >= 48 && s[j + 1] <= 57 {
                let k = scan_digits(s, j + 1);
                proof {
                    lemma_digits_end(bs, j + 1);
                }
                let l = Lexeme::Float(i, k);
                out.push(l);
                proof {
                    if let Ok(rest) = lex_from(bs, k as int) {
                        assert(out0 + (seq![l] + rest) =~= out@ + rest);
                    }
                }
                i = k;
            } else {
                match digits_to_int(s, i, j) {
                    Some(v) => {
                        let l = Lexeme::Int(v);
                        out.push(l);
                        proof {
                            if let Ok(rest) = lex_from(bs, j as int) {
                                assert(out0 + (seq![l] + rest) =~= out@ + rest);
                            }
                        }
                        i = j;
                    },
                    None => return Err(ParseError::IntegerOutOfRange(i)),
                }
            }
        } else {
            return Err(ParseError::UnexpectedChar(i));
        }
    }
    assert(out@ + Seq::<Lexeme>::empty() =~= out@);
    Ok(out)
}

/// The number of float literals among some tokens.
pub open spec fn count_floats(ls: Seq<Lexeme>) -> nat
    decreases ls.len(),
{
    if ls.len() == 0 {
        0
    } else {
        count_floats(ls.drop_last()) + if ls.last() is Float {
            1nat
        } else {
            0nat
        }
    }
}

/// The token for lexeme `i`: the `n`-th float literal takes the `n`-th supplied float value.
pub open spec fn resolve_one(ls: Seq<Lexeme>, floats: Seq<u32>, i: int) -> Token {
    match ls[i] {
        Lexeme::Int(n) => Token::Num(Val::Int(n)),
        Lexeme::Float(_, _) => Token::Num(Val::Float(floats[count_floats(ls.take(i)) as int])),
        Lexeme::Plus => Token::Plus,
        Lexeme::Minus => Token::Minus,
        Lexeme::Star => Token::Star,
        Lexeme::Slash => Token::Slash,
        Lexeme::LParen => Token::LParen,
        Lexeme::RParen => Token::RParen,
        Lexeme::Semicolon => Token::Semicolon,
    }
}

/// Gives every literal its value, or fails when float values run short.
pub open spec fn resolve_spec(ls: Seq<Lexeme>, floats: Seq<u32>) -> Result<Seq<Token>, ParseError> {
    if count_floats(ls) <= floats.len() {
        Ok(Seq::new(ls.len(), |i: int| resolve_one(ls, floats, i)))
    } else {
        Err(ParseError::MissingFloatValue)
    }
}

proof fn lemma_count_prefix(ls: Seq<Lexeme>, j: int)
    requires
        0 <= j <= ls.len(),
    ensures
        count_floats(ls.take(j)) <= count_floats(ls),
    decreases ls.len(),
{
    if j < ls.len() {
        assert(ls.drop_last().take(j) =~= ls.take(j));
        lemma_count_prefix(ls.drop_last(), j);
    } else {
        assert(ls.take(j) =~= ls);
    }
}

/// Replaces each literal by its value; float literals take the supplied values in order.
pub fn resolve(ls: &Vec<Lexeme>, floats: &Vec<u32>) -> (r: Result<Vec<Token>, ParseError>)
    ensures
        r matches Ok(v) ==> resolve_spec(ls@, floats@) == Ok::<Seq<Token>, ParseError>(v@),
        r matches Err(e) ==> resolve_spec(ls@, floats@) == Err::<Seq<Token>, ParseError>(e),
{
    let mut out: Vec<Token> = Vec::new();
    let mut k: usize = 0;
    let mut i: usize = 0;
    while i < ls.len()
        invariant
            i <= ls@.len(),
            k == count_floats(ls@.take(i as int)),
            k <= floats@.len(),
            out@ =~= Seq::new(i as nat, |j: int| resolve_one(ls@, floats@, j)),
        decreases ls@.len() - i,
    {
        assert(ls@.take(i + 1).drop_last() =~= ls@.take(i as int));
        let t = match ls[i] {
            Lexeme::Int(n) => Token::Num(Val::Int(n)),
            Lexeme::Float(_, _) => {
                if k >= floats.len() {
                    proof {
                        lemma_count_prefix(ls@, i + 1);
                    }
                    return Err(ParseError::MissingFloatValue);
                }
                let f = floats[k];
                k += 1;
                Token::Num(Val::Float(f))
            },
            Lexeme::Plus => Token::Plus,
            Lexeme::Minus => Token::Minus,
            Lexeme::Star => Token::Star,
            Lexeme::Slash => Token::Slash,
            Lexeme::LParen => Token::LParen,
            Lexeme::RParen => Token::RParen,
            Lexeme::Semicolon => Token::Semicolon,
        };
        out.push(t);
        i += 1;
    }
    assert(ls@.take(i as int) =~= ls@);
    Ok(out)
}

/// The error for a token the grammar cannot take at `i`.
pub open spec fn unexpected(t: Seq<Token>, i: int) -> ParseError {
    if 0 <= i < t.len() {
        ParseError::UnexpectedToken(i as usize)
    } else {
        ParseError::UnexpectedEnd
    }
}

/// An additive operator token, as an operator.
pub open spec fn additive(tok: Token) -> Option<Operator> {
    match tok {
        Token::Plus => Some(Operator::Plus),
        Token::Minus => Some(Operator::Minus),
        _ => None,
    }
}

/// A multiplicative operator token, as an operator.
pub open spec fn multiplicative(tok: Token) -> Option<Operator> {
    match tok {
        Token::Star => Some(Operator::Multiply),
        Token::Slash => Some(Operator::Divide),
        _ => None,
    }
}

/// `Expr := Term (("+" | "-") Term)*`, grouping to the left. The result is the
/// tree and the index of the first token after it.
pub open spec fn parse_expr(t: Seq<Token>, i: int) -> Result<(Node, int), ParseError>
    decreases t.len() - i, 3int,
{
    match parse_term(t, i) {
        Err(e) => Err(e),
        Ok((lhs, j)) => if i < j <= t.len() {
            expr_rest(t, j, lhs)
        } else {
            Err(unexpected(t, i))
        },
    }
}

/// The `(("+" | "-") Term)*` tail of an expression whose left part is `lhs`.
pub open spec fn expr_rest(t: Seq<Token>, i: int, lhs: Node) -> Result<(Node, int), ParseError>
    decreases t.len() - i, 2int,
{
    if 0 <= i < t.len() && additive(t[i]) is Some {
        match parse_term(t, i + 1) {
            Err(e) => Err(e),
            Ok((rhs, j)) => if i < j <= t.len() {
                expr_rest(
                    t,
                    j,
                    Node::BinaryExpr { op: additive(t[i])->0, lhs: Box::new(lhs), rhs: Box::new(rhs) },
                )
            } else {
                Err(unexpected(t, i))
            },
        }
    } else {
        Ok((lhs, i))
    }
}

/// `Term := Factor (("*" | "/") Factor)*`, grouping to the left.
pub open spec fn parse_term(t: Seq<Token>, i: int) -> Result<(Node, int), ParseError>
    decreases t.len() - i, 1int,
{
    match parse_factor(t, i) {
        Err(e) => Err(e),
        Ok((lhs, j)) => if i < j <= t.len() {
            term_rest(t, j, lhs)
        } else {
            Err(unexpected(t, i))
        },
    }
}

/// The `(("*" | "/") Factor)*` tail of a term whose left part is `lhs`.
pub open spec fn term_rest(t: Seq<Token>, i: int, lhs: Node) -> Result<(Node, int), ParseError>
    decreases t.len() - i, 1int,
{
    if 0 <= i < t.len() && multiplicative(t[i]) is Some {
        match parse_factor(t, i + 1) {
            Err(e) => Err(e),
            Ok((rhs, j)) => if i < j <= t.len() {
                term_rest(
                    t,
                    j,
                    Node::BinaryExpr {
                        op: multiplicative(t[i])->0,
                        lhs: Box::new(lhs),
                        rhs: Box::new(rhs),
                    },
                )
            } else {
                Err(unexpected(t, i))
            },
        }
    } else {
        Ok((lhs, i))
    }
}

/// `Factor := ("+" | "-") Factor | Number | "(" Expr ")"`.
pub open spec fn parse_factor(t: Seq<Token>, i: int) -> Result<(Node, int), ParseError>
    decreases t.len() - i, 0int,
{
    if i < 0 || i >= t.len() {
        Err(ParseError::UnexpectedEnd)
    } else {
        match t[i] {
            Token::Plus | Token::Minus => match parse_factor(t, i + 1) {
                Err(e) => Err(e),
                Ok((child, j)) => Ok(
                    (
                        Node::UnaryExpr { op: additive(t[i])->0, child: Box::new(child) },
                        j,
                    ),
                ),
            },
            Token::Num(v) => Ok((Node::Val(v), i + 1)),
            Token::LParen => match parse_expr(t, i + 1) {
                Err(e) => Err(e),
                Ok((e, j)) => if 0 <= j < t.len() && t[j] is RParen {
                    Ok((e, j + 1))
                } else {
                    Err(unexpected(t, j))
                },
            },
            _ => Err(ParseError::UnexpectedToken(i as usize)),
        }
    }
}

/// `Program := Expr (";" Expr)* ";"?`: the statements from token `i` on.
pub open spec fn program_from(t: Seq<Token>, i: int) -> Result<Seq<Node>, ParseError>
    decreases t.len() - i,
{
    match parse_expr(t, i) {
        Err(e) => Err(e),
        Ok((n, j)) => if j >= t.len() {
            Ok(seq![n])
        } else if 0 <= j && t[j] is Semicolon {
            if j + 1 >= t.len() {
                Ok(seq![n])
            } else if i < j + 1 {
                prepend(n, program_from(t, j + 1))
            } else {
                Err(unexpected(t, j))
            }
        } else {
            Err(unexpected(t, j))
        },
    }
}

/// The statements of a source text, float literals taking the supplied values in order.
pub open spec fn parse_spec(s: Seq<u8>, floats: Seq<u32>) -> Result<Seq<Node>, ParseError> {
    match lex_from(s, 0) {
        Err(e) => Err(e),
        Ok(ls) => match resolve_spec(ls, floats) {
            Err(e) => Err(e),
            Ok(t) => program_from(t, 0),
        },
    }
}

/// The byte spans of the float literals among some tokens, in order.
pub open spec fn float_spans(ls: Seq<Lexeme>) -> Seq<(usize, usize)>
    decreases ls.len(),
{
    if ls.len() == 0 {
        Seq::empty()
    } else {
        let before = float_spans(ls.drop_last());
        match ls.last() {
            Lexeme::Float(a, b) => before.push((a, b)),
            _ => before,
        }
    }
}

/// There is one span for each float literal.
pub proof fn lemma_spans_count(ls: Seq<Lexeme>)
    ensures
        float_spans(ls).len() == count_floats(ls),
    decreases ls.len(),
{
    if ls.len() > 0 {
        lemma_spans_count(ls.drop_last());
    }
}

/// The byte spans of the float literals of a source text, in order. The
/// caller turns the text of each into a float and passes the values to `parse`.
pub fn float_literal_spans(source: &str) -> (r: Result<Vec<(usize, usize)>, ParseError>)
    ensures
        r matches Ok(v) ==> lex_from(source.spec_bytes(), 0) is Ok && v@ == float_spans(
            lex_from(source.spec_bytes(), 0)->Ok_0,
        ),
        r matches Err(e) ==> lex_from(source.spec_bytes(), 0) == Err::<Seq<Lexeme>, ParseError>(e),
{
    let ls = match lex(source) {
        Ok(ls) => ls,
        Err(e) => return Err(e),
    };
    let mut out: Vec<(usize, usize)> = Vec::new();
    let mut i: usize = 0;
    while i < ls.len()
        invariant
            i <= ls@.len(),
            out@ == float_spans(ls@.take(i as int)),
        decreases ls@.len() - i,
    {
        assert(ls@.take(i + 1).drop_last() =~= ls@.take(i as int));
        if let Lexeme::Float(a, b) = ls[i] {
            out.push((a, b));
        }
        i += 1;
    }
    assert(ls@.take(i as int) =~= ls@);
    Ok(out)
}

fn expr(t: &Vec<Token>, i: usize) -> (r: Result<(Node, usize), ParseError>)
    requires
        i <= t@.len(),
    ensures
        r matches Ok((n, j)) ==> parse_expr(t@, i as int) == Ok::<(Node, int), ParseError>(
            (n, j as int),
        ) && i < j <= t@.len() && n.wf(),
        r matches Err(e) ==> parse_expr(t@, i as int) == Err::<(Node, int), ParseError>(e),
    decreases t@.len() - i, 3int,
{
    match term(t, i) {
        Err(e) => Err(e),
        Ok((lhs, j)) => expr_tail(t, j, lhs),
    }
}

fn expr_tail(t: &Vec<Token>, i: usize, lhs: Node) -> (r: Result<(Node, usize), ParseError>)
    requires
        i <= t@.len(),
        lhs.wf(),
    ensures
        r matches Ok((n, j)) ==> expr_rest(t@, i as int, lhs) == Ok::<(Node, int), ParseError>(
            (n, j as int),
        ) && i <= j <= t@.len() && n.wf(),
        r matches Err(e) ==> expr_rest(t@, i as int, lhs) == Err::<(Node, int), ParseError>(e),
    decreases t@.len() - i, 2int,
{
    if i < t.len() && (t[i] == Token::Plus || t[i] == Token::Minus) {
        let op = if t[i] == Token::Plus {
            Operator::Plus
        } else {
            Operator::Minus
        };
        match term(t, i + 1) {
            Err(e) => Err(e),
            Ok((rhs, j)) => expr_tail(
                t,
                j,
                Node::BinaryExpr { op, lhs: Box::new(lhs), rhs: Box::new(rhs) },
            ),
        }
    } else {
        Ok((lhs, i))
    }
}

fn term(t: &Vec<Token>, i: usize) -> (r: Result<(Node, usize), ParseError>)
    requires
        i <= t@.len(),
    ensures
        r matches Ok((n, j)) ==> parse_term(t@, i as int) == Ok::<(Node, int), ParseError>(
            (n, j as int),
        ) && i < j <= t@.len() && n.wf(),
        r matches Err(e) ==> parse_term(t@, i as int) == Err::<(Node, int), ParseError>(e),
    decreases t@.len() - i, 1int,
{
    match factor(t, i) {
        Err(e) => Err(e),
        Ok((lhs, j)) => term_tail(t, j, lhs),
    }
}

fn term_tail(t: &Vec<Token>, i: usize, lhs: Node) -> (r: Result<(Node, usize), ParseError>)
    requires
        i <= t@.len(),
        lhs.wf(),
    ensures
        r matches Ok((n, j)) ==> term_rest(t@, i as int, lhs) == Ok::<(Node, int), ParseError>(
            (n, j as int),
        ) && i <= j <= t@.len() && n.wf(),
        r matches Err(e) ==> term_rest(t@, i as int, lhs) == Err::<(Node, int), ParseError>(e),
    decreases t@.len() - i, 1int,
{
    if i < t.len() && (t[i] == Token::Star || t[i] == Token::Slash) {
        let op = if t[i] == Token::Star {
            Operator::Multiply
        } else {
            Operator::Divide
        };
        match factor(t, i + 1) {
            Err(e) => Err(e),
            Ok((rhs, j)) => term_tail(
                t,
                j,
                Node::BinaryExpr { op, lhs: Box::new(lhs), rhs: Box::new(rhs) },
            ),
        }
    } else {
        Ok((lhs, i))
    }
}

fn factor(t: &Vec<Token>, i: usize) -> (r: Result<(Node, usize), ParseError>)
    requires
        i <= t@.len(),
    ensures
        r matches Ok((n, j)) ==> parse_factor(t@, i as int) == Ok::<(Node, int), ParseError>(
            (n, j as int),
        ) && i < j <= t@.len() && n.wf(),
        r matches Err(e) ==> parse_factor(t@, i as int) == Err::<(Node, int), ParseError>(e),
    decreases t@.len() - i, 0int,
{
    if i >= t.len() {
        return Err(ParseError::UnexpectedEnd);
    }
    match t[i] {
        Token::Plus | Token::Minus => {
            let op = if t[i] == Token::Plus {
                Operator::Plus
            } else {
                Operator::Minus
            };
            match factor(t, i + 1) {
                Err(e) => Err(e),
                Ok((child, j)) => Ok((Node::UnaryExpr { op, child: Box::new(child) }, j)),
            }
        },
        Token::Num(v) => Ok((Node::Val(v), i + 1)),
        Token::LParen => match expr(t, i + 1) {
            Err(e) => Err(e),
            Ok((e, j)) => if j < t.len() && t[j] == Token::RParen {
                Ok((e, j + 1))
            } else if j < t.len() {
                Err(ParseError::UnexpectedToken(j))
            } else {
                Err(ParseError::UnexpectedEnd)
            },
        },
        _ => Err(ParseError::UnexpectedToken(i)),
    }
}

/// Parses a whole token sequence into its statements.
fn program(t: &Vec<Token>) -> (r: Result<Vec<Node>, ParseError>)
    ensures
        r matches Ok(v) ==> program_from(t@, 0) == Ok::<Seq<Node>, ParseError>(v@) && v@.len() > 0
            && forall|k: int| 0 <= k < v@.len() ==> (#[trigger] v@[k]).wf(),
        r matches Err(e) ==> program_from(t@, 0) == Err::<Seq<Node>, ParseError>(e),
{
    let mut out: Vec<Node> = Vec::new();
    let mut i: usize = 0;
    loop
        invariant
            i <= t@.len(),
            program_from(t@, 0) == match program_from(t@, i as int) {
                Ok(rest) => Ok(out@ + rest),
                Err(e) => Err::<Seq<Node>, ParseError>(e),
            },
            forall|k: int| 0 <= k < out@.len() ==> (#[trigger] out@[k]).wf(),
        decreases t@.len() - i,
    {
        let ghost out0 = out@;
        match expr(t, i) {
            Err(e) => return Err(e),
            Ok((n, j)) => {
                if j >= t.len() || (t[j] == Token::Semicolon && j + 1 >= t.len()) {
                    out.push(n);
                    assert(out0 + seq![n] =~= out@);
                    return Ok(out);
                } else if t[j] == Token::Semicolon {
                    out.push(n);
                    proof {
                        if let Ok(rest) = program_from(t@, j + 1) {
                            assert(out0 + (seq![n] + rest) =~= out@ + rest);
                        }
                    }
                    i = j + 1;
                } else {
                    return Err(ParseError::UnexpectedToken(j));
                }
            },
        }
    }
}

/// Parses a source text into its statements. `floats` holds the values of the
/// float literals, in the order in which `float_literal_spans` lists them.
pub fn parse(source: &str, floats: &Vec<u32>) -> (r: Result<Vec<Node>, ParseError>)
    ensures
        r matches Ok(v) ==> parse_spec(source.spec_bytes(), floats@) == Ok::<Seq<Node>, ParseError>(
            v@,
        ) && v@.len() > 0 && forall|k: int| 0 <= k < v@.len() ==> (#[trigger] v@[k]).wf(),
        r matches Err(e) ==> parse_spec(source.spec_bytes(), floats@) == Err::<Seq<Node>, ParseError>(
            e,
        ),
{
    let ls = match lex(source) {
        Ok(ls) => ls,
        Err(e) => return Err(e),
    };
    let t = match resolve(&ls, floats) {
        Ok(t) => t,
        Err(e) => return Err(e),
    };
    program(&t)
}

} // verus!
