//! The expression language of the table: `where=` narrows a cohort with clauses over metric
//! calls combined by `and`, `or`, `not` and parentheses (precedence parentheses > not > and >
//! or), `sort=` names one call, `metrics=` a list of calls. Parsing is syntactic only. A number
//! is kept as it is written; reading it as a value is left to the caller.
use vstd::prelude::*;
use vstd::utf8::{encode_scalar, encode_utf8};
use crate::text::{chars_of, string_from_chars};

verus! {

broadcast use {vstd::string::group_string_axioms, vstd::utf8::group_utf8_lib};

/// The longest input, in bytes.
pub const MAX_INPUT_BYTES: usize = 2048;
/// How deep parentheses and `not` may nest.
pub const MAX_DEPTH: u8 = 16;
/// How many clauses one expression may hold.
pub const MAX_CLAUSES: usize = 32;
/// How many values one list may hold.
pub const MAX_LIST_ITEMS: usize = 64;

/// A comparison or membership operator.
#[derive(Debug, Clone, Copy, PartialEq, Eq, Structural)]
pub enum Op {
    Eq,
    Ne,
    Lt,
    Le,
    Gt,
    Ge,
    In,
    NotIn,
}

impl Op {
    /// Whether the operator tests membership in a list.
    pub fn is_membership(self) -> (res: bool)
        ensures
            res == (self == Op::In || self == Op::NotIn),
    {
        match self {
            Op::In | Op::NotIn => true,
            _ => false,
        }
    }
}

/// Why an input does not parse.
#[derive(Debug, Clone, Copy, PartialEq, Eq, Structural)]
pub enum Problem {
    TooLong,
    Unterminated,
    BadNumber,
    UnexpectedChar,
    NestedTooDeeply,
    TooManyClauses,
    TooManyValues,
    ExpectedClose,
    ExpectedOpen,
    ExpectedOperator,
    ExpectedValue,
    ExpectedInAfterNot,
    ExpectedMetric,
    ExpectedCommaOrClose,
    UnexpectedInput,
}

/// The message of a problem.
pub open spec fn problem_text(p: Problem) -> Seq<char> {
    match p {
        Problem::TooLong => "expression too long"@,
        Problem::Unterminated => "unterminated string"@,
        Problem::BadNumber => "bad number"@,
        Problem::UnexpectedChar => "unexpected character"@,
        Problem::NestedTooDeeply => "nested too deeply"@,
        Problem::TooManyClauses => "too many clauses"@,
        Problem::TooManyValues => "too many values"@,
        Problem::ExpectedClose => "expected )"@,
        Problem::ExpectedOpen => "expected ("@,
        Problem::ExpectedOperator => "expected an operator"@,
        Problem::ExpectedValue => "expected a value"@,
        Problem::ExpectedInAfterNot => "expected in after not"@,
        Problem::ExpectedMetric => "expected a metric"@,
        Problem::ExpectedCommaOrClose => "expected , or )"@,
        Problem::UnexpectedInput => "unexpected input"@,
    }
}

impl Problem {
    /// The message of the problem.
    pub fn text(self) -> (res: &'static str)
        ensures
            res@ == problem_text(self),
    {
        match self {
            Problem::TooLong => "expression too long",
            Problem::Unterminated => "unterminated string",
            Problem::BadNumber => "bad number",
            Problem::UnexpectedChar => "unexpected character",
            Problem::NestedTooDeeply => "nested too deeply",
            Problem::TooManyClauses => "too many clauses",
            Problem::TooManyValues => "too many values",
            Problem::ExpectedClose => "expected )",
            Problem::ExpectedOpen => "expected (",
            Problem::ExpectedOperator => "expected an operator",
            Problem::ExpectedValue => "expected a value",
            Problem::ExpectedInAfterNot => "expected in after not",
            Problem::ExpectedMetric => "expected a metric",
            Problem::ExpectedCommaOrClose => "expected , or )",
            Problem::UnexpectedInput => "unexpected input",
        }
    }
}

/// A parse failure: the character position where it was found, and its message.
#[derive(Debug, Clone, PartialEq)]
pub struct ParseError {
    pub at: usize,
    pub msg: &'static str,
}

/// The error of a problem at a character position.
pub open spec fn is_error(e: ParseError, at: int, p: Problem) -> bool {
    e.at == at && e.msg@ == problem_text(p)
}

pub(crate) fn error(at: usize, p: Problem) -> (res: ParseError)
    ensures
        is_error(res, at as int, p),
{
    ParseError { at, msg: p.text() }
}

/// A token as text.
pub enum TokenV {
    Ident(Seq<char>),
    Num(Seq<char>),
    Str(Seq<char>),
    LParen,
    RParen,
    Comma,
    Op(Op),
    And,
    Or,
    Not,
    In,
}

/// A token of the language: a word, a number as written, a quoted text, punctuation, an
/// operator or a keyword.
#[derive(Debug, Clone, PartialEq)]
pub enum Token {
    Ident(String),
    Num(String),
    Str(String),
    LParen,
    RParen,
    Comma,
    Op(Op),
    And,
    Or,
    Not,
    In,
}

impl View for Token {
    type V = TokenV;

    open spec fn view(&self) -> TokenV {
        match self {
            Token::Ident(s) => TokenV::Ident(s@),
            Token::Num(s) => TokenV::Num(s@),
            Token::Str(s) => TokenV::Str(s@),
            Token::LParen => TokenV::LParen,
            Token::RParen => TokenV::RParen,
            Token::Comma => TokenV::Comma,
            Token::Op(o) => TokenV::Op(*o),
            Token::And => TokenV::And,
            Token::Or => TokenV::Or,
            Token::Not => TokenV::Not,
            Token::In => TokenV::In,
        }
    }
}

/* The lexer, over the characters of the input. */

pub open spec fn is_space(c: char) -> bool {
    c == ' ' || c == '\t' || c == '\n' || c == '\r'
}

pub open spec fn is_digit(c: char) -> bool {
    '0' <= c <= '9'
}

pub open spec fn is_alpha(c: char) -> bool {
    ('a' <= c <= 'z') || ('A' <= c <= 'Z')
}

/// A character that continues a word: a letter, a digit, `_` or `-`.
pub open spec fn is_word_char(c: char) -> bool {
    is_alpha(c) || is_digit(c) || c == '_' || c == '-'
}

/// A number starts at `i`: a digit or a dot, or a minus sign before one.
pub open spec fn number_starts(cs: Seq<char>, i: int) -> bool {
    ||| is_digit(cs[i]) || cs[i] == '.'
    ||| cs[i] == '-' && i + 1 < cs.len() && (is_digit(cs[i + 1]) || cs[i + 1] == '.')
}

/// Where the run of digits and dots from `i` ends.
pub open spec fn mantissa_end(cs: Seq<char>, i: int) -> int
    decreases cs.len() - i,
{
    if 0 <= i < cs.len() && (is_digit(cs[i]) || cs[i] == '.') {
        mantissa_end(cs, i + 1)
    } else {
        i
    }
}

/// Where the run of digits from `i` ends.
pub open spec fn digits_end(cs: Seq<char>, i: int) -> int
    decreases cs.len() - i,
{
    if 0 <= i < cs.len() && is_digit(cs[i]) {
        digits_end(cs, i + 1)
    } else {
        i
    }
}

/// Where the mantissa of the number that starts at `i` begins: after its sign.
pub open spec fn mantissa_start(cs: Seq<char>, i: int) -> int {
    if cs[i] == '-' { i + 1 } else { i }
}

/// Where the number that starts at `i` ends: an optional sign, digits and dots, and an exponent
/// where one with digits follows.
pub open spec fn number_end(cs: Seq<char>, i: int) -> int {
    let m = mantissa_end(cs, mantissa_start(cs, i));
    if m < cs.len() && (cs[m] == 'e' || cs[m] == 'E') {
        let j = if m + 1 < cs.len() && (cs[m + 1] == '-' || cs[m + 1] == '+') { m + 2 } else { m + 1 };
        if j < cs.len() && is_digit(cs[j]) {
            digits_end(cs, j)
        } else {
            m
        }
    } else {
        m
    }
}

/// How many dots a text holds.
pub open spec fn dots(m: Seq<char>) -> nat
    decreases m.len(),
{
    if m.len() == 0 {
        0
    } else {
        dots(m.drop_last()) + if m.last() == '.' { 1nat } else { 0nat }
    }
}

/// How many digits a text holds.
pub open spec fn digit_count(m: Seq<char>) -> nat
    decreases m.len(),
{
    if m.len() == 0 {
        0
    } else {
        digit_count(m.drop_last()) + if is_digit(m.last()) { 1nat } else { 0nat }
    }
}

/// A mantissa reads as a number: at most one dot and at least one digit.
pub open spec fn readable_mantissa(m: Seq<char>) -> bool {
    dots(m) <= 1 && digit_count(m) >= 1
}

/// Where the word that goes on at `i` ends.
pub open spec fn word_end(cs: Seq<char>, i: int) -> int
    decreases cs.len() - i,
{
    if 0 <= i < cs.len() && is_word_char(cs[i]) {
        word_end(cs, i + 1)
    } else {
        i
    }
}

/// An ASCII letter in lower case; any other character as it is.
pub open spec fn ascii_lower(c: char) -> char {
    if 'A' <= c <= 'Z' { ((c as u32) + 32) as char } else { c }
}

/// The word is the keyword `k`, whatever the case of its letters.
pub open spec fn word_is(w: Seq<char>, k: Seq<char>) -> bool {
    w.len() == k.len() && forall|i: int| 0 <= i < w.len() ==> ascii_lower(#[trigger] w[i]) == k[i]
}

/// The token a word makes.
pub open spec fn word_token(w: Seq<char>) -> TokenV {
    if word_is(w, "and"@) {
        TokenV::And
    } else if word_is(w, "or"@) {
        TokenV::Or
    } else if word_is(w, "not"@) {
        TokenV::Not
    } else if word_is(w, "in"@) {
        TokenV::In
    } else {
        TokenV::Ident(w)
    }
}

/// A quoted text from `i`, just after its opening quote: its characters, a backslash naming the
/// character after it, and where the text ends after its closing quote; nothing where the
/// input ends first.
pub open spec fn scan_string(cs: Seq<char>, i: int, quote: char) -> Option<(Seq<char>, int)>
    decreases cs.len() - i,
{
    if i < 0 || i >= cs.len() {
        None
    } else if cs[i] == quote {
        Some((Seq::empty(), i + 1))
    } else {
        let j = if cs[i] == '\\' { i + 1 } else { i };
        if j >= cs.len() {
            None
        } else {
            match scan_string(cs, j + 1, quote) {
                Some((t, e)) => Some((seq![cs[j]] + t, e)),
                None => None,
            }
        }
    }
}

/// The token that starts at `i`, which is not a space, and where it ends; or why none does.
pub open spec fn lex_step(cs: Seq<char>, i: int) -> Result<(TokenV, int), Problem> {
    let c = cs[i];
    let next_eq = i + 1 < cs.len() && cs[i + 1] == '=';
    if c == '(' {
        Ok((TokenV::LParen, i + 1))
    } else if c == ')' {
        Ok((TokenV::RParen, i + 1))
    } else if c == ',' {
        Ok((TokenV::Comma, i + 1))
    } else if c == '=' {
        Ok((TokenV::Op(Op::Eq), i + 1))
    } else if c == '!' && next_eq {
        Ok((TokenV::Op(Op::Ne), i + 2))
    } else if c == '<' {
        if next_eq { Ok((TokenV::Op(Op::Le), i + 2)) } else { Ok((TokenV::Op(Op::Lt), i + 1)) }
    } else if c == '>' {
        if next_eq { Ok((TokenV::Op(Op::Ge), i + 2)) } else { Ok((TokenV::Op(Op::Gt), i + 1)) }
    } else if c == '"' || c == '\'' {
        match scan_string(cs, i + 1, c) {
            Some((t, e)) => Ok((TokenV::Str(t), e)),
            None => Err(Problem::Unterminated),
        }
    } else if number_starts(cs, i) {
        let e = number_end(cs, i);
        let ms = mantissa_start(cs, i);
        if readable_mantissa(cs.subrange(ms, mantissa_end(cs, ms))) {
            Ok((TokenV::Num(cs.subrange(i, e)), e))
        } else {
            Err(Problem::BadNumber)
        }
    } else if is_alpha(c) || c == '_' {
        let e = word_end(cs, i + 1);
        Ok((word_token(cs.subrange(i, e)), e))
    } else {
        Err(Problem::UnexpectedChar)
    }
}

/// The tokens of the input from `i` on, each with the position where it starts; or the first
/// problem, with its position.
pub open spec fn lex(cs: Seq<char>, i: int) -> Result<Seq<(int, TokenV)>, (int, Problem)>
    decreases cs.len() - i,
{
    if i < 0 || i >= cs.len() {
        Ok(Seq::empty())
    } else if is_space(cs[i]) {
        lex(cs, i + 1)
    } else {
        match lex_step(cs, i) {
            Ok((t, e)) => {
                if i < e <= cs.len() {
                    match lex(cs, e) {
                        Ok(rest) => Ok(seq![(i, t)] + rest),
                        Err(x) => Err(x),
                    }
                } else {
                    Err((i, Problem::UnexpectedChar))
                }
            },
            Err(p) => Err((i, p)),
        }
    }
}

/// The positions and views of tokens.
pub open spec fn tokens_view(ts: Seq<(usize, Token)>) -> Seq<(int, TokenV)> {
    ts.map_values(|p: (usize, Token)| (p.0 as int, p.1@))
}

pub proof fn lemma_mantissa_end(cs: Seq<char>, i: int)
    requires
        0 <= i <= cs.len(),
    ensures
        i <= mantissa_end(cs, i) <= cs.len(),
        forall|k: int| i <= k < mantissa_end(cs, i) ==> is_digit(#[trigger] cs[k]) || cs[k] == '.',
        mantissa_end(cs, i) < cs.len() ==> !(is_digit(cs[mantissa_end(cs, i)]) || cs[mantissa_end(cs, i)] == '.'),
    decreases cs.len() - i,
{
    if i < cs.len() && (is_digit(cs[i]) || cs[i] == '.') {
        lemma_mantissa_end(cs, i + 1);
    }
}

pub proof fn lemma_digits_end(cs: Seq<char>, i: int)
    requires
        0 <= i <= cs.len(),
    ensures
        i <= digits_end(cs, i) <= cs.len(),
        forall|k: int| i <= k < digits_end(cs, i) ==> is_digit(#[trigger] cs[k]),
        digits_end(cs, i) < cs.len() ==> !is_digit(cs[digits_end(cs, i)]),
    decreases cs.len() - i,
{
    if i < cs.len() && is_digit(cs[i]) {
        lemma_digits_end(cs, i + 1);
    }
}

pub proof fn lemma_word_end(cs: Seq<char>, i: int)
    requires
        0 <= i <= cs.len(),
    ensures
        i <= word_end(cs, i) <= cs.len(),
        forall|k: int| i <= k < word_end(cs, i) ==> is_word_char(#[trigger] cs[k]),
        word_end(cs, i) < cs.len() ==> !is_word_char(cs[word_end(cs, i)]),
    decreases cs.len() - i,
{
    if i < cs.len() && is_word_char(cs[i]) {
        lemma_word_end(cs, i + 1);
    }
}

proof fn lemma_scan_string_end(cs: Seq<char>, i: int, quote: char)
    requires
        0 <= i,
    ensures
        scan_string(cs, i, quote) matches Some((t, e)) ==> i < e <= cs.len(),
    decreases cs.len() - i,
{
    if 0 <= i < cs.len() && cs[i] != quote {
        let j = if cs[i] == '\\' { i + 1 } else { i };
        if j < cs.len() {
            lemma_scan_string_end(cs, j + 1, quote);
        }
    }
}

/// A token ends after it starts, and within the input.
proof fn lemma_lex_step_end(cs: Seq<char>, i: int)
    requires
        0 <= i < cs.len(),
    ensures
        lex_step(cs, i) matches Ok((t, e)) ==> i < e <= cs.len(),
{
    let c = cs[i];
    if c == '"' || c == '\'' {
        lemma_scan_string_end(cs, i + 1, c);
    } else if number_starts(cs, i) {
        let ms = mantissa_start(cs, i);
        lemma_mantissa_end(cs, ms);
        let m = mantissa_end(cs, ms);
        if m < cs.len() && (cs[m] == 'e' || cs[m] == 'E') {
            let j = if m + 1 < cs.len() && (cs[m + 1] == '-' || cs[m + 1] == '+') { m + 2 } else { m + 1 };
            if j < cs.len() && is_digit(cs[j]) {
                lemma_digits_end(cs, j);
            }
        }
    } else if is_alpha(c) || c == '_' {
        lemma_word_end(cs, i + 1);
    }
}

fn is_digit_exec(c: char) -> (res: bool)
    ensures
        res == is_digit(c),
{
    '0' <= c && c <= '9'
}

pub(crate) fn is_alpha_exec(c: char) -> (res: bool)
    ensures
        res == is_alpha(c),
{
    ('a' <= c && c <= 'z') || ('A' <= c && c <= 'Z')
}

pub(crate) fn is_word_char_exec(c: char) -> (res: bool)
    ensures
        res == is_word_char(c),
{
    is_alpha_exec(c) || is_digit_exec(c) || c == '_' || c == '-'
}

fn ascii_lower_exec(c: char) -> (res: char)
    ensures
        res == ascii_lower(c),
{
    if 'A' <= c && c <= 'Z' {
        let u = (c as u32) + 32;
        proof {
            assert(0x61 <= u <= 0x7a);
        }
        char_from_ascii(u)
    } else {
        c
    }
}

/// The character of an ASCII code.
fn char_from_ascii(u: u32) -> (res: char)
    requires
        u < 0x80,
    ensures
        res == u as char,
{
    let b = u as u8;
    b as char
}

/// Whether the word, from `start` to `end`, is the keyword `k`, whatever the case.
pub(crate) fn word_is_exec(cs: &Vec<char>, start: usize, end: usize, k: &str) -> (res: bool)
    requires
        start <= end <= cs@.len(),
    ensures
        res == word_is(cs@.subrange(start as int, end as int), k@),
{
    let kc = chars_of(k);
    let ghost w = cs@.subrange(start as int, end as int);
    if end - start != kc.len() {
        return false;
    }
    let mut i: usize = 0;
    while i < kc.len()
        invariant
            kc@ == k@,
            w == cs@.subrange(start as int, end as int),
            start <= end <= cs@.len(),
            end - start == kc@.len(),
            i <= kc@.len(),
            forall|q: int| 0 <= q < i ==> ascii_lower(#[trigger] w[q]) == kc@[q],
        decreases kc@.len() - i,
    {
        if ascii_lower_exec(cs[start + i]) != kc[i] {
            proof {
                assert(w[i as int] == cs@[start + i]);
            }
            return false;
        }
        proof {
            assert(w[i as int] == cs@[start + i]);
        }
        i += 1;
    }
    true
}

/// The characters from `start` to `end` as a text.
fn text_between(cs: &Vec<char>, start: usize, end: usize) -> (res: String)
    requires
        start <= end <= cs@.len(),
    ensures
        res@ == cs@.subrange(start as int, end as int),
{
    let mut out: Vec<char> = Vec::new();
    let mut i = start;
    while i < end
        invariant
            start <= i <= end <= cs@.len(),
            out@ == cs@.subrange(start as int, i as int),
        decreases end - i,
    {
        out.push(cs[i]);
        proof {
            assert(out@ =~= cs@.subrange(start as int, i + 1));
        }
        i += 1;
    }
    string_from_chars(&out)
}

/// A quoted text from `i`, just after its opening quote.
fn scan_string_exec(cs: &Vec<char>, i: usize, quote: char) -> (res: Option<(String, usize)>)
    requires
        i <= cs@.len(),
    ensures
        match res {
            Some((t, e)) => scan_string(cs@, i as int, quote) == Some((t@, e as int)),
            None => scan_string(cs@, i as int, quote) is None,
        },
{
    let ghost n = cs@.len() as int;
    let mut out: Vec<char> = Vec::new();
    let mut j = i;
    // scan_string(cs, i) is out + scan_string(cs, j), text-wise
    while j < cs.len() && cs[j] != quote
        invariant
            i <= j <= cs@.len(),
            n == cs@.len(),
            forall|t: Seq<char>, e: int| #![auto] scan_string(cs@, j as int, quote) == Some((t, e)) ==>
                scan_string(cs@, i as int, quote) == Some((out@ + t, e)),
            scan_string(cs@, j as int, quote) is None ==> scan_string(cs@, i as int, quote) is None,
        decreases cs@.len() - j,
    {
        let k = if cs[j] == '\\' {
            j + 1
        } else {
            j
        };
        if k >= cs.len() {
            return None;
        }
        let ghost before = out@;
        let ghost jj = j as int;
        out.push(cs[k]);
        j = k + 1;
        proof {
            assert forall|t: Seq<char>, e: int| #![auto] scan_string(cs@, j as int, quote) == Some((t, e)) implies
                scan_string(cs@, i as int, quote) == Some((out@ + t, e)) by {
                assert(scan_string(cs@, jj, quote) == Some((seq![cs@[k as int]] + t, e)));
                assert(before + (seq![cs@[k as int]] + t) =~= out@ + t);
            }
        }
    }
    if j >= cs.len() {
        return None;
    }
    proof {
        assert(out@ + Seq::<char>::empty() =~= out@);
    }
    Some((string_from_chars(&out), j + 1))
}

/// The end of the run of digits and dots from `i`, with how many dots and digits it holds.
fn scan_mantissa(cs: &Vec<char>, i: usize) -> (res: (usize, usize, usize))
    requires
        i <= cs@.len(),
    ensures
        res.0 == mantissa_end(cs@, i as int),
        res.1 == dots(cs@.subrange(i as int, res.0 as int)),
        res.2 == digit_count(cs@.subrange(i as int, res.0 as int)),
{
    let mut j = i;
    let mut nd: usize = 0;
    let mut ng: usize = 0;
    proof {
        assert(cs@.subrange(i as int, i as int) =~= Seq::<char>::empty());
    }
    while j < cs.len() && (is_digit_exec(cs[j]) || cs[j] == '.')
        invariant
            i <= j <= cs@.len(),
            mantissa_end(cs@, j as int) == mantissa_end(cs@, i as int),
            nd == dots(cs@.subrange(i as int, j as int)),
            ng == digit_count(cs@.subrange(i as int, j as int)),
            nd <= j - i,
            ng <= j - i,
        decreases cs@.len() - j,
    {
        proof {
            let p = cs@.subrange(i as int, j + 1);
            assert(p.drop_last() =~= cs@.subrange(i as int, j as int));
            assert(p.last() == cs@[j as int]);
        }
        if cs[j] == '.' {
            nd += 1;
        } else {
            ng += 1;
        }
        j += 1;
    }
    (j, nd, ng)
}

/// The end of the run of digits from `i`.
fn scan_digits(cs: &Vec<char>, i: usize) -> (res: usize)
    requires
        i <= cs@.len(),
    ensures
        res == digits_end(cs@, i as int),
{
    let mut j = i;
    while j < cs.len() && is_digit_exec(cs[j])
        invariant
            i <= j <= cs@.len(),
            digits_end(cs@, j as int) == digits_end(cs@, i as int),
        decreases cs@.len() - j,
    {
        j += 1;
    }
    j
}

/// The end of the word that goes on at `i`.
fn scan_word(cs: &Vec<char>, i: usize) -> (res: usize)
    requires
        i <= cs@.len(),
    ensures
        res == word_end(cs@, i as int),
{
    let mut j = i;
    while j < cs.len() && is_word_char_exec(cs[j])
        invariant
            i <= j <= cs@.len(),
            word_end(cs@, j as int) == word_end(cs@, i as int),
        decreases cs@.len() - j,
    {
        j += 1;
    }
    j
}

/// The token that starts at `i`, and where it ends.
fn lex_step_exec(cs: &Vec<char>, i: usize) -> (res: Result<(Token, usize), Problem>)
    requires
        i < cs@.len(),
    ensures
        match res {
            Ok((t, e)) => lex_step(cs@, i as int) == Ok::<(TokenV, int), Problem>((t@, e as int)),
            Err(p) => lex_step(cs@, i as int) == Err::<(TokenV, int), Problem>(p),
        },
{
    let c = cs[i];
    let n = cs.len();
    let next_eq = i + 1 < n && cs[i + 1] == '=';
    if c == '(' {
        Ok((Token::LParen, i + 1))
    } else if c == ')' {
        Ok((Token::RParen, i + 1))
    } else if c == ',' {
        Ok((Token::Comma, i + 1))
    } else if c == '=' {
        Ok((Token::Op(Op::Eq), i + 1))
    } else if c == '!' && next_eq {
        Ok((Token::Op(Op::Ne), i + 2))
    } else if c == '<' {
        if next_eq {
            Ok((Token::Op(Op::Le), i + 2))
        } else {
            Ok((Token::Op(Op::Lt), i + 1))
        }
    } else if c == '>' {
        if next_eq {
            Ok((Token::Op(Op::Ge), i + 2))
        } else {
            Ok((Token::Op(Op::Gt), i + 1))
        }
    } else if c == '"' || c == '\'' {
        match scan_string_exec(cs, i + 1, c) {
            Some((t, e)) => Ok((Token::Str(t), e)),
            None => Err(Problem::Unterminated),
        }
    } else if is_digit_exec(c) || c == '.' || (c == '-' && i + 1 < cs.len() && (is_digit_exec(cs[i + 1]) || cs[i + 1] == '.')) {
        let ms = if c == '-' {
            i + 1
        } else {
            i
        };
        let (m, nd, ng) = scan_mantissa(cs, ms);
        proof {
            lemma_mantissa_end(cs@, ms as int);
        }
        let mut e = m;
        if m < cs.len() && (cs[m] == 'e' || cs[m] == 'E') {
            let j = if m + 1 < cs.len() && (cs[m + 1] == '-' || cs[m + 1] == '+') {
                m + 2
            } else {
                m + 1
            };
            if j < cs.len() && is_digit_exec(cs[j]) {
                e = scan_digits(cs, j);
                proof {
                    lemma_digits_end(cs@, j as int);
                }
            }
        }
        if nd <= 1 && ng >= 1 {
            Ok((Token::Num(text_between(cs, i, e)), e))
        } else {
            Err(Problem::BadNumber)
        }
    } else if is_alpha_exec(c) || c == '_' {
        let e = scan_word(cs, i + 1);
        proof {
            lemma_word_end(cs@, i + 1);
        }
        let tok = if word_is_exec(cs, i, e, "and") {
            Token::And
        } else if word_is_exec(cs, i, e, "or") {
            Token::Or
        } else if word_is_exec(cs, i, e, "not") {
            Token::Not
        } else if word_is_exec(cs, i, e, "in") {
            Token::In
        } else {
            Token::Ident(text_between(cs, i, e))
        };
        Ok((tok, e))
    } else {
        Err(Problem::UnexpectedChar)
    }
}

/// The tokens of a text, each with the character position where it starts; or the first
/// problem, with its position.
pub fn tokens_at_chars(s: &str) -> (res: Result<Vec<(usize, Token)>, ParseError>)
    ensures
        match res {
            Ok(ts) => lex(s@, 0) == Ok::<Seq<(int, TokenV)>, (int, Problem)>(tokens_view(ts@)),
            Err(e) => lex(s@, 0) matches Err((at, p)) && is_error(e, at, p),
        },
{
    let cs = chars_of(s);
    tokenize_chars(&cs)
}

/// The byte offset in the UTF-8 text where its `k`-th character starts.
pub open spec fn byte_offset(s: Seq<char>, k: int) -> int {
    encode_utf8(s.take(k)).len() as int
}

proof fn lemma_encode_utf8_push(s: Seq<char>, c: char)
    ensures
        encode_utf8(s.push(c)) == encode_utf8(s) + encode_scalar(c as u32),
    decreases s.len(),
{
    if s.len() == 0 {
        assert(s.push(c) =~= seq![c]);
        assert(seq![c].drop_first() =~= Seq::<char>::empty());
        assert(encode_utf8(seq![c]) =~= encode_scalar(c as u32) + encode_utf8(Seq::<char>::empty()));
        assert(encode_utf8(s) =~= Seq::<u8>::empty());
        assert(encode_scalar(c as u32) + Seq::<u8>::empty() =~= encode_scalar(c as u32));
        assert(Seq::<u8>::empty() + encode_scalar(c as u32) =~= encode_scalar(c as u32));
    } else {
        lemma_encode_utf8_push(s.drop_first(), c);
        assert(s.push(c).drop_first() =~= s.drop_first().push(c));
        assert(s.push(c)[0] == s[0]);
        assert(encode_scalar(s[0] as u32) + (encode_utf8(s.drop_first()) + encode_scalar(c as u32))
            =~= (encode_scalar(s[0] as u32) + encode_utf8(s.drop_first())) + encode_scalar(c as u32));
    }
}

proof fn lemma_lex_positions(cs: Seq<char>, i: int)
    ensures
        lex(cs, i) matches Ok(tv) ==> forall|j: int| 0 <= j < tv.len() ==> i <= (#[trigger] tv[j]).0 < cs.len(),
    decreases cs.len() - i,
{
    if 0 <= i < cs.len() {
        if is_space(cs[i]) {
            lemma_lex_positions(cs, i + 1);
        } else {
            match lex_step(cs, i) {
                Ok((t, e)) => {
                    if i < e <= cs.len() {
                        lemma_lex_positions(cs, e);
                        if lex(cs, e) is Ok {
                            let rest = lex(cs, e)->Ok_0;
                            let tv = seq![(i, t)] + rest;
                            assert forall|j: int| 0 <= j < tv.len() implies i <= (#[trigger] tv[j]).0 < cs.len() by {
                                if j > 0 {
                                    assert(tv[j] == rest[j - 1]);
                                }
                            }
                        }
                    }
                },
                Err(_) => {},
            }
        }
    }
}

/// The number of UTF-8 bytes of a character.
fn utf8_width(c: char) -> (res: usize)
    ensures
        res == encode_scalar(c as u32).len(),
{
    let v = c as u32;
    if v < 0x80 {
        1
    } else if v < 0x800 {
        2
    } else if v < 0x10000 {
        3
    } else {
        4
    }
}

/// The byte offset where character `k` starts.
fn byte_offset_exec(cs: &Vec<char>, k: usize) -> (res: usize)
    requires
        k <= cs@.len(),
        encode_utf8(cs@).len() <= usize::MAX,
    ensures
        res == byte_offset(cs@, k as int),
{
    let mut b: usize = 0;
    let mut i: usize = 0;
    proof {
        assert(cs@.take(0) =~= Seq::<char>::empty());
    }
    while i < k
        invariant
            i <= k <= cs@.len(),
            encode_utf8(cs@).len() <= usize::MAX,
            b == encode_utf8(cs@.take(i as int)).len(),
        decreases k - i,
    {
        let w = utf8_width(cs[i]);
        proof {
            assert(cs@.take(i + 1) =~= cs@.take(i as int).push(cs@[i as int]));
            lemma_encode_utf8_push(cs@.take(i as int), cs@[i as int]);
            lemma_encode_prefix_len(cs@, i + 1);
        }
        b = b + w;
        i += 1;
    }
    b
}

proof fn lemma_encode_prefix_len(s: Seq<char>, k: int)
    requires
        0 <= k <= s.len(),
    ensures
        encode_utf8(s.take(k)).len() <= encode_utf8(s).len(),
    decreases s.len() - k,
{
    if k < s.len() {
        lemma_encode_prefix_len(s, k + 1);
        assert(s.take(k + 1) =~= s.take(k).push(s[k]));
        lemma_encode_utf8_push(s.take(k), s[k]);
    } else {
        assert(s.take(k) =~= s);
    }
}

/// The tokens of a text, each with the byte offset where it starts; or the first problem,
/// with the character position where it lies.
pub fn tokenize(s: &str) -> (res: Result<Vec<(usize, Token)>, ParseError>)
    ensures
        match res {
            Ok(ts) => lex(s@, 0) matches Ok(tv) && ts@.len() == tv.len() && forall|i: int|
                0 <= i < tv.len() ==> (#[trigger] ts@[i]).0 == byte_offset(s@, tv[i].0) && ts@[i].1@ == tv[i].1,
            Err(e) => lex(s@, 0) matches Err((at, p)) && is_error(e, at, p),
        },
{
    let cs = chars_of(s);
    match tokenize_chars(&cs) {
        Err(e) => Err(e),
        Ok(ts) => {
            let bytes = s.as_bytes();
            let _n = bytes.len();
            proof {
                lemma_lex_positions(cs@, 0);
            }
            let ghost all = ts@;
            let mut rest = ts;
            let mut out: Vec<(usize, Token)> = Vec::new();
            while rest.len() > 0
                invariant
                    cs@ == s@,
                    encode_utf8(cs@).len() <= usize::MAX,
                    lex(cs@, 0) == Ok::<Seq<(int, TokenV)>, (int, Problem)>(tokens_view(all)),
                    forall|j: int| 0 <= j < all.len() ==> 0 <= (#[trigger] tokens_view(all)[j]).0 < cs@.len(),
                    out@.len() + rest@.len() == all.len(),
                    rest@ == all.subrange(out@.len() as int, all.len() as int),
                    forall|j: int| 0 <= j < out@.len() ==> (#[trigger] out@[j]).0 == byte_offset(s@, all[j].0 as int) && out@[j].1 == all[j].1,
                decreases rest@.len(),
            {
                let ghost k = out@.len() as int;
                let (p, t) = rest.remove(0);
                proof {
                    assert(all[k] == (p, t));
                    assert(tokens_view(all)[k].0 == p as int);
                    assert(rest@ =~= all.subrange(k + 1, all.len() as int));
                }
                let b = byte_offset_exec(&cs, p);
                out.push((b, t));
            }
            proof {
                assert forall|i: int| 0 <= i < tokens_view(all).len() implies (#[trigger] out@[i]).0 == byte_offset(s@, tokens_view(all)[i].0) && out@[i].1@ == tokens_view(all)[i].1 by {
                    assert(tokens_view(all)[i] == (all[i].0 as int, all[i].1@));
                }
            }
            Ok(out)
        },
    }
}

pub(crate) fn tokenize_chars(cs: &Vec<char>) -> (res: Result<Vec<(usize, Token)>, ParseError>)
    ensures
        match res {
            Ok(ts) => lex(cs@, 0) == Ok::<Seq<(int, TokenV)>, (int, Problem)>(tokens_view(ts@)),
            Err(e) => lex(cs@, 0) matches Err((at, p)) && is_error(e, at, p),
        },
{
    let mut out: Vec<(usize, Token)> = Vec::new();
    let mut i: usize = 0;
    while i < cs.len()
        invariant
            i <= cs@.len(),
            forall|rest: Seq<(int, TokenV)>| #![auto] lex(cs@, i as int) == Ok::<Seq<(int, TokenV)>, (int, Problem)>(rest) ==>
                lex(cs@, 0) == Ok::<Seq<(int, TokenV)>, (int, Problem)>(tokens_view(out@) + rest),
            forall|x: (int, Problem)| #![auto] lex(cs@, i as int) == Err::<Seq<(int, TokenV)>, (int, Problem)>(x) ==>
                lex(cs@, 0) == Err::<Seq<(int, TokenV)>, (int, Problem)>(x),
        decreases cs@.len() - i,
    {
        let c = cs[i];
        if c == ' ' || c == '\t' || c == '\n' || c == '\r' {
            i += 1;
        } else {
            proof {
                lemma_lex_step_end(cs@, i as int);
            }
            match lex_step_exec(cs, i) {
                Ok((t, e)) => {
                    let ghost before = out@;
                    let ghost tv = t@;
                    let ghost ii = i as int;
                    out.push((i, t));
                    proof {
                        assert(tokens_view(out@) =~= tokens_view(before).push((ii, tv)));
                        assert forall|rest: Seq<(int, TokenV)>| #![auto] lex(cs@, e as int) == Ok::<Seq<(int, TokenV)>, (int, Problem)>(rest) implies
                            lex(cs@, 0) == Ok::<Seq<(int, TokenV)>, (int, Problem)>(tokens_view(out@) + rest) by {
                            assert(lex(cs@, ii) == Ok::<Seq<(int, TokenV)>, (int, Problem)>(seq![(ii, tv)] + rest));
                            assert(tokens_view(before) + (seq![(ii, tv)] + rest) =~= tokens_view(out@) + rest);
                        }
                    }
                    i = e;
                },
                Err(p) => {
                    return Err(error(i, p));
                },
            }
        }
    }
    proof {
        assert(tokens_view(out@) + Seq::<(int, TokenV)>::empty() =~= tokens_view(out@));
    }
    Ok(out)
}

} // verus!
