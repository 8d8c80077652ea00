//! Bash-style scalar integer arithmetic.

use vstd::prelude::*;
use vstd::wrapping::i64_specs;
use vstd::arithmetic::power::{pow, lemma_pow_mod_noop, lemma_pow_adds, lemma_pow_multiplies, lemma_square_is_pow2, lemma_pow0, lemma_pow1};
use vstd::arithmetic::div_mod::{lemma_mul_mod_noop, lemma_mod_twice, lemma_mod_sub_multiples_vanish, lemma_fundamental_div_mod};

use crate::env::{Env, EnvModel};
use crate::error::{EvalError, EvalErrorView, result_view};
use crate::text::{chars_of, push_char, push_chars, string_of, string_of_range};

verus! {

/// Variable values are themselves arithmetic expressions; evaluation gives
/// up after this many nested variable expansions.
pub const MAX_RECURSION: usize = 1024;

// ---------------------------------------------------------------------------
// Characters
// ---------------------------------------------------------------------------

pub open spec fn is_ascii_digit(c: char) -> bool {
    '0' <= c <= '9'
}

pub open spec fn is_ascii_alpha(c: char) -> bool {
    ('a' <= c <= 'z') || ('A' <= c <= 'Z')
}

pub open spec fn is_ascii_alnum(c: char) -> bool {
    is_ascii_digit(c) || is_ascii_alpha(c)
}

/// ASCII whitespace as Rust's `u8::is_ascii_whitespace` defines it.
pub open spec fn is_ascii_space(c: char) -> bool {
    c == ' ' || c == '\t' || c == '\n' || c == '\r' || c == '\x0C'
}

/// Unicode `White_Space`, as Rust's `char::is_whitespace` (and so
/// `str::trim`) defines it.
pub open spec fn is_unicode_space(c: char) -> bool {
    ('\t' <= c <= '\r') || c == ' ' || c == '\u{85}' || c == '\u{A0}' || c == '\u{1680}' || (
    '\u{2000}' <= c <= '\u{200A}') || c == '\u{2028}' || c == '\u{2029}' || c == '\u{202F}' || c
        == '\u{205F}' || c == '\u{3000}'
}

pub fn ascii_digit(c: char) -> (r: bool)
    ensures
        r == is_ascii_digit(c),
{
    '0' <= c && c <= '9'
}

pub fn ascii_alpha(c: char) -> (r: bool)
    ensures
        r == is_ascii_alpha(c),
{
    ('a' <= c && c <= 'z') || ('A' <= c && c <= 'Z')
}

pub fn ascii_alnum(c: char) -> (r: bool)
    ensures
        r == is_ascii_alnum(c),
{
    ascii_digit(c) || ascii_alpha(c)
}

pub fn ascii_space(c: char) -> (r: bool)
    ensures
        r == is_ascii_space(c),
{
    c == ' ' || c == '\t' || c == '\n' || c == '\r' || c == '\x0C'
}

fn unicode_space(c: char) -> (r: bool)
    ensures
        r == is_unicode_space(c),
{
    ('\t' <= c && c <= '\r') || c == ' ' || c == '\u{85}' || c == '\u{A0}' || c == '\u{1680}' || (
    '\u{2000}' <= c && c <= '\u{200A}') || c == '\u{2028}' || c == '\u{2029}' || c == '\u{202F}'
        || c == '\u{205F}' || c == '\u{3000}'
}

/// Whether a character sequence holds only (Unicode) whitespace.
pub open spec fn all_space(s: Seq<char>) -> bool {
    forall|i: int| 0 <= i < s.len() ==> is_unicode_space(#[trigger] s[i])
}

fn blank(s: &[char]) -> (r: bool)
    ensures
        r == all_space(s@),
{
    let mut i: usize = 0;
    while i < s.len()
        invariant
            i <= s@.len(),
            forall|j: int| 0 <= j < i ==> is_unicode_space(#[trigger] s@[j]),
        decreases s@.len() - i,
    {
        if !unicode_space(s[i]) {
            return false;
        }
        i = i + 1;
    }
    true
}

// ---------------------------------------------------------------------------
// Tokens
// ---------------------------------------------------------------------------

/// Arithmetic operators, longest first where one is a prefix of another.
#[derive(Debug, Clone, Copy, PartialEq, Eq, Structural)]
pub enum ArithOp {
    ShlAssign,
    ShrAssign,
    Inc,
    Dec,
    Pow,
    Le,
    Ge,
    EqEq,
    Ne,
    AndAnd,
    OrOr,
    MulAssign,
    DivAssign,
    RemAssign,
    AddAssign,
    SubAssign,
    AndAssign,
    XorAssign,
    OrAssign,
    Shl,
    Shr,
    Assign,
    Plus,
    Minus,
    Star,
    Slash,
    Percent,
    Bang,
    Tilde,
    Lt,
    Gt,
    Amp,
    Caret,
    Pipe,
}

/// The text of an operator.
pub open spec fn op_chars(op: ArithOp) -> Seq<char> {
    match op {
        ArithOp::ShlAssign => seq!['<', '<', '='],
        ArithOp::ShrAssign => seq!['>', '>', '='],
        ArithOp::Inc => seq!['+', '+'],
        ArithOp::Dec => seq!['-', '-'],
        ArithOp::Pow => seq!['*', '*'],
        ArithOp::Le => seq!['<', '='],
        ArithOp::Ge => seq!['>', '='],
        ArithOp::EqEq => seq!['=', '='],
        ArithOp::Ne => seq!['!', '='],
        ArithOp::AndAnd => seq!['&', '&'],
        ArithOp::OrOr => seq!['|', '|'],
        ArithOp::MulAssign => seq!['*', '='],
        ArithOp::DivAssign => seq!['/', '='],
        ArithOp::RemAssign => seq!['%', '='],
        ArithOp::AddAssign => seq!['+', '='],
        ArithOp::SubAssign => seq!['-', '='],
        ArithOp::AndAssign => seq!['&', '='],
        ArithOp::XorAssign => seq!['^', '='],
        ArithOp::OrAssign => seq!['|', '='],
        ArithOp::Shl => seq!['<', '<'],
        ArithOp::Shr => seq!['>', '>'],
        ArithOp::Assign => seq!['='],
        ArithOp::Plus => seq!['+'],
        ArithOp::Minus => seq!['-'],
        ArithOp::Star => seq!['*'],
        ArithOp::Slash => seq!['/'],
        ArithOp::Percent => seq!['%'],
        ArithOp::Bang => seq!['!'],
        ArithOp::Tilde => seq!['~'],
        ArithOp::Lt => seq!['<'],
        ArithOp::Gt => seq!['>'],
        ArithOp::Amp => seq!['&'],
        ArithOp::Caret => seq!['^'],
        ArithOp::Pipe => seq!['|'],
    }
}

pub open spec fn two_char_op(a: char, b: char) -> Option<ArithOp> {
    match (a, b) {
        ('+', '+') => Some(ArithOp::Inc),
        ('-', '-') => Some(ArithOp::Dec),
        ('*', '*') => Some(ArithOp::Pow),
        ('<', '=') => Some(ArithOp::Le),
        ('>', '=') => Some(ArithOp::Ge),
        ('=', '=') => Some(ArithOp::EqEq),
        ('!', '=') => Some(ArithOp::Ne),
        ('&', '&') => Some(ArithOp::AndAnd),
        ('|', '|') => Some(ArithOp::OrOr),
        ('*', '=') => Some(ArithOp::MulAssign),
        ('/', '=') => Some(ArithOp::DivAssign),
        ('%', '=') => Some(ArithOp::RemAssign),
        ('+', '=') => Some(ArithOp::AddAssign),
        ('-', '=') => Some(ArithOp::SubAssign),
        ('&', '=') => Some(ArithOp::AndAssign),
        ('^', '=') => Some(ArithOp::XorAssign),
        ('|', '=') => Some(ArithOp::OrAssign),
        ('<', '<') => Some(ArithOp::Shl),
        ('>', '>') => Some(ArithOp::Shr),
        _ => None,
    }
}

pub open spec fn one_char_op(a: char) -> Option<ArithOp> {
    match a {
        '=' => Some(ArithOp::Assign),
        '+' => Some(ArithOp::Plus),
        '-' => Some(ArithOp::Minus),
        '*' => Some(ArithOp::Star),
        '/' => Some(ArithOp::Slash),
        '%' => Some(ArithOp::Percent),
        '!' => Some(ArithOp::Bang),
        '~' => Some(ArithOp::Tilde),
        '<' => Some(ArithOp::Lt),
        '>' => Some(ArithOp::Gt),
        '&' => Some(ArithOp::Amp),
        '^' => Some(ArithOp::Caret),
        '|' => Some(ArithOp::Pipe),
        _ => None,
    }
}

/// The operator that starts at `s[i]`: the longest operator text that is a
/// prefix of `s[i..]`.
pub open spec fn op_at(s: Seq<char>, i: int) -> Option<ArithOp> {
    if i + 2 < s.len() && s[i] == '<' && s[i + 1] == '<' && s[i + 2] == '=' {
        Some(ArithOp::ShlAssign)
    } else if i + 2 < s.len() && s[i] == '>' && s[i + 1] == '>' && s[i + 2] == '=' {
        Some(ArithOp::ShrAssign)
    } else if i + 1 < s.len() && two_char_op(s[i], s[i + 1]) is Some {
        two_char_op(s[i], s[i + 1])
    } else if 0 <= i < s.len() {
        one_char_op(s[i])
    } else {
        None
    }
}

fn scan_op(s: &[char], i: usize) -> (r: Option<ArithOp>)
    requires
        i < s@.len(),
    ensures
        r == op_at(s@, i as int),
{
    if s.len() - i > 2 && s[i] == '<' && s[i + 1] == '<' && s[i + 2] == '=' {
        return Some(ArithOp::ShlAssign);
    }
    if s.len() - i > 2 && s[i] == '>' && s[i + 1] == '>' && s[i + 2] == '=' {
        return Some(ArithOp::ShrAssign);
    }
    if s.len() - i > 1 {
        let two = match (s[i], s[i + 1]) {
            ('+', '+') => Some(ArithOp::Inc),
            ('-', '-') => Some(ArithOp::Dec),
            ('*', '*') => Some(ArithOp::Pow),
            ('<', '=') => Some(ArithOp::Le),
            ('>', '=') => Some(ArithOp::Ge),
            ('=', '=') => Some(ArithOp::EqEq),
            ('!', '=') => Some(ArithOp::Ne),
            ('&', '&') => Some(ArithOp::AndAnd),
            ('|', '|') => Some(ArithOp::OrOr),
            ('*', '=') => Some(ArithOp::MulAssign),
            ('/', '=') => Some(ArithOp::DivAssign),
            ('%', '=') => Some(ArithOp::RemAssign),
            ('+', '=') => Some(ArithOp::AddAssign),
            ('-', '=') => Some(ArithOp::SubAssign),
            ('&', '=') => Some(ArithOp::AndAssign),
            ('^', '=') => Some(ArithOp::XorAssign),
            ('|', '=') => Some(ArithOp::OrAssign),
            ('<', '<') => Some(ArithOp::Shl),
            ('>', '>') => Some(ArithOp::Shr),
            _ => None,
        };
        if two.is_some() {
            return two;
        }
    }
    match s[i] {
        '=' => Some(ArithOp::Assign),
        '+' => Some(ArithOp::Plus),
        '-' => Some(ArithOp::Minus),
        '*' => Some(ArithOp::Star),
        '/' => Some(ArithOp::Slash),
        '%' => Some(ArithOp::Percent),
        '!' => Some(ArithOp::Bang),
        '~' => Some(ArithOp::Tilde),
        '<' => Some(ArithOp::Lt),
        '>' => Some(ArithOp::Gt),
        '&' => Some(ArithOp::Amp),
        '^' => Some(ArithOp::Caret),
        '|' => Some(ArithOp::Pipe),
        _ => None,
    }
}

fn op_len(op: ArithOp) -> (r: usize)
    ensures
        r == op_chars(op).len(),
{
    match op {
        ArithOp::ShlAssign | ArithOp::ShrAssign => 3,
        ArithOp::Inc | ArithOp::Dec | ArithOp::Pow | ArithOp::Le | ArithOp::Ge | ArithOp::EqEq
        | ArithOp::Ne | ArithOp::AndAnd | ArithOp::OrOr | ArithOp::MulAssign | ArithOp::DivAssign
        | ArithOp::RemAssign | ArithOp::AddAssign | ArithOp::SubAssign | ArithOp::AndAssign
        | ArithOp::XorAssign | ArithOp::OrAssign | ArithOp::Shl | ArithOp::Shr => 2,
        _ => 1,
    }
}

/// A token of an arithmetic expression. Numbers and identifiers refer to the
/// characters `start..end` of the expression text.
#[derive(Debug, Clone, Copy, PartialEq, Eq, Structural)]
pub enum ArithToken {
    Number(usize, usize),
    Ident(usize, usize),
    Op(ArithOp),
    LParen,
    RParen,
    Question,
    Colon,
    Comma,
    End,
}

/// A character that may continue a numeric literal (`0x1f`, `64#_`, ...).
pub open spec fn is_number_char(c: char) -> bool {
    is_ascii_alnum(c) || c == '#' || c == '@' || c == '_'
}

pub open spec fn is_ident_char(c: char) -> bool {
    is_ascii_alnum(c) || c == '_'
}

/// The end of the run of characters satisfying `number_char` (when `number`)
/// or `ident_char` (otherwise) that starts at `j`.
pub open spec fn run_end(s: Seq<char>, j: int, number: bool) -> int
    decreases s.len() - j,
{
    if j < 0 || j >= s.len() {
        j
    } else if (if number {
        is_number_char(s[j])
    } else {
        is_ident_char(s[j])
    }) {
        run_end(s, j + 1, number)
    } else {
        j
    }
}

proof fn lemma_run_end(s: Seq<char>, j: int, number: bool)
    requires
        0 <= j <= s.len(),
    ensures
        j <= run_end(s, j, number) <= s.len(),
    decreases s.len() - j,
{
    if j < s.len() {
        lemma_run_end(s, j + 1, number);
    }
}

/// The tokens of `s[i..]`, or `None` when a character cannot start a token.
/// The sequence always ends with [`ArithToken::End`].
pub open spec fn tokens_from(s: Seq<char>, i: int) -> Option<Seq<ArithToken>>
    decreases s.len() - i,
{
    if i < 0 || i >= s.len() {
        Some(seq![ArithToken::End])
    } else if is_ascii_space(s[i]) {
        tokens_from(s, i + 1)
    } else if is_ascii_digit(s[i]) {
        let e = run_end(s, i + 1, true);
        if i < e <= s.len() {
            prepend_token(ArithToken::Number(i as usize, e as usize), tokens_from(s, e))
        } else {
            None
        }
    } else if is_ascii_alpha(s[i]) || s[i] == '_' {
        let e = run_end(s, i + 1, false);
        if i < e <= s.len() {
            prepend_token(ArithToken::Ident(i as usize, e as usize), tokens_from(s, e))
        } else {
            None
        }
    } else if op_at(s, i) is Some {
        prepend_token(
            ArithToken::Op(op_at(s, i)->0),
            tokens_from(s, i + op_chars(op_at(s, i)->0).len()),
        )
    } else {
        match s[i] {
            '(' => prepend_token(ArithToken::LParen, tokens_from(s, i + 1)),
            ')' => prepend_token(ArithToken::RParen, tokens_from(s, i + 1)),
            '?' => prepend_token(ArithToken::Question, tokens_from(s, i + 1)),
            ':' => prepend_token(ArithToken::Colon, tokens_from(s, i + 1)),
            ',' => prepend_token(ArithToken::Comma, tokens_from(s, i + 1)),
            _ => None,
        }
    }
}

pub open spec fn prepend_token(t: ArithToken, rest: Option<Seq<ArithToken>>) -> Option<
    Seq<ArithToken>,
> {
    match rest {
        Some(r) => Some(seq![t] + r),
        None => None,
    }
}

pub open spec fn append_tokens(done: Seq<ArithToken>, rest: Option<Seq<ArithToken>>) -> Option<
    Seq<ArithToken>,
> {
    match rest {
        Some(r) => Some(done + r),
        None => None,
    }
}

proof fn lemma_prepend_append(done: Seq<ArithToken>, t: ArithToken, rest: Option<Seq<ArithToken>>)
    ensures
        append_tokens(done, prepend_token(t, rest)) == append_tokens(done.push(t), rest),
{
    if let Some(r) = rest {
        assert(done + (seq![t] + r) == done.push(t) + r);
    }
}

fn run_char(c: char, number: bool) -> (r: bool)
    ensures
        r == (if number {
            is_number_char(c)
        } else {
            is_ident_char(c)
        }),
{
    if number {
        ascii_alnum(c) || c == '#' || c == '@' || c == '_'
    } else {
        ascii_alnum(c) || c == '_'
    }
}

fn scan_run(s: &[char], j: usize, number: bool) -> (e: usize)
    requires
        j <= s@.len(),
    ensures
        e == run_end(s@, j as int, number),
        j <= e <= s@.len(),
{
    proof {
        lemma_run_end(s@, j as int, number);
    }
    let mut e = j;
    while e < s.len() && run_char(s[e], number)
        invariant
            j <= e <= s@.len(),
            run_end(s@, e as int, number) == run_end(s@, j as int, number),
        decreases s@.len() - e,
    {
        e = e + 1;
    }
    e
}

/// Splits arithmetic text into tokens; `None` when some character cannot
/// start a token.
fn tokenize(s: &[char]) -> (r: Option<Vec<ArithToken>>)
    ensures
        match r {
            Some(v) => tokens_from(s@, 0) == Some(v@),
            None => tokens_from(s@, 0) is None,
        },
{
    let mut tokens: Vec<ArithToken> = Vec::new();
    let mut i: usize = 0;
    while i < s.len()
        invariant
            i <= s@.len(),
            append_tokens(tokens@, tokens_from(s@, i as int)) == tokens_from(s@, 0),
        decreases s@.len() - i,
    {
        let c = s[i];
        if ascii_space(c) {
            i = i + 1;
            continue;
        }
        if ascii_digit(c) {
            let e = scan_run(s, i + 1, true);
            proof {
                lemma_prepend_append(tokens@, ArithToken::Number(i, e), tokens_from(s@, e as int));
            }
            tokens.push(ArithToken::Number(i, e));
            i = e;
            continue;
        }
        if ascii_alpha(c) || c == '_' {
            let e = scan_run(s, i + 1, false);
            proof {
                lemma_prepend_append(tokens@, ArithToken::Ident(i, e), tokens_from(s@, e as int));
            }
            tokens.push(ArithToken::Ident(i, e));
            i = e;
            continue;
        }
        match scan_op(s, i) {
            Some(op) => {
                let n = op_len(op);
                proof {
                    lemma_prepend_append(
                        tokens@,
                        ArithToken::Op(op),
                        tokens_from(s@, i + op_chars(op).len()),
                    );
                }
                tokens.push(ArithToken::Op(op));
                i = i + n;
                continue;
            },
            None => {},
        }
        let t = match c {
            '(' => ArithToken::LParen,
            ')' => ArithToken::RParen,
            '?' => ArithToken::Question,
            ':' => ArithToken::Colon,
            ',' => ArithToken::Comma,
            _ => {
                return None;
            },
        };
        proof {
            lemma_prepend_append(tokens@, t, tokens_from(s@, i + 1));
        }
        tokens.push(t);
        i = i + 1;
    }
    tokens.push(ArithToken::End);
    Some(tokens)
}

// ---------------------------------------------------------------------------
// Numeric literals
// ---------------------------------------------------------------------------

/// The value of a digit character in a base-`base` literal: `0-9`, then
/// `a-z`, then `A-Z` (which double as `a-z` in bases up to 36), `@`, `_`.
pub open spec fn digit_value(c: char, base: u32) -> Option<u32> {
    if '0' <= c <= '9' {
        Some((c as u32 - '0' as u32) as u32)
    } else if 'a' <= c <= 'z' {
        Some((c as u32 - 'a' as u32 + 10) as u32)
    } else if 'A' <= c <= 'Z' && base <= 36 {
        Some((c as u32 - 'A' as u32 + 10) as u32)
    } else if 'A' <= c <= 'Z' {
        Some((c as u32 - 'A' as u32 + 36) as u32)
    } else if c == '@' {
        Some(62)
    } else if c == '_' {
        Some(63)
    } else {
        None
    }
}

fn arithmetic_digit(ch: char, base: u32) -> (r: Option<u32>)
    ensures
        r == digit_value(ch, base),
{
    if '0' <= ch && ch <= '9' {
        Some(ch as u32 - '0' as u32)
    } else if 'a' <= ch && ch <= 'z' {
        Some(ch as u32 - 'a' as u32 + 10)
    } else if 'A' <= ch && ch <= 'Z' && base <= 36 {
        Some(ch as u32 - 'A' as u32 + 10)
    } else if 'A' <= ch && ch <= 'Z' {
        Some(ch as u32 - 'A' as u32 + 36)
    } else if ch == '@' {
        Some(62)
    } else if ch == '_' {
        Some(63)
    } else {
        None
    }
}

/// The value of `digits` in `base`, reduced modulo 2^64 the way repeated
/// wrapping `value * base + digit` reduces it; `None` on a bad digit.
pub open spec fn digits_value(digits: Seq<char>, base: u32) -> Option<i64>
    decreases digits.len(),
{
    if digits.len() == 0 {
        Some(0)
    } else {
        match digits_value(digits.drop_last(), base) {
            Some(v) => match digit_value(digits.last(), base) {
                Some(d) => if d < base {
                    Some(
                        i64_specs::wrapping_add(
                            i64_specs::wrapping_mul(v, base as i64),
                            d as i64,
                        ),
                    )
                } else {
                    None
                },
                None => None,
            },
            None => None,
        }
    }
}

/// The decimal value of a run of ASCII digits, when it fits in a `u32`.
pub open spec fn decimal_u32(digits: Seq<char>) -> Option<u32>
    decreases digits.len(),
{
    if digits.len() == 0 {
        None
    } else if !(forall|i: int| 0 <= i < digits.len() ==> is_ascii_digit(#[trigger] digits[i])) {
        None
    } else {
        let v = decimal_nat(digits);
        if v <= u32::MAX {
            Some(v as u32)
        } else {
            None
        }
    }
}

pub open spec fn decimal_nat(digits: Seq<char>) -> nat
    decreases digits.len(),
{
    if digits.len() == 0 {
        0
    } else {
        decimal_nat(digits.drop_last()) * 10 + (digits.last() as nat - '0' as nat) as nat
    }
}

/// The position of the first `#` in `s[i..]`, if any.
pub open spec fn hash_from(s: Seq<char>, i: int) -> Option<int>
    decreases s.len() - i,
{
    if i < 0 || i >= s.len() {
        None
    } else if s[i] == '#' {
        Some(i)
    } else {
        hash_from(s, i + 1)
    }
}

/// The position of the first `#` in `s`, if any.
pub open spec fn first_hash(s: Seq<char>) -> Option<int> {
    hash_from(s, 0)
}

/// The base and digit text of a numeric literal: `base#digits` (base 2–64),
/// `0x`/`0X` hex, leading-zero octal, or decimal.
pub open spec fn literal_parts(raw: Seq<char>) -> Option<(u32, Seq<char>)> {
    match first_hash(raw) {
        Some(h) => match decimal_u32(raw.take(h)) {
            Some(base) => if 2 <= base <= 64 && h + 1 != raw.len() {
                Some((base, raw.skip(h + 1)))
            } else {
                None
            },
            None => None,
        },
        None => if raw.len() >= 2 && raw[0] == '0' && (raw[1] == 'x' || raw[1] == 'X') {
            Some((16, raw.skip(2)))
        } else if raw.len() > 1 && raw[0] == '0' {
            Some((8, raw.skip(1)))
        } else {
            Some((10, raw))
        },
    }
}

/// The value of a numeric literal, or `None` when it is malformed.
pub open spec fn literal_value(raw: Seq<char>) -> Option<i64> {
    match literal_parts(raw) {
        Some((base, digits)) => if digits.len() == 0 {
            None
        } else {
            digits_value(digits, base)
        },
        None => None,
    }
}

proof fn lemma_no_hash(s: Seq<char>, i: int)
    requires
        0 <= i,
        !s.contains('#'),
    ensures
        hash_from(s, i) is None,
    decreases s.len() - i,
{
    if i < s.len() {
        assert(s[i] != '#');
        lemma_no_hash(s, i + 1);
    }
}

/// The prefix `b#` written in front of `digits`, for a base `b` of two
/// decimal digits `d1 d2`.
pub open spec fn with_base(d1: char, d2: char, digits: Seq<char>) -> Seq<char> {
    seq![d1, d2, '#'] + digits
}

proof fn lemma_base_texts()
    ensures
        decimal_u32(seq!['1', '6']) == Some(16u32),
        decimal_u32(seq!['0', '8']) == Some(8u32),
        decimal_u32(seq!['1', '0']) == Some(10u32),
{
    let one = seq!['1'];
    let zero = seq!['0'];
    let a = seq!['1', '6'];
    let b = seq!['0', '8'];
    let c = seq!['1', '0'];
    assert(one.drop_last() =~= Seq::<char>::empty());
    assert(zero.drop_last() =~= Seq::<char>::empty());
    assert(a.drop_last() =~= one);
    assert(b.drop_last() =~= zero);
    assert(c.drop_last() =~= one);
    assert(('1' as nat) == 49 && ('0' as nat) == 48 && ('6' as nat) == 54 && ('8' as nat) == 56);
    assert(decimal_nat(Seq::<char>::empty()) == 0);
    assert(decimal_nat(one) == 1);
    assert(decimal_nat(zero) == 0);
    assert(decimal_nat(a) == 16);
    assert(decimal_nat(b) == 8);
    assert(decimal_nat(c) == 10);
    assert(forall|i: int| 0 <= i < a.len() ==> is_ascii_digit(#[trigger] a[i]));
    assert(forall|i: int| 0 <= i < b.len() ==> is_ascii_digit(#[trigger] b[i]));
    assert(forall|i: int| 0 <= i < c.len() ==> is_ascii_digit(#[trigger] c[i]));
}

/// Numeric literals: `0x` (or `0X`) introduces base 16, a leading `0`
/// base 8, and anything else is base 10 — each the same number as the
/// explicit `16#`, `8#` (written `08#`) and `10#` forms of the same digits.
pub proof fn lemma_literal_bases(digits: Seq<char>)
    requires
        digits.len() > 0,
        !digits.contains('#'),
    ensures
        literal_value(seq!['0', 'x'] + digits) == literal_value(with_base('1', '6', digits)),
        literal_value(seq!['0', 'X'] + digits) == literal_value(with_base('1', '6', digits)),
        digits[0] != 'x' && digits[0] != 'X' ==> literal_value(seq!['0'] + digits) == literal_value(
            with_base('0', '8', digits),
        ),
        digits[0] != '0' ==> literal_value(digits) == literal_value(with_base('1', '0', digits)),
{
    lemma_no_hash(digits, 0);
    let hx = seq!['0', 'x'] + digits;
    let hX = seq!['0', 'X'] + digits;
    let oc = seq!['0'] + digits;
    assert forall|t: Seq<char>| t == hx || t == hX || t == oc implies hash_from(t, 0) is None by {
        assert(!t.contains('#')) by {
            if t.contains('#') {
                let j = choose|j: int| 0 <= j < t.len() && t[j] == '#';
                if t == oc {
                    assert(j >= 1);
                    assert(t[j] == digits[j - 1]);
                } else {
                    assert(j >= 2);
                    assert(t[j] == digits[j - 2]);
                }
                assert(digits.contains('#'));
            }
        }
        lemma_no_hash(t, 0);
    }
    assert(hx.skip(2) =~= digits);
    assert(hX.skip(2) =~= digits);
    assert(oc.skip(1) =~= digits);
    let b16 = with_base('1', '6', digits);
    let b8 = with_base('0', '8', digits);
    let b10 = with_base('1', '0', digits);
    assert(b16[2] == '#' && b8[2] == '#' && b10[2] == '#');
    assert(b16[0] != '#' && b16[1] != '#' && b8[0] != '#' && b8[1] != '#' && b10[0] != '#' && b10[1] != '#');
    assert(hash_from(b16, 2) == Some(2int) && hash_from(b8, 2) == Some(2int) && hash_from(b10, 2) == Some(2int));
    assert(hash_from(b16, 1) == Some(2int) && hash_from(b8, 1) == Some(2int) && hash_from(b10, 1) == Some(2int));
    assert(hash_from(b16, 0) == Some(2int));
    assert(hash_from(b8, 0) == Some(2int));
    assert(hash_from(b10, 0) == Some(2int));
    assert(b16.take(2) =~= seq!['1', '6']);
    assert(b8.take(2) =~= seq!['0', '8']);
    assert(b10.take(2) =~= seq!['1', '0']);
    lemma_base_texts();
    assert(b16.skip(3) =~= digits);
    assert(b8.skip(3) =~= digits);
    assert(b10.skip(3) =~= digits);
}

fn find_hash(s: &[char]) -> (r: Option<usize>)
    ensures
        match r {
            Some(h) => first_hash(s@) == Some(h as int) && h < s@.len(),
            None => first_hash(s@) is None,
        },
{
    let mut i: usize = 0;
    while i < s.len()
        invariant
            i <= s@.len(),
            hash_from(s@, i as int) == first_hash(s@),
        decreases s@.len() - i,
    {
        if s[i] == '#' {
            return Some(i);
        }
        i = i + 1;
    }
    None
}

fn parse_decimal_u32(d: &[char]) -> (r: Option<u32>)
    ensures
        r == decimal_u32(d@),
{
    if d.len() == 0 {
        return None;
    }
    let mut v: u64 = 0;
    let mut i: usize = 0;
    while i < d.len()
        invariant
            0 < d@.len(),
            i <= d@.len(),
            forall|j: int| 0 <= j < i ==> is_ascii_digit(#[trigger] d@[j]),
            v == decimal_nat(d@.take(i as int)),
            v <= u32::MAX,
        decreases d@.len() - i,
    {
        if !ascii_digit(d[i]) {
            assert(!is_ascii_digit(d@[i as int]));
            return None;
        }
        let dv = (d[i] as u32 - '0' as u32) as u64;
        assert(d@.take(i + 1).drop_last() == d@.take(i as int));
        assert(d@.take(i + 1).last() == d@[i as int]);
        let nv = v * 10 + dv;
        i = i + 1;
        if nv > u32::MAX as u64 {
            proof {
                if forall|j: int| 0 <= j < d@.len() ==> is_ascii_digit(#[trigger] d@[j]) {
                    lemma_decimal_prefix_monotone(d@, i as int);
                }
            }
            return None;
        }
        v = nv;
    }
    assert(d@.take(d@.len() as int) == d@);
    Some(v as u32)
}

/// A digit run's value is at least the value of any of its prefixes.
proof fn lemma_decimal_prefix_monotone(d: Seq<char>, k: int)
    requires
        0 <= k <= d.len(),
        forall|i: int| 0 <= i < d.len() ==> is_ascii_digit(#[trigger] d[i]),
    ensures
        decimal_nat(d.take(k)) <= decimal_nat(d),
    decreases d.len() - k,
{
    if k < d.len() {
        lemma_decimal_prefix_monotone(d, k + 1);
        assert(d.take(k + 1).drop_last() == d.take(k));
        assert(decimal_nat(d.take(k + 1)) >= decimal_nat(d.take(k)) * 10) by (nonlinear_arith)
            requires
                decimal_nat(d.take(k + 1)) == decimal_nat(d.take(k)) * 10 + (d.take(k + 1).last()
                    as nat - '0' as nat) as nat,
        ;
    } else {
        assert(d.take(k) == d);
    }
}

fn parse_number(raw: &[char]) -> (r: Option<i64>)
    ensures
        r == literal_value(raw@),
{
    let (base, start): (u32, usize) = match find_hash(raw) {
        Some(h) => {
            let b = parse_decimal_u32(&raw[0..h]);
            proof {
                assert(raw@.subrange(0, h as int) == raw@.take(h as int));
            }
            match b {
                Some(b) => {
                    if !(2 <= b && b <= 64) || h == raw.len() - 1 {
                        return None;
                    }
                    (b, h + 1)
                },
                None => {
                    return None;
                },
            }
        },
        None => {
            if raw.len() >= 2 && raw[0] == '0' && (raw[1] == 'x' || raw[1] == 'X') {
                (16, 2)
            } else if raw.len() > 1 && raw[0] == '0' {
                (8, 1)
            } else {
                (10, 0)
            }
        },
    };
    let ghost digits = raw@.skip(start as int);
    proof {
        assert(literal_parts(raw@) == Some((base, digits))) by {
            if start == 0 {
                assert(raw@.skip(0) == raw@);
            }
        }
    }
    if start == raw.len() {
        assert(digits.len() == 0);
        return None;
    }
    assert(digits.len() != 0);
    let mut value: i64 = 0;
    let mut i: usize = start;
    while i < raw.len()
        invariant
            start <= i <= raw@.len(),
            digits == raw@.skip(start as int),
            digits_value(digits.take(i - start), base) == Some(value),
            2 <= base <= 64,
            literal_parts(raw@) == Some((base, digits)),
            digits.len() != 0,
        decreases raw@.len() - i,
    {
        let ghost k = i - start;
        assert(digits.take(k + 1).drop_last() == digits.take(k));
        assert(digits.take(k + 1).last() == raw@[i as int]);
        assert(digits.take(k + 1).len() != 0);
        match arithmetic_digit(raw[i], base) {
            Some(d) => {
                if d >= base {
                    proof {
                        assert(digits_value(digits.take(k + 1), base) is None);
                        lemma_digits_error_propagates(digits, base, k + 1);
                    }
                    return None;
                }
                value = value.wrapping_mul(base as i64).wrapping_add(d as i64);
            },
            None => {
                proof {
                    assert(digits_value(digits.take(k + 1), base) is None);
                    lemma_digits_error_propagates(digits, base, k + 1);
                }
                return None;
            },
        }
        i = i + 1;
    }
    assert(digits.take(raw@.len() - start) == digits);
    Some(value)
}

/// Once a prefix of the digits is malformed, so are the digits.
proof fn lemma_digits_error_propagates(digits: Seq<char>, base: u32, k: int)
    requires
        0 <= k <= digits.len(),
        digits_value(digits.take(k), base) is None,
    ensures
        digits_value(digits, base) is None,
    decreases digits.len() - k,
{
    if k < digits.len() {
        assert(digits.take(k + 1).drop_last() == digits.take(k));
        lemma_digits_error_propagates(digits, base, k + 1);
    } else {
        assert(digits.take(k) == digits);
    }
}

// ---------------------------------------------------------------------------
// Syntax tree and parser
// ---------------------------------------------------------------------------

#[derive(Debug, Clone, Copy, PartialEq, Eq, Structural)]
pub enum ArithUnary {
    Plus,
    Minus,
    LogicalNot,
    BitwiseNot,
}

#[derive(Debug, Clone, Copy, PartialEq, Eq, Structural)]
pub enum ArithBinary {
    Power,
    Multiply,
    Divide,
    Remainder,
    Add,
    Subtract,
    ShiftLeft,
    ShiftRight,
    Less,
    LessEqual,
    Greater,
    GreaterEqual,
    Equal,
    NotEqual,
    BitwiseAnd,
    BitwiseXor,
    BitwiseOr,
    LogicalAnd,
    LogicalOr,
}

#[derive(Debug, Clone, Copy, PartialEq, Eq, Structural)]
pub enum AssignOp {
    Plain,
    Multiply,
    Divide,
    Remainder,
    Add,
    Subtract,
    ShiftLeft,
    ShiftRight,
    BitwiseAnd,
    BitwiseXor,
    BitwiseOr,
}

/// An arithmetic expression. Variables name the characters `start..end` of
/// the expression text.
#[derive(Debug)]
pub enum ArithExpr {
    Number(i64),
    Variable(usize, usize),
    Unary(ArithUnary, Box<ArithExpr>),
    Binary(ArithBinary, Box<ArithExpr>, Box<ArithExpr>),
    Conditional(Box<ArithExpr>, Box<ArithExpr>, Box<ArithExpr>),
    Group(Box<ArithExpr>),
    Assign(usize, usize, AssignOp, Box<ArithExpr>),
    PreIncrement(usize, usize, i64),
    PostIncrement(usize, usize, i64),
    Comma(Box<ArithExpr>, Box<ArithExpr>),
}

/// The token at `p`, reading past the end as [`ArithToken::End`].
pub open spec fn tok(t: Seq<ArithToken>, p: int) -> ArithToken {
    if 0 <= p < t.len() {
        t[p]
    } else {
        ArithToken::End
    }
}

/// A token sequence as the tokenizer produces it: one `End`, at the end.
pub open spec fn valid_tokens(t: Seq<ArithToken>) -> bool {
    &&& t.len() >= 1
    &&& t.last() == ArithToken::End
    &&& forall|i: int| 0 <= i < t.len() - 1 ==> t[i] != ArithToken::End
}

/// The binary operator of precedence `level` (4 = multiplicative ... 13 =
/// logical or) that a token denotes.
pub open spec fn binop_at(t: ArithToken, level: int) -> Option<ArithBinary> {
    match t {
        ArithToken::Op(op) => if level == 13 && op == ArithOp::OrOr {
            Some(ArithBinary::LogicalOr)
        } else if level == 12 && op == ArithOp::AndAnd {
            Some(ArithBinary::LogicalAnd)
        } else if level == 11 && op == ArithOp::Pipe {
            Some(ArithBinary::BitwiseOr)
        } else if level == 10 && op == ArithOp::Caret {
            Some(ArithBinary::BitwiseXor)
        } else if level == 9 && op == ArithOp::Amp {
            Some(ArithBinary::BitwiseAnd)
        } else if level == 8 && op == ArithOp::EqEq {
            Some(ArithBinary::Equal)
        } else if level == 8 && op == ArithOp::Ne {
            Some(ArithBinary::NotEqual)
        } else if level == 7 && op == ArithOp::Lt {
            Some(ArithBinary::Less)
        } else if level == 7 && op == ArithOp::Le {
            Some(ArithBinary::LessEqual)
        } else if level == 7 && op == ArithOp::Gt {
            Some(ArithBinary::Greater)
        } else if level == 7 && op == ArithOp::Ge {
            Some(ArithBinary::GreaterEqual)
        } else if level == 6 && op == ArithOp::Shl {
            Some(ArithBinary::ShiftLeft)
        } else if level == 6 && op == ArithOp::Shr {
            Some(ArithBinary::ShiftRight)
        } else if level == 5 && op == ArithOp::Plus {
            Some(ArithBinary::Add)
        } else if level == 5 && op == ArithOp::Minus {
            Some(ArithBinary::Subtract)
        } else if level == 4 && op == ArithOp::Star {
            Some(ArithBinary::Multiply)
        } else if level == 4 && op == ArithOp::Slash {
            Some(ArithBinary::Divide)
        } else if level == 4 && op == ArithOp::Percent {
            Some(ArithBinary::Remainder)
        } else {
            None
        },
        _ => None,
    }
}

/// The assignment operator a token denotes.
pub open spec fn assign_op_of(t: ArithToken) -> Option<AssignOp> {
    match t {
        ArithToken::Op(op) => match op {
            ArithOp::Assign => Some(AssignOp::Plain),
            ArithOp::MulAssign => Some(AssignOp::Multiply),
            ArithOp::DivAssign => Some(AssignOp::Divide),
            ArithOp::RemAssign => Some(AssignOp::Remainder),
            ArithOp::AddAssign => Some(AssignOp::Add),
            ArithOp::SubAssign => Some(AssignOp::Subtract),
            ArithOp::ShlAssign => Some(AssignOp::ShiftLeft),
            ArithOp::ShrAssign => Some(AssignOp::ShiftRight),
            ArithOp::AndAssign => Some(AssignOp::BitwiseAnd),
            ArithOp::XorAssign => Some(AssignOp::BitwiseXor),
            ArithOp::OrAssign => Some(AssignOp::BitwiseOr),
            _ => None,
        },
        _ => None,
    }
}

/// The prefix unary operator a token denotes (`++`/`--` handled apart).
pub open spec fn prefix_op_of(t: ArithToken) -> Option<ArithUnary> {
    match t {
        ArithToken::Op(ArithOp::Plus) => Some(ArithUnary::Plus),
        ArithToken::Op(ArithOp::Minus) => Some(ArithUnary::Minus),
        ArithToken::Op(ArithOp::Bang) => Some(ArithUnary::LogicalNot),
        ArithToken::Op(ArithOp::Tilde) => Some(ArithUnary::BitwiseNot),
        _ => None,
    }
}

/// The step of an increment/decrement token.
pub open spec fn step_of(t: ArithToken) -> Option<i64> {
    match t {
        ArithToken::Op(ArithOp::Inc) => Some(1i64),
        ArithToken::Op(ArithOp::Dec) => Some(-1i64),
        _ => None,
    }
}

/// The `{:?}` text of a token that cannot start an operand.
pub open spec fn token_debug(t: ArithToken, s: Seq<char>) -> Seq<char> {
    match t {
        ArithToken::Number(a, b) => "Number(\""@ + s.subrange(a as int, b as int) + "\")"@,
        ArithToken::Ident(a, b) => "Ident(\""@ + s.subrange(a as int, b as int) + "\")"@,
        ArithToken::Op(op) => "Op(\""@ + op_chars(op) + "\")"@,
        ArithToken::LParen => "LParen"@,
        ArithToken::RParen => "RParen"@,
        ArithToken::Question => "Question"@,
        ArithToken::Colon => "Colon"@,
        ArithToken::Comma => "Comma"@,
        ArithToken::End => "End"@,
    }
}

pub type ParseOutcome = Result<(ArithExpr, int), EvalErrorView>;

pub open spec fn bad_position() -> EvalErrorView {
    EvalErrorView::InvalidArith(Seq::empty())
}

/// `comma := assignment (',' assignment)*`
pub open spec fn p_comma(t: Seq<ArithToken>, s: Seq<char>, p: int) -> ParseOutcome
    decreases t.len() - p, 31int,
{
    if p < 0 || p >= t.len() {
        Err(bad_position())
    } else {
        match p_assign(t, s, p) {
            Ok((e, q)) => if p < q < t.len() {
                comma_rest(t, s, e, q)
            } else {
                Err(bad_position())
            },
            Err(x) => Err(x),
        }
    }
}

pub open spec fn comma_rest(t: Seq<ArithToken>, s: Seq<char>, lhs: ArithExpr, q: int) -> ParseOutcome
    decreases t.len() - q, 30int,
{
    if q < 0 || q >= t.len() {
        Err(bad_position())
    } else if tok(t, q) == ArithToken::Comma {
        match p_assign(t, s, q + 1) {
            Ok((r, q2)) => if q < q2 < t.len() {
                comma_rest(t, s, ArithExpr::Comma(Box::new(lhs), Box::new(r)), q2)
            } else {
                Err(bad_position())
            },
            Err(x) => Err(x),
        }
    } else {
        Ok((lhs, q))
    }
}

/// `assignment := conditional (assign-op assignment)?`, the left side being
/// a variable.
pub open spec fn p_assign(t: Seq<ArithToken>, s: Seq<char>, p: int) -> ParseOutcome
    decreases t.len() - p, 29int,
{
    if p < 0 || p >= t.len() {
        Err(bad_position())
    } else {
        match p_cond(t, s, p) {
            Ok((left, q)) => if p < q < t.len() {
                match assign_op_of(tok(t, q)) {
                    None => Ok((left, q)),
                    Some(aop) => match left {
                        ArithExpr::Variable(a, b) => match p_assign(t, s, q + 1) {
                            Ok((r, q2)) => Ok((ArithExpr::Assign(a, b, aop, Box::new(r)), q2)),
                            Err(x) => Err(x),
                        },
                        _ => Err(
                            EvalErrorView::InvalidArith("assignment requires a scalar variable"@),
                        ),
                    },
                }
            } else {
                Err(bad_position())
            },
            Err(x) => Err(x),
        }
    }
}

/// `conditional := logical-or ('?' comma ':' conditional)?`
pub open spec fn p_cond(t: Seq<ArithToken>, s: Seq<char>, p: int) -> ParseOutcome
    decreases t.len() - p, 28int,
{
    if p < 0 || p >= t.len() {
        Err(bad_position())
    } else {
        match p_level(t, s, p, 13) {
            Ok((c, q)) => if p < q < t.len() {
                if tok(t, q) != ArithToken::Question {
                    Ok((c, q))
                } else {
                    match p_comma(t, s, q + 1) {
                        Ok((wt, q2)) => if q < q2 < t.len() {
                            if tok(t, q2) != ArithToken::Colon {
                                Err(EvalErrorView::InvalidArith("missing `:` in ternary"@))
                            } else {
                                match p_cond(t, s, q2 + 1) {
                                    Ok((wf, q3)) => Ok(
                                        (
                                            ArithExpr::Conditional(
                                                Box::new(c),
                                                Box::new(wt),
                                                Box::new(wf),
                                            ),
                                            q3,
                                        ),
                                    ),
                                    Err(x) => Err(x),
                                }
                            }
                        } else {
                            Err(bad_position())
                        },
                        Err(x) => Err(x),
                    }
                }
            } else {
                Err(bad_position())
            },
            Err(x) => Err(x),
        }
    }
}

/// The operand parser one precedence level below `level`.
pub open spec fn p_below(t: Seq<ArithToken>, s: Seq<char>, p: int, level: int) -> ParseOutcome
    decreases t.len() - p, 2 * level,
{
    if level == 4 {
        p_power(t, s, p)
    } else if level > 4 {
        p_level(t, s, p, level - 1)
    } else {
        Err(bad_position())
    }
}

/// A left-associative chain of the binary operators of `level` (4..=13).
pub open spec fn p_level(t: Seq<ArithToken>, s: Seq<char>, p: int, level: int) -> ParseOutcome
    decreases t.len() - p, 2 * level + 1,
{
    if p < 0 || p >= t.len() || level < 4 {
        Err(bad_position())
    } else {
        match p_below(t, s, p, level) {
            Ok((l, q)) => if p < q < t.len() {
                level_rest(t, s, l, q, level)
            } else {
                Err(bad_position())
            },
            Err(x) => Err(x),
        }
    }
}

pub open spec fn level_rest(
    t: Seq<ArithToken>,
    s: Seq<char>,
    lhs: ArithExpr,
    q: int,
    level: int,
) -> ParseOutcome
    decreases t.len() - q, 2 * level + 1,
{
    if q < 0 || q >= t.len() || level < 4 {
        Err(bad_position())
    } else {
        match binop_at(tok(t, q), level) {
            None => Ok((lhs, q)),
            Some(op) => match p_below(t, s, q + 1, level) {
                Ok((r, q2)) => if q < q2 < t.len() {
                    level_rest(t, s, ArithExpr::Binary(op, Box::new(lhs), Box::new(r)), q2, level)
                } else {
                    Err(bad_position())
                },
                Err(x) => Err(x),
            },
        }
    }
}

/// `power := unary ('**' power)?` (right associative).
pub open spec fn p_power(t: Seq<ArithToken>, s: Seq<char>, p: int) -> ParseOutcome
    decreases t.len() - p, 7int,
{
    if p < 0 || p >= t.len() {
        Err(bad_position())
    } else {
        match p_unary(t, s, p) {
            Ok((l, q)) => if p < q < t.len() {
                if tok(t, q) == ArithToken::Op(ArithOp::Pow) {
                    match p_power(t, s, q + 1) {
                        Ok((r, q2)) => Ok(
                            (ArithExpr::Binary(ArithBinary::Power, Box::new(l), Box::new(r)), q2),
                        ),
                        Err(x) => Err(x),
                    }
                } else {
                    Ok((l, q))
                }
            } else {
                Err(bad_position())
            },
            Err(x) => Err(x),
        }
    }
}

/// `unary := ('+' | '-' | '!' | '~' | '++' | '--') unary | postfix`
pub open spec fn p_unary(t: Seq<ArithToken>, s: Seq<char>, p: int) -> ParseOutcome
    decreases t.len() - p, 2int,
{
    if p < 0 || p >= t.len() {
        Err(bad_position())
    } else if prefix_op_of(tok(t, p)) is Some || step_of(tok(t, p)) is Some {
        match p_unary(t, s, p + 1) {
            Ok((x, q)) => match step_of(tok(t, p)) {
                Some(d) => match x {
                    ArithExpr::Variable(a, b) => Ok((ArithExpr::PreIncrement(a, b, d), q)),
                    _ => Err(EvalErrorView::InvalidArith("increment requires a scalar variable"@)),
                },
                None => Ok((ArithExpr::Unary(prefix_op_of(tok(t, p))->0, Box::new(x)), q)),
            },
            Err(x) => Err(x),
        }
    } else {
        p_postfix(t, s, p)
    }
}

/// `postfix := primary ('++' | '--')?`
pub open spec fn p_postfix(t: Seq<ArithToken>, s: Seq<char>, p: int) -> ParseOutcome
    decreases t.len() - p, 1int,
{
    if p < 0 || p >= t.len() {
        Err(bad_position())
    } else {
        match p_primary(t, s, p) {
            Ok((x, q)) => match step_of(tok(t, q)) {
                Some(d) => match x {
                    ArithExpr::Variable(a, b) => Ok((ArithExpr::PostIncrement(a, b, d), q + 1)),
                    _ => Err(EvalErrorView::InvalidArith("increment requires a scalar variable"@)),
                },
                None => Ok((x, q)),
            },
            Err(x) => Err(x),
        }
    }
}

/// `primary := number | identifier | '(' comma ')'`
pub open spec fn p_primary(t: Seq<ArithToken>, s: Seq<char>, p: int) -> ParseOutcome
    decreases t.len() - p, 0int,
{
    if p < 0 || p >= t.len() {
        Err(bad_position())
    } else {
        match tok(t, p) {
            ArithToken::Number(a, b) => match literal_value(s.subrange(a as int, b as int)) {
                Some(v) => Ok((ArithExpr::Number(v), p + 1)),
                None => Err(EvalErrorView::InvalidArith(s.subrange(a as int, b as int))),
            },
            ArithToken::Ident(a, b) => Ok((ArithExpr::Variable(a, b), p + 1)),
            ArithToken::LParen => match p_comma(t, s, p + 1) {
                Ok((x, q)) => if tok(t, q) != ArithToken::RParen {
                    Err(EvalErrorView::InvalidArith("missing `)`"@))
                } else {
                    Ok((ArithExpr::Group(Box::new(x)), q + 1))
                },
                Err(x) => Err(x),
            },
            other => Err(
                EvalErrorView::InvalidArith(
                    "expected arithmetic operand, found "@ + token_debug(other, s),
                ),
            ),
        }
    }
}

pub open spec fn pr_view(r: Result<(ArithExpr, usize), EvalError>) -> ParseOutcome {
    match r {
        Ok((e, q)) => Ok((e, q as int)),
        Err(x) => Err(x@),
    }
}

/// Token ranges lie within the text.
pub open spec fn ranges_ok(t: Seq<ArithToken>, s: Seq<char>) -> bool {
    forall|i: int|
        0 <= i < t.len() ==> match #[trigger] t[i] {
            ArithToken::Number(a, b) => a <= b <= s.len(),
            ArithToken::Ident(a, b) => a <= b <= s.len(),
            _ => true,
        }
}

/// What a successful parse at `p` promises about the position it stops at.
pub open spec fn advances(r: Result<(ArithExpr, usize), EvalError>, p: int, n: int) -> bool {
    r matches Ok((_, q)) ==> p < q < n
}

proof fn lemma_tokens_from_valid(s: Seq<char>, i: int)
    requires
        0 <= i,
        s.len() <= usize::MAX,
        tokens_from(s, i) is Some,
    ensures
        valid_tokens(tokens_from(s, i)->0),
        ranges_ok(tokens_from(s, i)->0, s),
    decreases s.len() - i,
{
    if i >= s.len() {
        return;
    }
    if is_ascii_space(s[i]) {
        lemma_tokens_from_valid(s, i + 1);
        return;
    }
    let ts = tokens_from(s, i)->0;
    let (t, j) = if is_ascii_digit(s[i]) {
        lemma_run_end(s, i + 1, true);
        (ArithToken::Number(i as usize, run_end(s, i + 1, true) as usize), run_end(s, i + 1, true))
    } else if is_ascii_alpha(s[i]) || s[i] == '_' {
        lemma_run_end(s, i + 1, false);
        (ArithToken::Ident(i as usize, run_end(s, i + 1, false) as usize), run_end(s, i + 1, false))
    } else if op_at(s, i) is Some {
        (ArithToken::Op(op_at(s, i)->0), i + op_chars(op_at(s, i)->0).len())
    } else {
        (
            match s[i] {
                '(' => ArithToken::LParen,
                ')' => ArithToken::RParen,
                '?' => ArithToken::Question,
                ':' => ArithToken::Colon,
                _ => ArithToken::Comma,
            },
            i + 1,
        )
    };
    assert(tokens_from(s, j) is Some);
    lemma_tokens_from_valid(s, j);
    let rest = tokens_from(s, j)->0;
    assert(ts == seq![t] + rest);
    assert forall|k: int| 0 <= k < ts.len() - 1 implies ts[k] != ArithToken::End by {
        if k > 0 {
            assert(ts[k] == rest[k - 1]);
        }
    }
    assert forall|k: int| 0 <= k < ts.len() implies match #[trigger] ts[k] {
        ArithToken::Number(a, b) => a <= b <= s.len(),
        ArithToken::Ident(a, b) => a <= b <= s.len(),
        _ => true,
    } by {
        if k > 0 {
            assert(ts[k] == rest[k - 1]);
        }
    }
}

/// A token other than `End` is not the last one.
proof fn lemma_not_end(t: Seq<ArithToken>, q: int)
    requires
        valid_tokens(t),
        0 <= q < t.len(),
        t[q] != ArithToken::End,
    ensures
        q < t.len() - 1,
{
}

fn token_text_debug(tk: ArithToken, s: &[char]) -> (r: String)
    requires
        match tk {
            ArithToken::Number(a, b) => a <= b <= s@.len(),
            ArithToken::Ident(a, b) => a <= b <= s@.len(),
            _ => true,
        },
    ensures
        r@ == token_debug(tk, s@),
{
    let mut out = String::new();
    match tk {
        ArithToken::Number(a, b) => {
            crate::text::push_str(&mut out, "Number(\"");
            push_chars(&mut out, &s[a..b]);
            crate::text::push_str(&mut out, "\")");
        },
        ArithToken::Ident(a, b) => {
            crate::text::push_str(&mut out, "Ident(\"");
            push_chars(&mut out, &s[a..b]);
            crate::text::push_str(&mut out, "\")");
        },
        ArithToken::Op(op) => {
            crate::text::push_str(&mut out, "Op(\"");
            crate::text::push_str(&mut out, op_text(op));
            crate::text::push_str(&mut out, "\")");
        },
        ArithToken::LParen => crate::text::push_str(&mut out, "LParen"),
        ArithToken::RParen => crate::text::push_str(&mut out, "RParen"),
        ArithToken::Question => crate::text::push_str(&mut out, "Question"),
        ArithToken::Colon => crate::text::push_str(&mut out, "Colon"),
        ArithToken::Comma => crate::text::push_str(&mut out, "Comma"),
        ArithToken::End => crate::text::push_str(&mut out, "End"),
    }
    out
}

fn op_text(op: ArithOp) -> (r: &'static str)
    ensures
        r@ == op_chars(op),
{
    match op {
        ArithOp::ShlAssign => { proof { reveal_strlit("<<="); } "<<=" },
        ArithOp::ShrAssign => { proof { reveal_strlit(">>="); } ">>=" },
        ArithOp::Inc => { proof { reveal_strlit("++"); } "++" },
        ArithOp::Dec => { proof { reveal_strlit("--"); } "--" },
        ArithOp::Pow => { proof { reveal_strlit("**"); } "**" },
        ArithOp::Le => { proof { reveal_strlit("<="); } "<=" },
        ArithOp::Ge => { proof { reveal_strlit(">="); } ">=" },
        ArithOp::EqEq => { proof { reveal_strlit("=="); } "==" },
        ArithOp::Ne => { proof { reveal_strlit("!="); } "!=" },
        ArithOp::AndAnd => { proof { reveal_strlit("&&"); } "&&" },
        ArithOp::OrOr => { proof { reveal_strlit("||"); } "||" },
        ArithOp::MulAssign => { proof { reveal_strlit("*="); } "*=" },
        ArithOp::DivAssign => { proof { reveal_strlit("/="); } "/=" },
        ArithOp::RemAssign => { proof { reveal_strlit("%="); } "%=" },
        ArithOp::AddAssign => { proof { reveal_strlit("+="); } "+=" },
        ArithOp::SubAssign => { proof { reveal_strlit("-="); } "-=" },
        ArithOp::AndAssign => { proof { reveal_strlit("&="); } "&=" },
        ArithOp::XorAssign => { proof { reveal_strlit("^="); } "^=" },
        ArithOp::OrAssign => { proof { reveal_strlit("|="); } "|=" },
        ArithOp::Shl => { proof { reveal_strlit("<<"); } "<<" },
        ArithOp::Shr => { proof { reveal_strlit(">>"); } ">>" },
        ArithOp::Assign => { proof { reveal_strlit("="); } "=" },
        ArithOp::Plus => { proof { reveal_strlit("+"); } "+" },
        ArithOp::Minus => { proof { reveal_strlit("-"); } "-" },
        ArithOp::Star => { proof { reveal_strlit("*"); } "*" },
        ArithOp::Slash => { proof { reveal_strlit("/"); } "/" },
        ArithOp::Percent => { proof { reveal_strlit("%"); } "%" },
        ArithOp::Bang => { proof { reveal_strlit("!"); } "!" },
        ArithOp::Tilde => { proof { reveal_strlit("~"); } "~" },
        ArithOp::Lt => { proof { reveal_strlit("<"); } "<" },
        ArithOp::Gt => { proof { reveal_strlit(">"); } ">" },
        ArithOp::Amp => { proof { reveal_strlit("&"); } "&" },
        ArithOp::Caret => { proof { reveal_strlit("^"); } "^" },
        ArithOp::Pipe => { proof { reveal_strlit("|"); } "|" },
    }
}

fn invalid(msg: &str) -> (e: EvalError)
    ensures
        e@ == EvalErrorView::InvalidArith(msg@),
{
    EvalError::InvalidArith(crate::text::owned(msg))
}

fn binop_for(tk: ArithToken, level: usize) -> (r: Option<ArithBinary>)
    ensures
        r == binop_at(tk, level as int),
{
    match tk {
        ArithToken::Op(op) => {
            if level == 13 && op == ArithOp::OrOr {
                Some(ArithBinary::LogicalOr)
            } else if level == 12 && op == ArithOp::AndAnd {
                Some(ArithBinary::LogicalAnd)
            } else if level == 11 && op == ArithOp::Pipe {
                Some(ArithBinary::BitwiseOr)
            } else if level == 10 && op == ArithOp::Caret {
                Some(ArithBinary::BitwiseXor)
            } else if level == 9 && op == ArithOp::Amp {
                Some(ArithBinary::BitwiseAnd)
            } else if level == 8 && op == ArithOp::EqEq {
                Some(ArithBinary::Equal)
            } else if level == 8 && op == ArithOp::Ne {
                Some(ArithBinary::NotEqual)
            } else if level == 7 && op == ArithOp::Lt {
                Some(ArithBinary::Less)
            } else if level == 7 && op == ArithOp::Le {
                Some(ArithBinary::LessEqual)
            } else if level == 7 && op == ArithOp::Gt {
                Some(ArithBinary::Greater)
            } else if level == 7 && op == ArithOp::Ge {
                Some(ArithBinary::GreaterEqual)
            } else if level == 6 && op == ArithOp::Shl {
                Some(ArithBinary::ShiftLeft)
            } else if level == 6 && op == ArithOp::Shr {
                Some(ArithBinary::ShiftRight)
            } else if level == 5 && op == ArithOp::Plus {
                Some(ArithBinary::Add)
            } else if level == 5 && op == ArithOp::Minus {
                Some(ArithBinary::Subtract)
            } else if level == 4 && op == ArithOp::Star {
                Some(ArithBinary::Multiply)
            } else if level == 4 && op == ArithOp::Slash {
                Some(ArithBinary::Divide)
            } else if level == 4 && op == ArithOp::Percent {
                Some(ArithBinary::Remainder)
            } else {
                None
            }
        },
        _ => None,
    }
}

fn assign_op_for(tk: ArithToken) -> (r: Option<AssignOp>)
    ensures
        r == assign_op_of(tk),
{
    match tk {
        ArithToken::Op(op) => match op {
            ArithOp::Assign => Some(AssignOp::Plain),
            ArithOp::MulAssign => Some(AssignOp::Multiply),
            ArithOp::DivAssign => Some(AssignOp::Divide),
            ArithOp::RemAssign => Some(AssignOp::Remainder),
            ArithOp::AddAssign => Some(AssignOp::Add),
            ArithOp::SubAssign => Some(AssignOp::Subtract),
            ArithOp::ShlAssign => Some(AssignOp::ShiftLeft),
            ArithOp::ShrAssign => Some(AssignOp::ShiftRight),
            ArithOp::AndAssign => Some(AssignOp::BitwiseAnd),
            ArithOp::XorAssign => Some(AssignOp::BitwiseXor),
            ArithOp::OrAssign => Some(AssignOp::BitwiseOr),
            _ => None,
        },
        _ => None,
    }
}

fn prefix_op_for(tk: ArithToken) -> (r: Option<ArithUnary>)
    ensures
        r == prefix_op_of(tk),
{
    match tk {
        ArithToken::Op(ArithOp::Plus) => Some(ArithUnary::Plus),
        ArithToken::Op(ArithOp::Minus) => Some(ArithUnary::Minus),
        ArithToken::Op(ArithOp::Bang) => Some(ArithUnary::LogicalNot),
        ArithToken::Op(ArithOp::Tilde) => Some(ArithUnary::BitwiseNot),
        _ => None,
    }
}

fn step_for(tk: ArithToken) -> (r: Option<i64>)
    ensures
        r == step_of(tk),
{
    match tk {
        ArithToken::Op(ArithOp::Inc) => Some(1i64),
        ArithToken::Op(ArithOp::Dec) => Some(-1i64),
        _ => None,
    }
}

fn parse_comma(t: &[ArithToken], s: &[char], p: usize) -> (r: Result<(ArithExpr, usize), EvalError>)
    requires
        valid_tokens(t@),
        ranges_ok(t@, s@),
        p < t@.len(),
    ensures
        pr_view(r) == p_comma(t@, s@, p as int),
        advances(r, p as int, t@.len() as int),
    decreases t@.len() - p, 31int,
{
    let (mut e, mut q) = parse_assignment(t, s, p)?;
    while t[q] == ArithToken::Comma
        invariant
            valid_tokens(t@),
            ranges_ok(t@, s@),
            p < q < t@.len(),
            p_comma(t@, s@, p as int) == comma_rest(t@, s@, e, q as int),
        decreases t@.len() - q,
    {
        let ghost old_q = q;
        proof {
            lemma_not_end(t@, q as int);
        }
        let (r, q2) = parse_assignment(t, s, q + 1)?;
        e = ArithExpr::Comma(Box::new(e), Box::new(r));
        q = q2;
    }
    Ok((e, q))
}

fn parse_assignment(t: &[ArithToken], s: &[char], p: usize) -> (r: Result<(ArithExpr, usize), EvalError>)
    requires
        valid_tokens(t@),
        ranges_ok(t@, s@),
        p < t@.len(),
    ensures
        pr_view(r) == p_assign(t@, s@, p as int),
        advances(r, p as int, t@.len() as int),
    decreases t@.len() - p, 29int,
{
    let (left, q) = parse_conditional(t, s, p)?;
    let aop = match assign_op_for(t[q]) {
        None => {
            return Ok((left, q));
        },
        Some(aop) => aop,
    };
    proof {
        lemma_not_end(t@, q as int);
    }
    match left {
        ArithExpr::Variable(a, b) => {
            let (r, q2) = parse_assignment(t, s, q + 1)?;
            Ok((ArithExpr::Assign(a, b, aop, Box::new(r)), q2))
        },
        _ => Err(invalid("assignment requires a scalar variable")),
    }
}

fn parse_conditional(t: &[ArithToken], s: &[char], p: usize) -> (r: Result<(ArithExpr, usize), EvalError>)
    requires
        valid_tokens(t@),
        ranges_ok(t@, s@),
        p < t@.len(),
    ensures
        pr_view(r) == p_cond(t@, s@, p as int),
        advances(r, p as int, t@.len() as int),
    decreases t@.len() - p, 28int,
{
    let (c, q) = parse_level(t, s, p, 13)?;
    if t[q] != ArithToken::Question {
        return Ok((c, q));
    }
    proof {
        lemma_not_end(t@, q as int);
    }
    let (wt, q2) = parse_comma(t, s, q + 1)?;
    if t[q2] != ArithToken::Colon {
        return Err(invalid("missing `:` in ternary"));
    }
    proof {
        lemma_not_end(t@, q2 as int);
    }
    let (wf, q3) = parse_conditional(t, s, q2 + 1)?;
    Ok((ArithExpr::Conditional(Box::new(c), Box::new(wt), Box::new(wf)), q3))
}

fn parse_below(t: &[ArithToken], s: &[char], p: usize, level: usize) -> (r: Result<(ArithExpr, usize), EvalError>)
    requires
        valid_tokens(t@),
        ranges_ok(t@, s@),
        p < t@.len(),
        4 <= level <= 13,
    ensures
        pr_view(r) == p_below(t@, s@, p as int, level as int),
        advances(r, p as int, t@.len() as int),
    decreases t@.len() - p, 2 * level,
{
    if level == 4 {
        parse_power(t, s, p)
    } else {
        parse_level(t, s, p, level - 1)
    }
}

fn parse_level(t: &[ArithToken], s: &[char], p: usize, level: usize) -> (r: Result<(ArithExpr, usize), EvalError>)
    requires
        valid_tokens(t@),
        ranges_ok(t@, s@),
        p < t@.len(),
        4 <= level <= 13,
    ensures
        pr_view(r) == p_level(t@, s@, p as int, level as int),
        advances(r, p as int, t@.len() as int),
    decreases t@.len() - p, 2 * level + 1,
{
    let (mut e, mut q) = parse_below(t, s, p, level)?;
    loop
        invariant
            valid_tokens(t@),
            ranges_ok(t@, s@),
            4 <= level <= 13,
            p < q < t@.len(),
            p_level(t@, s@, p as int, level as int) == level_rest(t@, s@, e, q as int, level as int),
        decreases t@.len() - q,
    {
        let op = match binop_for(t[q], level) {
            None => {
                return Ok((e, q));
            },
            Some(op) => op,
        };
        proof {
            lemma_not_end(t@, q as int);
        }
        let (r, q2) = parse_below(t, s, q + 1, level)?;
        e = ArithExpr::Binary(op, Box::new(e), Box::new(r));
        q = q2;
    }
}

fn parse_power(t: &[ArithToken], s: &[char], p: usize) -> (r: Result<(ArithExpr, usize), EvalError>)
    requires
        valid_tokens(t@),
        ranges_ok(t@, s@),
        p < t@.len(),
    ensures
        pr_view(r) == p_power(t@, s@, p as int),
        advances(r, p as int, t@.len() as int),
    decreases t@.len() - p, 7int,
{
    let (l, q) = parse_unary(t, s, p)?;
    if t[q] == ArithToken::Op(ArithOp::Pow) {
        proof {
            lemma_not_end(t@, q as int);
        }
        let (r, q2) = parse_power(t, s, q + 1)?;
        Ok((ArithExpr::Binary(ArithBinary::Power, Box::new(l), Box::new(r)), q2))
    } else {
        Ok((l, q))
    }
}

fn parse_unary(t: &[ArithToken], s: &[char], p: usize) -> (r: Result<(ArithExpr, usize), EvalError>)
    requires
        valid_tokens(t@),
        ranges_ok(t@, s@),
        p < t@.len(),
    ensures
        pr_view(r) == p_unary(t@, s@, p as int),
        advances(r, p as int, t@.len() as int),
    decreases t@.len() - p, 2int,
{
    let prefix = prefix_op_for(t[p]);
    let step = step_for(t[p]);
    if prefix.is_some() || step.is_some() {
        proof {
            lemma_not_end(t@, p as int);
        }
        let (x, q) = parse_unary(t, s, p + 1)?;
        match step {
            Some(d) => match x {
                ArithExpr::Variable(a, b) => Ok((ArithExpr::PreIncrement(a, b, d), q)),
                _ => Err(invalid("increment requires a scalar variable")),
            },
            None => Ok((ArithExpr::Unary(prefix.unwrap(), Box::new(x)), q)),
        }
    } else {
        parse_postfix(t, s, p)
    }
}

fn parse_postfix(t: &[ArithToken], s: &[char], p: usize) -> (r: Result<(ArithExpr, usize), EvalError>)
    requires
        valid_tokens(t@),
        ranges_ok(t@, s@),
        p < t@.len(),
    ensures
        pr_view(r) == p_postfix(t@, s@, p as int),
        advances(r, p as int, t@.len() as int),
    decreases t@.len() - p, 1int,
{
    let (x, q) = parse_primary(t, s, p)?;
    match step_for(t[q]) {
        Some(d) => {
            proof {
                lemma_not_end(t@, q as int);
            }
            match x {
                ArithExpr::Variable(a, b) => Ok((ArithExpr::PostIncrement(a, b, d), q + 1)),
                _ => Err(invalid("increment requires a scalar variable")),
            }
        },
        None => Ok((x, q)),
    }
}

fn parse_primary(t: &[ArithToken], s: &[char], p: usize) -> (r: Result<(ArithExpr, usize), EvalError>)
    requires
        valid_tokens(t@),
        ranges_ok(t@, s@),
        p < t@.len(),
    ensures
        pr_view(r) == p_primary(t@, s@, p as int),
        advances(r, p as int, t@.len() as int),
    decreases t@.len() - p, 0int,
{
    let tk = t[p];
    assert(tk == t@[p as int]);
    match tk {
        ArithToken::Number(a, b) => {
            proof {
                lemma_not_end(t@, p as int);
            }
            let raw = &s[a..b];
            match parse_number(raw) {
                Some(v) => Ok((ArithExpr::Number(v), p + 1)),
                None => Err(EvalError::InvalidArith(string_of(raw))),
            }
        },
        ArithToken::Ident(a, b) => {
            proof {
                lemma_not_end(t@, p as int);
            }
            Ok((ArithExpr::Variable(a, b), p + 1))
        },
        ArithToken::LParen => {
            proof {
                lemma_not_end(t@, p as int);
            }
            let (x, q) = parse_comma(t, s, p + 1)?;
            if t[q] != ArithToken::RParen {
                return Err(invalid("missing `)`"));
            }
            proof {
                lemma_not_end(t@, q as int);
            }
            Ok((ArithExpr::Group(Box::new(x)), q + 1))
        },
        other => {
            let mut msg = String::new();
            crate::text::push_str(&mut msg, "expected arithmetic operand, found ");
            let d = token_text_debug(other, s);
            crate::text::push_str(&mut msg, d.as_str());
            Err(EvalError::InvalidArith(msg))
        },
    }
}

// ---------------------------------------------------------------------------
// Evaluation
// ---------------------------------------------------------------------------

/// The decimal digits of a natural number.
pub open spec fn nat_digits(n: nat) -> Seq<char>
    decreases n,
{
    if n < 10 {
        seq![(48 + n) as char]
    } else {
        nat_digits(n / 10) + seq![(48 + n % 10) as char]
    }
}

/// The decimal text of an integer, with a leading `-` when negative.
pub open spec fn decimal_text(v: int) -> Seq<char> {
    if v < 0 {
        seq!['-'] + nat_digits((-v) as nat)
    } else {
        nat_digits(v as nat)
    }
}

fn digit_char(d: u64) -> (r: char)
    requires
        d < 10,
    ensures
        r == (48 + d) as char,
{
    match d {
        0 => '0',
        1 => '1',
        2 => '2',
        3 => '3',
        4 => '4',
        5 => '5',
        6 => '6',
        7 => '7',
        8 => '8',
        _ => '9',
    }
}

fn push_digits(out: &mut String, n: u64)
    ensures
        final(out)@ == old(out)@ + nat_digits(n as nat),
    decreases n,
{
    if n < 10 {
        push_char(out, digit_char(n));
    } else {
        push_digits(out, n / 10);
        push_char(out, digit_char(n % 10));
        assert(final(out)@ =~= old(out)@ + nat_digits(n as nat));
    }
}

/// Decimal text of an `i64`, with a leading `-` when negative.
pub(crate) fn i64_to_string(v: i64) -> (r: String)
    ensures
        r@ == decimal_text(v as int),
{
    let mut out = String::new();
    if v < 0 {
        push_char(&mut out, '-');
        let magnitude: u64 = if v == i64::MIN {
            9223372036854775808u64
        } else {
            (-v) as u64
        };
        push_digits(&mut out, magnitude);
    } else {
        push_digits(&mut out, v as u64);
    }
    out
}

/// Decimal text of a `usize`.
pub(crate) fn usize_to_string(v: usize) -> (r: String)
    ensures
        r@ == decimal_text(v as int),
{
    let mut out = String::new();
    push_digits(&mut out, v as u64);
    out
}

pub open spec fn modulus() -> int {
    0x1_0000_0000_0000_0000
}

/// `base ** exponent` reduced to an `i64` the way repeated wrapping
/// multiplication reduces it.
pub open spec fn wrapping_pow_spec(base: i64, exponent: nat) -> i64 {
    i64_specs::signed_crop(pow(base as int, exponent))
}

proof fn lemma_crop_mod(y: int)
    ensures
        (i64_specs::signed_crop(y) as int) % modulus() == y % modulus(),
{
    let m = modulus();
    let r = y % m;
    assert(0 <= r < m);
    if r > i64::MAX {
        assert(i64_specs::signed_crop(y) as int == r - m);
        lemma_mod_sub_multiples_vanish(r, m);
        lemma_mod_twice(y, m);
    } else {
        assert(i64_specs::signed_crop(y) as int == r);
        lemma_mod_twice(y, m);
    }
}

proof fn lemma_crop_determined(x: int, y: int)
    requires
        x % modulus() == y % modulus(),
    ensures
        i64_specs::signed_crop(x) == i64_specs::signed_crop(y),
{
}

proof fn lemma_crop_in_range(v: i64)
    ensures
        i64_specs::signed_crop(v as int) == v,
{
    let m = modulus();
    let x = v as int;
    if x >= 0 {
        vstd::arithmetic::div_mod::lemma_small_mod(x as nat, m as nat);
    } else {
        lemma_fundamental_div_mod(x, m);
        assert((x + m) % m == x % m) by {
            vstd::arithmetic::div_mod::lemma_mod_add_multiples_vanish(x, m);
        }
        vstd::arithmetic::div_mod::lemma_small_mod((x + m) as nat, m as nat);
    }
}

/// Exponentiation by squaring with wrapping multiplication.
fn wrapping_pow(base: i64, exponent: u64) -> (r: i64)
    ensures
        r == wrapping_pow_spec(base, exponent as nat),
{
    let ghost m: int = modulus();
    let mut result: i64 = 1;
    let mut b: i64 = base;
    let mut e: u64 = exponent;
    proof {
        lemma_pow1(1);
        assert(pow(base as int, exponent as nat) == pow(b as int, e as nat));
        assert((result as int * pow(b as int, e as nat)) == pow(base as int, exponent as nat));
    }
    while e != 0
        invariant
            m == modulus(),
            (result as int * pow(b as int, e as nat)) % m == pow(base as int, exponent as nat) % m,
        decreases e,
    {
        let ghost r0 = result as int;
        let ghost b0 = b as int;
        let ghost e0 = e as nat;
        let ghost k = (e / 2) as nat;
        proof {
            lemma_square_is_pow2(b0);
            lemma_pow_multiplies(b0, 2, k);
            lemma_pow_adds(b0, 2 * k, 1);
            lemma_pow1(b0);
        }
        if e % 2 == 1 {
            result = result.wrapping_mul(b);
            proof {
                assert(e0 == 2 * k + 1);
                lemma_crop_mod(r0 * b0);
                // (r0 * b0 * b0^(2k)) % m == (r0 * b0^(2k+1)) % m
                assert(pow(b0, e0) == pow(b0, 2 * k) * b0);
                assert(r0 * pow(b0, e0) == (r0 * b0) * pow(b0, 2 * k)) by (nonlinear_arith)
                    requires pow(b0, e0) == pow(b0, 2 * k) * b0;
                lemma_mul_mod_noop(result as int, pow(b0, 2 * k), m);
                lemma_mul_mod_noop(r0 * b0, pow(b0, 2 * k), m);
                assert((result as int * pow(b0, 2 * k)) % m == (r0 * pow(b0, e0)) % m);
            }
        } else {
            proof {
                assert(e0 == 2 * k);
            }
        }
        proof {
            assert((result as int * pow(b0, 2 * k)) % m == pow(base as int, exponent as nat) % m);
        }
        e = e / 2;
        if e != 0 {
            b = b.wrapping_mul(b);
            proof {
                lemma_crop_mod(b0 * b0);
                // pow(b, k) % m == pow(b0 * b0, k) % m
                lemma_pow_mod_noop(b as int, k, m);
                lemma_pow_mod_noop(b0 * b0, k, m);
                assert(pow(b0, 2) == b0 * b0) by {
                    lemma_square_is_pow2(b0);
                }
                assert(pow(pow(b0, 2), k) == pow(b0, 2 * k));
                assert(pow(b as int, k) % m == pow(b0, 2 * k) % m);
                lemma_mul_mod_noop(result as int, pow(b as int, k), m);
                lemma_mul_mod_noop(result as int, pow(b0, 2 * k), m);
            }
        } else {
            proof {
                assert(k == 0);
                lemma_pow0(b0);
                assert(2 * k == 0);
            }
        }
    }
    proof {
        lemma_pow0(b as int);
        assert(result as int % m == pow(base as int, exponent as nat) % m);
        lemma_crop_in_range(result);
        lemma_crop_mod(result as int);
        lemma_crop_determined(result as int, pow(base as int, exponent as nat));
    }
    result
}

/// The value of a binary operator on two operands (the logical operators,
/// which short-circuit, are evaluated by [`eval_expr`] itself).
pub open spec fn binary_value(op: ArithBinary, l: i64, r: i64) -> Result<i64, EvalErrorView> {
    match op {
        ArithBinary::Power => if r < 0 {
            Err(EvalErrorView::NegativeExponent)
        } else {
            Ok(wrapping_pow_spec(l, r as nat))
        },
        ArithBinary::Multiply => Ok(i64_specs::wrapping_mul(l, r)),
        ArithBinary::Divide => if r == 0 {
            Err(EvalErrorView::DivisionByZero)
        } else {
            Ok(
                match l.checked_div(r) {
                    Some(v) => v,
                    None => i64::MIN,
                },
            )
        },
        ArithBinary::Remainder => if r == 0 {
            Err(EvalErrorView::DivisionByZero)
        } else {
            Ok(
                match l.checked_rem(r) {
                    Some(v) => v,
                    None => 0,
                },
            )
        },
        ArithBinary::Add => Ok(i64_specs::wrapping_add(l, r)),
        ArithBinary::Subtract => Ok(i64_specs::wrapping_sub(l, r)),
        ArithBinary::ShiftLeft => Ok(i64_specs::wrapping_shl(l, r as u32)),
        ArithBinary::ShiftRight => Ok(i64_specs::wrapping_shr(l, r as u32)),
        ArithBinary::Less => Ok(if l < r { 1 } else { 0 }),
        ArithBinary::LessEqual => Ok(if l <= r { 1 } else { 0 }),
        ArithBinary::Greater => Ok(if l > r { 1 } else { 0 }),
        ArithBinary::GreaterEqual => Ok(if l >= r { 1 } else { 0 }),
        ArithBinary::Equal => Ok(if l == r { 1 } else { 0 }),
        ArithBinary::NotEqual => Ok(if l != r { 1 } else { 0 }),
        ArithBinary::BitwiseAnd => Ok(l & r),
        ArithBinary::BitwiseXor => Ok(l ^ r),
        ArithBinary::BitwiseOr => Ok(l | r),
        ArithBinary::LogicalAnd => Ok(if l != 0 && r != 0 { 1 } else { 0 }),
        ArithBinary::LogicalOr => Ok(if l != 0 || r != 0 { 1 } else { 0 }),
    }
}

/// The value of a binary operator that cannot fail.
pub open spec fn op_value(op: ArithBinary, l: i64, r: i64) -> i64 {
    match binary_value(op, l, r) {
        Ok(v) => v,
        Err(_) => 0,
    }
}

/// The bitwise operators: `^` is exclusive or (a value cancels itself,
/// zero leaves a value alone, and `^ r` twice gives the value back), `&`
/// and `|` are idempotent and commutative, and together the three agree:
/// the bits set in `l | r` are those in `l & r` or in `l ^ r`.
pub proof fn lemma_bitwise_operators(l: i64, r: i64)
    ensures
        binary_value(ArithBinary::BitwiseXor, l, r) == Ok::<i64, EvalErrorView>(l ^ r),
        binary_value(ArithBinary::BitwiseAnd, l, r) == Ok::<i64, EvalErrorView>(l & r),
        binary_value(ArithBinary::BitwiseOr, l, r) == Ok::<i64, EvalErrorView>(l | r),
        op_value(ArithBinary::BitwiseXor, l, l) == 0,
        op_value(ArithBinary::BitwiseXor, l, 0) == l,
        op_value(ArithBinary::BitwiseXor, op_value(ArithBinary::BitwiseXor, l, r), r) == l,
        op_value(ArithBinary::BitwiseXor, l, r) == op_value(ArithBinary::BitwiseXor, r, l),
        op_value(ArithBinary::BitwiseAnd, l, l) == l,
        op_value(ArithBinary::BitwiseAnd, l, 0) == 0,
        op_value(ArithBinary::BitwiseAnd, l, r) == op_value(ArithBinary::BitwiseAnd, r, l),
        op_value(ArithBinary::BitwiseOr, l, l) == l,
        op_value(ArithBinary::BitwiseOr, l, 0) == l,
        op_value(ArithBinary::BitwiseOr, l, r) == op_value(ArithBinary::BitwiseOr, r, l),
        op_value(ArithBinary::BitwiseOr, op_value(ArithBinary::BitwiseAnd, l, r), op_value(
            ArithBinary::BitwiseXor,
            l,
            r,
        )) == op_value(ArithBinary::BitwiseOr, l, r),
        op_value(ArithBinary::BitwiseAnd, op_value(ArithBinary::BitwiseAnd, l, r), op_value(
            ArithBinary::BitwiseXor,
            l,
            r,
        )) == 0,
{
    assert(l ^ l == 0) by (bit_vector);
    assert(l ^ 0 == l) by (bit_vector);
    assert((l ^ r) ^ r == l) by (bit_vector);
    assert(l ^ r == r ^ l) by (bit_vector);
    assert(l & l == l) by (bit_vector);
    assert(l & 0 == 0) by (bit_vector);
    assert(l & r == r & l) by (bit_vector);
    assert(l | l == l) by (bit_vector);
    assert(l | 0 == l) by (bit_vector);
    assert(l | r == r | l) by (bit_vector);
    assert((l & r) | (l ^ r) == l | r) by (bit_vector);
    assert((l & r) & (l ^ r) == 0) by (bit_vector);
}

/// The comparisons give 1 for true and 0 for false: `<` is `>` with its
/// operands swapped, `<=` is `>=` swapped, `<` and `>=` are complements, and
/// exactly one of `==` and `!=` holds.
pub proof fn lemma_comparison_operators(l: i64, r: i64)
    ensures
        op_value(ArithBinary::Less, l, r) == (if l < r { 1i64 } else { 0i64 }),
        op_value(ArithBinary::Equal, l, r) == (if l == r { 1i64 } else { 0i64 }),
        op_value(ArithBinary::Less, l, r) == op_value(ArithBinary::Greater, r, l),
        op_value(ArithBinary::LessEqual, l, r) == op_value(ArithBinary::GreaterEqual, r, l),
        op_value(ArithBinary::Less, l, r) + op_value(ArithBinary::GreaterEqual, l, r) == 1,
        op_value(ArithBinary::Equal, l, r) + op_value(ArithBinary::NotEqual, l, r) == 1,
        op_value(ArithBinary::LessEqual, l, r) == op_value(ArithBinary::LogicalOr, op_value(
            ArithBinary::Less,
            l,
            r,
        ), op_value(ArithBinary::Equal, l, r)),
        op_value(ArithBinary::LogicalAnd, l, r) == (if l != 0 && r != 0 { 1i64 } else { 0i64 }),
        op_value(ArithBinary::LogicalOr, l, r) == (if l != 0 || r != 0 { 1i64 } else { 0i64 }),
{
}

/// Addition and subtraction wrap around 64 bits: without overflow they are
/// the mathematical sum and difference, `+` is commutative, and subtracting
/// what was added gives the value back, overflow or not.
pub proof fn lemma_additive_operators(l: i64, r: i64)
    ensures
        i64::MIN <= l + r <= i64::MAX ==> op_value(ArithBinary::Add, l, r) == l + r,
        i64::MIN <= l - r <= i64::MAX ==> op_value(ArithBinary::Subtract, l, r) == l - r,
        op_value(ArithBinary::Add, l, r) == op_value(ArithBinary::Add, r, l),
        op_value(ArithBinary::Subtract, op_value(ArithBinary::Add, l, r), r) == l,
        op_value(ArithBinary::Add, op_value(ArithBinary::Subtract, l, r), r) == l,
        op_value(ArithBinary::Subtract, l, l) == 0,
{
}

/// Multiplication wraps around 64 bits: without overflow it is the
/// mathematical product; it is commutative, and 1 and 0 behave as they do
/// for numbers.
pub proof fn lemma_multiplicative_operators(l: i64, r: i64)
    ensures
        i64::MIN <= l * r <= i64::MAX ==> op_value(ArithBinary::Multiply, l, r) == l * r,
        op_value(ArithBinary::Multiply, l, r) == op_value(ArithBinary::Multiply, r, l),
        op_value(ArithBinary::Multiply, l, 1) == l,
        op_value(ArithBinary::Multiply, l, 0) == 0,
        binary_value(ArithBinary::Divide, l, 0) == Err::<i64, EvalErrorView>(EvalErrorView::DivisionByZero),
        binary_value(ArithBinary::Remainder, l, 0) == Err::<i64, EvalErrorView>(EvalErrorView::DivisionByZero),
        binary_value(ArithBinary::Power, l, -1i64) == Err::<i64, EvalErrorView>(EvalErrorView::NegativeExponent),
{
    assert(l * r == r * l) by (nonlinear_arith);
    assert(l * 1 == l);
    assert(l * 0 == 0);
    if i64::MIN <= l * r <= i64::MAX {
        lemma_crop_in_range((l * r) as i64);
    }
    lemma_crop_in_range(l);
    lemma_crop_in_range(0);
}

proof fn lemma_truncating_division(x: int, d: int)
    requires
        x > 0,
        d > 0,
    ensures
        x == d * (x / d) + x % d,
        0 <= x % d < d,
        0 <= x / d <= x,
        d >= 2 ==> 2 * (x / d) <= x,
{
    lemma_fundamental_div_mod(x, d);
    vstd::arithmetic::div_mod::lemma_mod_pos_bound(x, d);
    let q = x / d;
    let m = x % d;
    assert(0 <= q <= x) by (nonlinear_arith)
        requires
            x == d * q + m,
            0 <= m < d,
            x > 0,
            d > 0,
    ;
    assert(d >= 2 ==> 2 * q <= x) by (nonlinear_arith)
        requires
            x == d * q + m,
            0 <= m < d,
            0 <= q,
    ;
}

/// `/` and `%` truncate toward zero, as C and bash do: quotient times
/// divisor plus remainder gives the dividend back, the remainder is smaller
/// than the divisor in magnitude and takes the dividend's sign, and
/// negating the divisor negates the quotient and keeps the remainder.
#[verifier::spinoff_prover]
pub proof fn lemma_division_operators(l: i64, r: i64)
    requires
        r != 0,
        !(l == i64::MIN && r == -1),
    ensures
        op_value(ArithBinary::Divide, l, r) * r + op_value(ArithBinary::Remainder, l, r) == l,
        -(if r < 0 { -r } else { r as int }) < op_value(ArithBinary::Remainder, l, r) < (if r < 0 {
            -r
        } else {
            r as int
        }),
        op_value(ArithBinary::Remainder, l, r) == 0 || (op_value(ArithBinary::Remainder, l, r) > 0) == (l
            > 0),
{
    let x = l as int;
    let d = r as int;
    let qv = op_value(ArithBinary::Divide, l, r) as int;
    let mv = op_value(ArithBinary::Remainder, l, r) as int;
    if x > 0 && d > 0 {
        lemma_truncating_division(x, d);
        let q = x / d;
        let m = x % d;
        assert(qv == q && mv == m);
        assert(q * d + m == x) by (nonlinear_arith)
            requires
                x == d * q + m,
        ;
        assert(qv * d + mv == x);
    } else if x < 0 && d < 0 {
        lemma_truncating_division(-x, -d);
        let q = (-x) / (-d);
        let m = (-x) % (-d);
        assert(mv == -m);
        assert(qv == q);
        assert(q * d + (-m) == x) by (nonlinear_arith)
            requires
                -x == (-d) * q + m,
        ;
        assert(qv * d + mv == x);
    } else if x < 0 {
        lemma_truncating_division(-x, d);
        let q = (-x) / d;
        let m = (-x) % d;
        assert(qv == -q && mv == -m);
        assert((-q) * d + (-m) == x) by (nonlinear_arith)
            requires
                -x == d * q + m,
        ;
        assert(qv * d + mv == x);
    } else if x > 0 {
        lemma_truncating_division(x, -d);
        let q = x / (-d);
        let m = x % (-d);
        assert(qv == -q && mv == m);
        assert((-q) * d + m == x) by (nonlinear_arith)
            requires
                x == (-d) * q + m,
        ;
        assert(qv * d + mv == x);
    }
}

/// `**` is repeated multiplication wrapping around 64 bits: anything to the
/// power 0 is 1, to the power 1 is itself, and one more in the exponent is
/// one more factor.
pub proof fn lemma_power_operator(l: i64, r: i64)
    requires
        0 <= r < i64::MAX,
    ensures
        op_value(ArithBinary::Power, l, 0) == 1,
        op_value(ArithBinary::Power, l, 1) == l,
        op_value(ArithBinary::Power, l, (r + 1) as i64) == op_value(
            ArithBinary::Multiply,
            op_value(ArithBinary::Power, l, r),
            l,
        ),
{
    lemma_pow0(l as int);
    lemma_pow1(l as int);
    lemma_crop_in_range(1);
    lemma_crop_in_range(l);
    let p = pow(l as int, r as nat);
    lemma_pow_adds(l as int, r as nat, 1);
    assert(pow(l as int, (r + 1) as nat) == p * l);
    let c = i64_specs::signed_crop(p);
    lemma_crop_mod(p);
    lemma_mul_mod_noop(p, l as int, modulus());
    lemma_mul_mod_noop(c as int, l as int, modulus());
    assert((p * l) % modulus() == ((c as int) * l) % modulus());
    lemma_crop_determined(p * l, (c as int) * l);
}

fn apply_binary(op: ArithBinary, left: i64, right: i64) -> (r: Result<i64, EvalError>)
    ensures
        result_view(r) == binary_value(op, left, right),
{
    match op {
        ArithBinary::Power => {
            if right < 0 {
                return Err(EvalError::NegativeExponent);
            }
            Ok(wrapping_pow(left, right as u64))
        },
        ArithBinary::Multiply => Ok(left.wrapping_mul(right)),
        ArithBinary::Divide => {
            if right == 0 {
                return Err(EvalError::DivisionByZero);
            }
            Ok(
                match left.checked_div(right) {
                    Some(v) => v,
                    None => i64::MIN,
                },
            )
        },
        ArithBinary::Remainder => {
            if right == 0 {
                return Err(EvalError::DivisionByZero);
            }
            Ok(
                match left.checked_rem(right) {
                    Some(v) => v,
                    None => 0,
                },
            )
        },
        ArithBinary::Add => Ok(left.wrapping_add(right)),
        ArithBinary::Subtract => Ok(left.wrapping_sub(right)),
        ArithBinary::ShiftLeft => Ok(left.wrapping_shl(right as u32)),
        ArithBinary::ShiftRight => Ok(left.wrapping_shr(right as u32)),
        ArithBinary::Less => Ok(if left < right { 1 } else { 0 }),
        ArithBinary::LessEqual => Ok(if left <= right { 1 } else { 0 }),
        ArithBinary::Greater => Ok(if left > right { 1 } else { 0 }),
        ArithBinary::GreaterEqual => Ok(if left >= right { 1 } else { 0 }),
        ArithBinary::Equal => Ok(if left == right { 1 } else { 0 }),
        ArithBinary::NotEqual => Ok(if left != right { 1 } else { 0 }),
        ArithBinary::BitwiseAnd => Ok(left & right),
        ArithBinary::BitwiseXor => Ok(left ^ right),
        ArithBinary::BitwiseOr => Ok(left | right),
        ArithBinary::LogicalAnd => Ok(if left != 0 && right != 0 { 1 } else { 0 }),
        ArithBinary::LogicalOr => Ok(if left != 0 || right != 0 { 1 } else { 0 }),
    }
}

/// The binary operator that a compound assignment applies.
pub open spec fn assignment_binary(op: AssignOp) -> ArithBinary {
    match op {
        AssignOp::Plain => ArithBinary::BitwiseOr,
        AssignOp::Multiply => ArithBinary::Multiply,
        AssignOp::Divide => ArithBinary::Divide,
        AssignOp::Remainder => ArithBinary::Remainder,
        AssignOp::Add => ArithBinary::Add,
        AssignOp::Subtract => ArithBinary::Subtract,
        AssignOp::ShiftLeft => ArithBinary::ShiftLeft,
        AssignOp::ShiftRight => ArithBinary::ShiftRight,
        AssignOp::BitwiseAnd => ArithBinary::BitwiseAnd,
        AssignOp::BitwiseXor => ArithBinary::BitwiseXor,
        AssignOp::BitwiseOr => ArithBinary::BitwiseOr,
    }
}

fn apply_assignment(op: AssignOp, left: i64, right: i64) -> (r: Result<i64, EvalError>)
    requires
        op != AssignOp::Plain,
    ensures
        result_view(r) == binary_value(assignment_binary(op), left, right),
{
    let bop = match op {
        AssignOp::Plain => ArithBinary::BitwiseOr,
        AssignOp::Multiply => ArithBinary::Multiply,
        AssignOp::Divide => ArithBinary::Divide,
        AssignOp::Remainder => ArithBinary::Remainder,
        AssignOp::Add => ArithBinary::Add,
        AssignOp::Subtract => ArithBinary::Subtract,
        AssignOp::ShiftLeft => ArithBinary::ShiftLeft,
        AssignOp::ShiftRight => ArithBinary::ShiftRight,
        AssignOp::BitwiseAnd => ArithBinary::BitwiseAnd,
        AssignOp::BitwiseXor => ArithBinary::BitwiseXor,
        AssignOp::BitwiseOr => ArithBinary::BitwiseOr,
    };
    apply_binary(bop, left, right)
}

/// The characters `a..b` of `s`; empty when the range does not fit.
pub open spec fn span(s: Seq<char>, a: usize, b: usize) -> Seq<char> {
    if a <= b <= s.len() {
        s.subrange(a as int, b as int)
    } else {
        Seq::empty()
    }
}

pub open spec fn expr_size(e: ArithExpr) -> nat
    decreases e,
{
    match e {
        ArithExpr::Unary(_, x) => 1 + expr_size(*x),
        ArithExpr::Binary(_, l, r) => 1 + expr_size(*l) + expr_size(*r),
        ArithExpr::Conditional(c, t, f) => 1 + expr_size(*c) + expr_size(*t) + expr_size(*f),
        ArithExpr::Group(x) => 1 + expr_size(*x),
        ArithExpr::Assign(_, _, _, x) => 1 + expr_size(*x),
        ArithExpr::Comma(l, r) => 1 + expr_size(*l) + expr_size(*r),
        _ => 1,
    }
}

/// An evaluation outcome together with the environment it leaves behind.
pub type Evaluated = (Result<i64, EvalErrorView>, EnvModel);

/// Evaluates arithmetic text `s` at variable-recursion depth `depth`;
/// `name` is the variable whose value `s` is (for the recursion error).
/// Blank text is `0`.
pub open spec fn arith_eval(m: EnvModel, s: Seq<char>, depth: int, name: Seq<char>) -> Evaluated
    decreases MAX_RECURSION - depth, 1int, 0nat,
{
    if depth >= MAX_RECURSION {
        (Err(EvalErrorView::ArithmeticRecursion(name)), m)
    } else if all_space(s) {
        (Ok(0), m)
    } else {
        match tokens_from(s, 0) {
            None => (Err(EvalErrorView::InvalidArith(s)), m),
            Some(t) => match p_comma(t, s, 0) {
                Err(x) => (Err(x), m),
                Ok((e, q)) => if tok(t, q) != ArithToken::End {
                    (Err(EvalErrorView::InvalidArith(s)), m)
                } else if depth < 0 {
                    (Err(bad_position()), m)
                } else {
                    eval_expr(m, s, e, depth)
                },
            },
        }
    }
}

/// The value of variable `name` as an arithmetic expression.
pub open spec fn var_value(m: EnvModel, name: Seq<char>, depth: int) -> Evaluated
    decreases MAX_RECURSION - depth, 0int, 0nat,
{
    if depth < 0 || depth + 1 >= MAX_RECURSION {
        (Err(EvalErrorView::ArithmeticRecursion(name)), m)
    } else {
        arith_eval(m, m.value_or_empty(name), depth + 1, name)
    }
}

/// Assigning `value` (as decimal text) to `name`.
pub open spec fn assign_value(m: EnvModel, name: Seq<char>, value: i64) -> Result<EnvModel, EvalErrorView> {
    if (m.assignable)(name) {
        Ok(m.assign(name, decimal_text(value as int)))
    } else {
        Err(EvalErrorView::ArithmeticAssignmentUnsupported(name))
    }
}

pub open spec fn bool_value(b: bool) -> i64 {
    if b {
        1
    } else {
        0
    }
}

/// Evaluates a parsed expression whose variables name characters of `s`.
pub open spec fn eval_expr(m: EnvModel, s: Seq<char>, e: ArithExpr, depth: int) -> Evaluated
    decreases MAX_RECURSION - depth, 0int, expr_size(e),
{
    match e {
        ArithExpr::Number(v) => (Ok(v), m),
        ArithExpr::Variable(a, b) => var_value(m, span(s, a, b), depth),
        ArithExpr::Unary(op, x) => match eval_expr(m, s, *x, depth) {
            (Ok(v), m1) => (
                Ok(
                    match op {
                        ArithUnary::Plus => v,
                        ArithUnary::Minus => i64_specs::wrapping_sub(0, v),
                        ArithUnary::LogicalNot => bool_value(v == 0),
                        ArithUnary::BitwiseNot => !v,
                    },
                ),
                m1,
            ),
            (Err(x), m1) => (Err(x), m1),
        },
        ArithExpr::Binary(ArithBinary::LogicalAnd, l, r) => match eval_expr(m, s, *l, depth) {
            (Ok(lv), m1) => if lv == 0 {
                (Ok(0), m1)
            } else {
                match eval_expr(m1, s, *r, depth) {
                    (Ok(rv), m2) => (Ok(bool_value(rv != 0)), m2),
                    (Err(x), m2) => (Err(x), m2),
                }
            },
            (Err(x), m1) => (Err(x), m1),
        },
        ArithExpr::Binary(ArithBinary::LogicalOr, l, r) => match eval_expr(m, s, *l, depth) {
            (Ok(lv), m1) => if lv != 0 {
                (Ok(1), m1)
            } else {
                match eval_expr(m1, s, *r, depth) {
                    (Ok(rv), m2) => (Ok(bool_value(rv != 0)), m2),
                    (Err(x), m2) => (Err(x), m2),
                }
            },
            (Err(x), m1) => (Err(x), m1),
        },
        ArithExpr::Binary(op, l, r) => match eval_expr(m, s, *l, depth) {
            (Ok(lv), m1) => match eval_expr(m1, s, *r, depth) {
                (Ok(rv), m2) => (binary_value(op, lv, rv), m2),
                (Err(x), m2) => (Err(x), m2),
            },
            (Err(x), m1) => (Err(x), m1),
        },
        ArithExpr::Conditional(c, t, f) => match eval_expr(m, s, *c, depth) {
            (Ok(cv), m1) => if cv != 0 {
                eval_expr(m1, s, *t, depth)
            } else {
                eval_expr(m1, s, *f, depth)
            },
            (Err(x), m1) => (Err(x), m1),
        },
        ArithExpr::Group(x) => eval_expr(m, s, *x, depth),
        ArithExpr::Assign(a, b, op, x) => match eval_expr(m, s, *x, depth) {
            (Ok(rv), m1) => {
                let name = span(s, a, b);
                let computed: Evaluated = if op == AssignOp::Plain {
                    (Ok(rv), m1)
                } else {
                    match var_value(m1, name, depth) {
                        (Ok(lv), m2) => (binary_value(assignment_binary(op), lv, rv), m2),
                        (Err(x), m2) => (Err(x), m2),
                    }
                };
                match computed {
                    (Ok(v), m3) => match assign_value(m3, name, v) {
                        Ok(m4) => (Ok(v), m4),
                        Err(x) => (Err(x), m3),
                    },
                    (Err(x), m3) => (Err(x), m3),
                }
            },
            (Err(x), m1) => (Err(x), m1),
        },
        ArithExpr::PreIncrement(a, b, d) => match var_value(m, span(s, a, b), depth) {
            (Ok(v), m1) => {
                let nv = i64_specs::wrapping_add(v, d);
                match assign_value(m1, span(s, a, b), nv) {
                    Ok(m2) => (Ok(nv), m2),
                    Err(x) => (Err(x), m1),
                }
            },
            (Err(x), m1) => (Err(x), m1),
        },
        ArithExpr::PostIncrement(a, b, d) => match var_value(m, span(s, a, b), depth) {
            (Ok(v), m1) => match assign_value(m1, span(s, a, b), i64_specs::wrapping_add(v, d)) {
                Ok(m2) => (Ok(v), m2),
                Err(x) => (Err(x), m1),
            },
            (Err(x), m1) => (Err(x), m1),
        },
        ArithExpr::Comma(l, r) => match eval_expr(m, s, *l, depth) {
            (Ok(_), m1) => eval_expr(m1, s, *r, depth),
            (Err(x), m1) => (Err(x), m1),
        },
    }
}

/// Whether a host refuses every assignment.
pub open spec fn refuses_assignment(m: EnvModel) -> bool {
    forall|n: Seq<char>| !(#[trigger] (m.assignable)(n))
}

/// A host that refuses every assignment is never written: evaluating any
/// arithmetic text against it leaves the environment as it was (an
/// assignment, increment or decrement fails instead).
pub proof fn lemma_read_only_host_unchanged(m: EnvModel, s: Seq<char>, depth: int, name: Seq<char>)
    requires
        refuses_assignment(m),
    ensures
        arith_eval(m, s, depth, name).1 == m,
    decreases MAX_RECURSION - depth, 1int, 0nat,
{
    if depth < MAX_RECURSION && !all_space(s) {
        match tokens_from(s, 0) {
            Some(t) => match p_comma(t, s, 0) {
                Ok((e, q)) => {
                    if tok(t, q) == ArithToken::End && depth >= 0 {
                        lemma_eval_expr_unchanged(m, s, e, depth);
                    }
                },
                Err(_) => {},
            },
            None => {},
        }
    }
}

proof fn lemma_var_value_unchanged(m: EnvModel, name: Seq<char>, depth: int)
    requires
        refuses_assignment(m),
    ensures
        var_value(m, name, depth).1 == m,
    decreases MAX_RECURSION - depth, 0int, 0nat,
{
    if !(depth < 0 || depth + 1 >= MAX_RECURSION) {
        lemma_read_only_host_unchanged(m, m.value_or_empty(name), depth + 1, name);
    }
}

proof fn lemma_eval_expr_unchanged(m: EnvModel, s: Seq<char>, e: ArithExpr, depth: int)
    requires
        refuses_assignment(m),
    ensures
        eval_expr(m, s, e, depth).1 == m,
    decreases MAX_RECURSION - depth, 0int, expr_size(e),
{
    match e {
        ArithExpr::Number(_) => {},
        ArithExpr::Variable(a, b) => {
            lemma_var_value_unchanged(m, span(s, a, b), depth);
        },
        ArithExpr::Unary(_, x) => {
            lemma_eval_expr_unchanged(m, s, *x, depth);
        },
        ArithExpr::Binary(_, l, r) => {
            lemma_eval_expr_unchanged(m, s, *l, depth);
            lemma_eval_expr_unchanged(m, s, *r, depth);
        },
        ArithExpr::Conditional(c, t, f) => {
            lemma_eval_expr_unchanged(m, s, *c, depth);
            lemma_eval_expr_unchanged(m, s, *t, depth);
            lemma_eval_expr_unchanged(m, s, *f, depth);
        },
        ArithExpr::Group(x) => {
            lemma_eval_expr_unchanged(m, s, *x, depth);
        },
        ArithExpr::Assign(a, b, _, x) => {
            lemma_eval_expr_unchanged(m, s, *x, depth);
            lemma_var_value_unchanged(m, span(s, a, b), depth);
        },
        ArithExpr::PreIncrement(a, b, _) => {
            lemma_var_value_unchanged(m, span(s, a, b), depth);
        },
        ArithExpr::PostIncrement(a, b, _) => {
            lemma_var_value_unchanged(m, span(s, a, b), depth);
        },
        ArithExpr::Comma(l, r) => {
            lemma_eval_expr_unchanged(m, s, *l, depth);
            lemma_eval_expr_unchanged(m, s, *r, depth);
        },
    }
}

/// Whether an arithmetic expression names no variable (no variable read,
/// assignment or increment): its value is then fixed by the text alone and
/// no host is asked.
pub open spec fn names_free(e: ArithExpr) -> bool
    decreases e,
{
    match e {
        ArithExpr::Number(_) => true,
        ArithExpr::Unary(_, x) => names_free(*x),
        ArithExpr::Binary(_, l, r) => names_free(*l) && names_free(*r),
        ArithExpr::Conditional(c, t, f) => names_free(*c) && names_free(*t) && names_free(*f),
        ArithExpr::Group(x) => names_free(*x),
        ArithExpr::Comma(l, r) => names_free(*l) && names_free(*r),
        _ => false,
    }
}

/// Whether evaluating `s` asks the host: it is well formed and names a
/// variable. Blank text, text that does not tokenize or parse, and
/// expressions of numbers alone are decided by the library.
pub open spec fn asks_host(s: Seq<char>) -> bool {
    !all_space(s) && match tokens_from(s, 0) {
        None => false,
        Some(t) => match p_comma(t, s, 0) {
            Err(_) => false,
            Ok((e, q)) => tok(t, q) == ArithToken::End && !names_free(e),
        },
    }
}

/// An expression that names no variable evaluates alike under every
/// environment and leaves it unchanged.
pub proof fn lemma_names_free(m: EnvModel, s: Seq<char>, e: ArithExpr, depth: int)
    requires
        names_free(e),
    ensures
        eval_expr(m, s, e, depth) == (eval_expr(arbitrary(), s, e, depth).0, m),
    decreases e,
{
    let a: EnvModel = arbitrary();
    match e {
        ArithExpr::Number(_) => {},
        ArithExpr::Unary(_, x) => {
            lemma_names_free(m, s, *x, depth);
            lemma_names_free(a, s, *x, depth);
        },
        ArithExpr::Binary(_, l, r) => {
            lemma_names_free(m, s, *l, depth);
            lemma_names_free(a, s, *l, depth);
            lemma_names_free(m, s, *r, depth);
            lemma_names_free(a, s, *r, depth);
        },
        ArithExpr::Conditional(c, t, f) => {
            lemma_names_free(m, s, *c, depth);
            lemma_names_free(a, s, *c, depth);
            lemma_names_free(m, s, *t, depth);
            lemma_names_free(a, s, *t, depth);
            lemma_names_free(m, s, *f, depth);
            lemma_names_free(a, s, *f, depth);
        },
        ArithExpr::Group(x) => {
            lemma_names_free(m, s, *x, depth);
            lemma_names_free(a, s, *x, depth);
        },
        ArithExpr::Comma(l, r) => {
            lemma_names_free(m, s, *l, depth);
            lemma_names_free(a, s, *l, depth);
            lemma_names_free(m, s, *r, depth);
            lemma_names_free(a, s, *r, depth);
        },
        _ => {},
    }
}

/// Text that does not ask the host evaluates alike under every environment
/// and leaves it unchanged.
pub proof fn lemma_host_free(m: EnvModel, s: Seq<char>)
    requires
        !asks_host(s),
    ensures
        arith_eval(m, s, 0, s) == (arith_eval(arbitrary(), s, 0, s).0, m),
{
    if !all_space(s) {
        if let Some(t) = tokens_from(s, 0) {
            if let Ok((e, q)) = p_comma(t, s, 0) {
                if tok(t, q) == ArithToken::End {
                    lemma_names_free(m, s, e, 0);
                }
            }
        }
    }
}

/// `b` continues `a`: it holds `a` as its first entries.
pub open spec fn extends(a: Seq<(Seq<char>, bool)>, b: Seq<(Seq<char>, bool)>) -> bool {
    a.len() <= b.len() && forall|i: int| 0 <= i < a.len() ==> #[trigger] b[i] == a[i]
}

/// Every assignment recorded after `a` in `b` was accepted by the host.
pub open spec fn accepted(a: Seq<(Seq<char>, bool)>, b: Seq<(Seq<char>, bool)>) -> bool {
    extends(a, b) && forall|i: int| a.len() <= i < b.len() ==> (#[trigger] b[i]).1
}

/// How the evaluation that turned the record of host assignments `a` (each
/// a name and whether the host's `set_var` accepted it) into `b` ended,
/// with `failure` its error if any: either the host accepted every
/// assignment, or it refused the last one and the evaluation failed with
/// `ArithmeticAssignmentUnsupported` for that name.
pub open spec fn settles_by(a: Seq<(Seq<char>, bool)>, b: Seq<(Seq<char>, bool)>, failure: Option<EvalErrorView>) -> bool {
    accepted(a, b) || (extends(a, b) && b.len() > a.len() && accepted(a, b.drop_last()) && !b.last().1
        && failure == Some(EvalErrorView::ArithmeticAssignmentUnsupported(b.last().0)))
}

/// The error of a result, if any.
pub open spec fn failure_of<T>(r: Result<T, EvalErrorView>) -> Option<EvalErrorView> {
    match r {
        Ok(_) => None,
        Err(e) => Some(e),
    }
}

/// [`settles_by`] for the result `r`.
pub open spec fn settles<T>(a: Seq<(Seq<char>, bool)>, b: Seq<(Seq<char>, bool)>, r: Result<T, EvalErrorView>) -> bool {
    settles_by(a, b, failure_of(r))
}

/// Evaluations that settle chain: after a step whose assignments were all
/// accepted, the next step settles the whole.
pub proof fn lemma_settles_chain(a: Seq<(Seq<char>, bool)>, b: Seq<(Seq<char>, bool)>)
    requires
        accepted(a, b),
    ensures
        forall|c: Seq<(Seq<char>, bool)>, f: Option<EvalErrorView>| #[trigger] settles_by(b, c, f) ==> settles_by(a, c, f),
{
    assert forall|c: Seq<(Seq<char>, bool)>, f: Option<EvalErrorView>| #[trigger] settles_by(b, c, f) implies settles_by(a, c, f) by {
        assert forall|i: int| 0 <= i < a.len() implies #[trigger] c[i] == a[i] by {
            assert(b[i] == a[i]);
            assert(c[i] == b[i]);
        }
        if accepted(b, c) {
            assert forall|i: int| a.len() <= i < c.len() implies (#[trigger] c[i]).1 by {
                if i < b.len() {
                    assert(c[i] == b[i]);
                }
            }
        } else {
            let d = c.drop_last();
            assert forall|i: int| 0 <= i < a.len() implies #[trigger] d[i] == a[i] by {
                assert(c[i] == a[i]);
            }
            assert forall|i: int| a.len() <= i < d.len() implies (#[trigger] d[i]).1 by {
                assert(d[i] == c[i]);
                if i < b.len() {
                    assert(c[i] == b[i]);
                } else {
                    assert(d[i].1);
                }
            }
        }
    }
}

/// One assignment recorded after steps the host accepted: the record
/// still continues the first, and is all accepted when the host accepted
/// this one too.
pub proof fn lemma_record_step(a: Seq<(Seq<char>, bool)>, p: Seq<(Seq<char>, bool)>, x: (Seq<char>, bool))
    requires
        accepted(a, p),
    ensures
        extends(a, p.push(x)),
        accepted(a, p.push(x).drop_last()),
        x.1 ==> accepted(a, p.push(x)),
{
    let b = p.push(x);
    assert(b.drop_last() =~= p);
    assert forall|i: int| 0 <= i < a.len() implies #[trigger] b[i] == a[i] by {
        assert(b[i] == b.drop_last()[i]);
        assert(p[i] == a[i]);
    }
    assert forall|i: int| a.len() <= i < b.len() && b.last().1 implies (#[trigger] b[i]).1 by {
        if i < p.len() {
            assert(b[i] == b.drop_last()[i]);
            assert(p[i].1);
        }
    }
}

/// The result of an evaluation step against an environment that follows its
/// model: the outcome and the environment left behind, as `spec` says.
pub open spec fn evaluated_as<E: Env>(
    r: Result<i64, EvalError>,
    after: &E,
    spec: Evaluated,
) -> bool {
    E::obeys_env_model() ==> (result_view(r), after.model()) == spec
}

fn variable_value<E: Env>(name: &str, env: &mut E, depth: usize, log: &mut Ghost<Seq<(Seq<char>, bool)>>) -> (r: Result<i64, EvalError>)
    ensures
        evaluated_as(r, &*final(env), var_value(old(env).model(), name@, depth as int)),
        settles(old(log)@, final(log)@, result_view(r)),
    decreases MAX_RECURSION - depth, 0int, 0nat,
{
    if depth >= MAX_RECURSION - 1 {
        return Err(EvalError::ArithmeticRecursion(crate::text::owned(name)));
    }
    let value: Vec<char> = match env.var(name) {
        Some(v) => chars_of(v),
        None => Vec::new(),
    };
    let n = chars_of(name);
    eval_inner(value.as_slice(), env, depth + 1, n.as_slice(), log)
}

fn assign<E: Env>(name: &str, value: i64, env: &mut E, log: &mut Ghost<Seq<(Seq<char>, bool)>>) -> (r: Result<(), EvalError>)
    ensures
        final(log)@ == old(log)@.push((name@, r is Ok)),
        r matches Err(e) ==> e@ == EvalErrorView::ArithmeticAssignmentUnsupported(name@),
        E::obeys_env_model() ==> match assign_value(old(env).model(), name@, value) {
            Ok(m2) => r is Ok && final(env).model() == m2,
            Err(x) => r matches Err(e) && e@ == x && final(env).model() == old(env).model(),
        },
{
    let ok = env.set_var(name, i64_to_string(value));
    proof {
        log@ = log@.push((name@, ok));
    }
    if ok {
        Ok(())
    } else {
        Err(EvalError::ArithmeticAssignmentUnsupported(crate::text::owned(name)))
    }
}

fn evaluate<E: Env>(
    e: &ArithExpr,
    s: &[char],
    env: &mut E,
    depth: usize,
    log: &mut Ghost<Seq<(Seq<char>, bool)>>,
) -> (r: Result<i64, EvalError>)
    requires
        depth < MAX_RECURSION,
    ensures
        evaluated_as(r, &*final(env), eval_expr(old(env).model(), s@, *e, depth as int)),
        names_free(*e) ==> result_view(r) == eval_expr(arbitrary(), s@, *e, depth as int).0,
        settles(old(log)@, final(log)@, result_view(r)),
    decreases MAX_RECURSION - depth, 0int, expr_size(*e),
{
    let ghost l0 = log@;
    proof {
        if names_free(*e) {
            let a: EnvModel = arbitrary();
            match e {
                ArithExpr::Unary(_, x) => lemma_names_free(a, s@, **x, depth as int),
                ArithExpr::Binary(_, l, r) => {
                    lemma_names_free(a, s@, **l, depth as int);
                    lemma_names_free(a, s@, **r, depth as int);
                },
                ArithExpr::Conditional(c, t, f) => {
                    lemma_names_free(a, s@, **c, depth as int);
                },
                ArithExpr::Comma(l, r) => {
                    lemma_names_free(a, s@, **l, depth as int);
                },
                _ => {},
            }
        }
    }
    match e {
        ArithExpr::Number(v) => Ok(*v),
        ArithExpr::Variable(a, b) => {
            let name = var_name(s, *a, *b);
            variable_value(name.as_str(), env, depth, log)
        },
        ArithExpr::Unary(op, x) => {
            let v = evaluate(x, s, env, depth, log)?;
            Ok(
                match op {
                    ArithUnary::Plus => v,
                    ArithUnary::Minus => 0i64.wrapping_sub(v),
                    ArithUnary::LogicalNot => if v == 0 { 1 } else { 0 },
                    ArithUnary::BitwiseNot => !v,
                },
            )
        },
        ArithExpr::Binary(ArithBinary::LogicalAnd, l, r) => {
            let lv = evaluate(l, s, env, depth, log)?;
            if lv == 0 {
                return Ok(0);
            }
            proof {
                lemma_settles_chain(l0, log@);
            }
            let rv = evaluate(r, s, env, depth, log)?;
            Ok(if rv != 0 { 1 } else { 0 })
        },
        ArithExpr::Binary(ArithBinary::LogicalOr, l, r) => {
            let lv = evaluate(l, s, env, depth, log)?;
            if lv != 0 {
                return Ok(1);
            }
            proof {
                lemma_settles_chain(l0, log@);
            }
            let rv = evaluate(r, s, env, depth, log)?;
            Ok(if rv != 0 { 1 } else { 0 })
        },
        ArithExpr::Binary(op, l, r) => {
            let lv = evaluate(l, s, env, depth, log)?;
            proof {
                lemma_settles_chain(l0, log@);
            }
            let rv = evaluate(r, s, env, depth, log)?;
            apply_binary(*op, lv, rv)
        },
        ArithExpr::Conditional(c, t, f) => {
            let cv = evaluate(c, s, env, depth, log)?;
            proof {
                lemma_settles_chain(l0, log@);
            }
            if cv != 0 {
                evaluate(t, s, env, depth, log)
            } else {
                evaluate(f, s, env, depth, log)
            }
        },
        ArithExpr::Group(x) => evaluate(x, s, env, depth, log),
        ArithExpr::Assign(a, b, op, x) => {
            let rv = evaluate(x, s, env, depth, log)?;
            let name = var_name(s, *a, *b);
            proof {
                lemma_settles_chain(l0, log@);
            }
            let value = if *op == AssignOp::Plain {
                rv
            } else {
                let lv = variable_value(name.as_str(), env, depth, log)?;
                apply_assignment(*op, lv, rv)?
            };
            let ghost l1 = log@;
            match assign(name.as_str(), value, env, log) {
                Ok(()) => {},
                Err(e) => {
                    proof {
                        lemma_record_step(l0, l1, log@.last());
                    }
                    return Err(e);
                },
            }
            proof {
                lemma_record_step(l0, l1, log@.last());
            }
            Ok(value)
        },
        ArithExpr::PreIncrement(a, b, d) => {
            let name = var_name(s, *a, *b);
            let value = variable_value(name.as_str(), env, depth, log)?.wrapping_add(*d);
            let ghost l1 = log@;
            match assign(name.as_str(), value, env, log) {
                Ok(()) => {},
                Err(e) => {
                    proof {
                        lemma_record_step(l0, l1, log@.last());
                    }
                    return Err(e);
                },
            }
            proof {
                lemma_record_step(l0, l1, log@.last());
            }
            Ok(value)
        },
        ArithExpr::PostIncrement(a, b, d) => {
            let name = var_name(s, *a, *b);
            let value = variable_value(name.as_str(), env, depth, log)?;
            let ghost l1 = log@;
            match assign(name.as_str(), value.wrapping_add(*d), env, log) {
                Ok(()) => {},
                Err(e) => {
                    proof {
                        lemma_record_step(l0, l1, log@.last());
                    }
                    return Err(e);
                },
            }
            proof {
                lemma_record_step(l0, l1, log@.last());
            }
            Ok(value)
        },
        ArithExpr::Comma(l, r) => {
            evaluate(l, s, env, depth, log)?;
            proof {
                lemma_settles_chain(l0, log@);
            }
            evaluate(r, s, env, depth, log)
        },
    }
}

fn var_name(s: &[char], a: usize, b: usize) -> (r: String)
    ensures
        r@ == span(s@, a, b),
{
    if a <= b && b <= s.len() {
        string_of_range(s, a, b)
    } else {
        String::new()
    }
}

fn eval_inner<E: Env>(
    input: &[char],
    env: &mut E,
    depth: usize,
    name: &[char],
    log: &mut Ghost<Seq<(Seq<char>, bool)>>,
) -> (r: Result<i64, EvalError>)
    ensures
        settles(old(log)@, final(log)@, result_view(r)),
        evaluated_as(r, &*final(env), arith_eval(old(env).model(), input@, depth as int, name@)),
        !asks_host(input@) ==> result_view(r) == arith_eval(arbitrary(), input@, depth as int, name@).0,
    decreases MAX_RECURSION - depth, 1int, 0nat,
{
    if depth >= MAX_RECURSION {
        return Err(EvalError::ArithmeticRecursion(string_of(name)));
    }
    if blank(input) {
        return Ok(0);
    }
    let tokens = match tokenize(input) {
        Some(t) => t,
        None => {
            return Err(EvalError::InvalidArith(string_of(input)));
        },
    };
    let n = input.len();
    proof {
        assert(input@.len() == n);
        lemma_tokens_from_valid(input@, 0);
    }
    let (expr, q) = parse_comma(tokens.as_slice(), input, 0)?;
    if tokens[q] != ArithToken::End {
        return Err(EvalError::InvalidArith(string_of(input)));
    }
    evaluate(&expr, input, env, depth, log)
}

/// Evaluates `input` as a bash arithmetic expression against `env`.
pub fn eval<E: Env>(input: &str, env: &mut E) -> (r: Result<i64, EvalError>)
    ensures
        evaluated_as(r, &*final(env), arith_eval(old(env).model(), input@, 0, input@)),
        !asks_host(input@) ==> result_view(r) == arith_eval(arbitrary(), input@, 0, input@).0,
{
    let mut log: Ghost<Seq<(Seq<char>, bool)>> = Ghost(Seq::empty());
    eval_recorded(input, env, &mut log)
}

/// [`eval`], recording in `log` each assignment handed to the host's
/// `set_var` and its answer. Whatever the host: either it accepted every
/// assignment, or it refused the last one and the evaluation failed with
/// `ArithmeticAssignmentUnsupported` for that name.
pub(crate) fn eval_recorded<E: Env>(input: &str, env: &mut E, log: &mut Ghost<Seq<(Seq<char>, bool)>>) -> (r: Result<i64, EvalError>)
    ensures
        evaluated_as(r, &*final(env), arith_eval(old(env).model(), input@, 0, input@)),
        !asks_host(input@) ==> result_view(r) == arith_eval(arbitrary(), input@, 0, input@).0,
        settles(old(log)@, final(log)@, result_view(r)),
{
    let s = chars_of(input);
    eval_inner(s.as_slice(), env, 0, s.as_slice(), log)
}

} // verus!
