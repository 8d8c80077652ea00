//! Words, tokens and parse errors as mathematical values: the terms in
//! which the lexer's and parser's contracts are stated.

use vstd::prelude::*;

use crate::ast::{
    case_op_text, remove_op_text, replace_op_text, BinaryOp, CaseModifyKind, Expr, ParameterExpansion, ParameterOp, Primary, RemoveKind,
    ReplaceKind, UnaryOp, Word, WordPart,
};
use crate::error::ParseError;

verus! {

/// A word part as a value.
pub enum PartV {
    Literal(Seq<char>),
    Quoted(Seq<char>),
    Var(Seq<char>),
    QuotedVar(Seq<char>),
    Expansion(ExpV, bool),
}

/// A parameter expansion as a value.
pub struct ExpV {
    pub name: Seq<char>,
    pub op: OpV,
}

/// A parameter operation as a value.
pub enum OpV {
    Length,
    Remove(RemoveKind, Seq<PartV>),
    Replace(ReplaceKind, Seq<PartV>, Seq<PartV>),
    Substring(Seq<PartV>, Option<Seq<PartV>>),
    CaseModify(CaseModifyKind, Option<Seq<PartV>>),
    DefaultValue(bool, Seq<PartV>),
    AlternateValue(bool, Seq<PartV>),
}

pub open spec fn word_v(w: Word) -> Seq<PartV>
    decreases w, 0int,
{
    parts_v(w.parts@, w.parts@.len() as int)
}

pub open spec fn parts_v(parts: Seq<WordPart>, i: int) -> Seq<PartV>
    decreases parts, i,
{
    if i <= 0 || i > parts.len() {
        Seq::empty()
    } else {
        parts_v(parts, i - 1).push(part_v(parts[i - 1]))
    }
}

pub open spec fn part_v(p: WordPart) -> PartV
    decreases p, 0int,
{
    match p {
        WordPart::Literal(t) => PartV::Literal(t@),
        WordPart::Quoted(t) => PartV::Quoted(t@),
        WordPart::Var(t) => PartV::Var(t@),
        WordPart::QuotedVar(t) => PartV::QuotedVar(t@),
        WordPart::Expansion { expansion, quoted } => PartV::Expansion(exp_v(expansion), quoted),
    }
}

pub open spec fn exp_v(x: ParameterExpansion) -> ExpV
    decreases x, 0int,
{
    ExpV { name: x.name@, op: op_v(x.op) }
}

pub open spec fn op_v(op: ParameterOp) -> OpV
    decreases op, 0int,
{
    match op {
        ParameterOp::Length => OpV::Length,
        ParameterOp::Remove { kind, pattern } => OpV::Remove(kind, word_v(pattern)),
        ParameterOp::Replace { kind, pattern, replacement } => OpV::Replace(
            kind,
            word_v(pattern),
            word_v(replacement),
        ),
        ParameterOp::Substring { offset, length } => OpV::Substring(
            word_v(offset),
            match length {
                Some(l) => Some(word_v(l)),
                None => None,
            },
        ),
        ParameterOp::CaseModify { kind, pattern } => OpV::CaseModify(
            kind,
            match pattern {
                Some(p) => Some(word_v(p)),
                None => None,
            },
        ),
        ParameterOp::DefaultValue { test_null, word } => OpV::DefaultValue(test_null, word_v(word)),
        ParameterOp::AlternateValue { test_null, word } => OpV::AlternateValue(test_null, word_v(word)),
    }
}

pub proof fn lemma_word_v_push(w: Seq<WordPart>, p: WordPart)
    ensures
        parts_v(w.push(p), w.len() as int + 1) == parts_v(w, w.len() as int).push(part_v(p)),
{
    lemma_parts_v_prefix(w.push(p), w, w.len() as int);
}

pub proof fn lemma_parts_v_prefix(a: Seq<WordPart>, b: Seq<WordPart>, i: int)
    requires
        0 <= i <= b.len(),
        i <= a.len(),
        forall|j: int| 0 <= j < i ==> a[j] == b[j],
    ensures
        parts_v(a, i) == parts_v(b, i),
    decreases i,
{
    if i > 0 {
        lemma_parts_v_prefix(a, b, i - 1);
    }
}

/// A parse error as a value.
pub enum ParseErrorV {
    UnexpectedToken(Seq<char>, int),
    UnexpectedEof,
    UnterminatedString(int),
    UnterminatedParameterExpansion(int),
    InvalidParameterExpansion(Seq<char>, int, Seq<char>),
    UnsupportedParameterExpansion(Seq<char>, int),
    UnterminatedDoubleBracket(int),
    ExpectedWord(Seq<char>),
    RegexMissingRhs,
    UnknownOperator(Seq<char>),
    InvalidSubscript(Seq<char>),
    ParensNotSupported,
    LegacyCombinatorNotSupported,
}

pub open spec fn perr_v(e: ParseError) -> ParseErrorV {
    match e {
        ParseError::UnexpectedToken { token, pos } => ParseErrorV::UnexpectedToken(token@, pos as int),
        ParseError::UnexpectedEof => ParseErrorV::UnexpectedEof,
        ParseError::UnterminatedString { pos } => ParseErrorV::UnterminatedString(pos as int),
        ParseError::UnterminatedParameterExpansion { pos } => ParseErrorV::UnterminatedParameterExpansion(
            pos as int,
        ),
        ParseError::InvalidParameterExpansion { raw, pos, reason } => ParseErrorV::InvalidParameterExpansion(
            raw@,
            pos as int,
            reason@,
        ),
        ParseError::UnsupportedParameterExpansion { operator, pos } => ParseErrorV::UnsupportedParameterExpansion(
            operator@,
            pos as int,
        ),
        ParseError::UnterminatedDoubleBracket { pos } => ParseErrorV::UnterminatedDoubleBracket(
            pos as int,
        ),
        ParseError::ExpectedWord { op } => ParseErrorV::ExpectedWord(op@),
        ParseError::RegexMissingRhs => ParseErrorV::RegexMissingRhs,
        ParseError::UnknownOperator { token } => ParseErrorV::UnknownOperator(token@),
        ParseError::InvalidSubscript { raw } => ParseErrorV::InvalidSubscript(raw@),
        ParseError::ParensNotSupported => ParseErrorV::ParensNotSupported,
        ParseError::LegacyCombinatorNotSupported => ParseErrorV::LegacyCombinatorNotSupported,
    }
}

/// An expression as a value.
pub enum ExprV {
    And(Box<ExprV>, Box<ExprV>),
    Or(Box<ExprV>, Box<ExprV>),
    Not(Box<ExprV>),
    Primary(PrimV),
}

/// A primary as a value.
pub enum PrimV {
    Unary(UnaryOp, Seq<PartV>),
    Binary(BinaryOp, Seq<PartV>, Seq<PartV>),
    NonEmpty(Seq<PartV>),
}

pub open spec fn prim_v(p: Primary) -> PrimV {
    match p {
        Primary::Unary { op, arg } => PrimV::Unary(op, word_v(arg)),
        Primary::Binary { op, lhs, rhs } => PrimV::Binary(op, word_v(lhs), word_v(rhs)),
        Primary::StringNonEmpty(w) => PrimV::NonEmpty(word_v(w)),
    }
}

pub open spec fn expr_v(e: Expr) -> ExprV
    decreases e,
{
    match e {
        Expr::And(l, r) => ExprV::And(Box::new(expr_v(*l)), Box::new(expr_v(*r))),
        Expr::Or(l, r) => ExprV::Or(Box::new(expr_v(*l)), Box::new(expr_v(*r))),
        Expr::Not(x) => ExprV::Not(Box::new(expr_v(*x))),
        Expr::Primary(p) => ExprV::Primary(prim_v(p)),
    }
}

/// The display text of word parts `ps[i..]`, as `Word`'s display writes it.
pub open spec fn pv_text(ps: Seq<PartV>, i: int) -> Seq<char>
    decreases ps, ps.len() - i,
{
    if i < 0 || i >= ps.len() {
        Seq::empty()
    } else {
        pv_part_text(ps[i]) + pv_text(ps, i + 1)
    }
}

pub open spec fn pv_part_text(p: PartV) -> Seq<char>
    decreases p, 0int,
{
    match p {
        PartV::Literal(s) => s,
        PartV::Quoted(s) => s,
        PartV::Var(name) => seq!['$', '{'] + name + seq!['}'],
        PartV::QuotedVar(name) => seq!['$', '{'] + name + seq!['}'],
        PartV::Expansion(x, _) => match x.op {
            OpV::Length => seq!['$', '{', '#'] + x.name + seq!['}'],
            _ => seq!['$', '{'] + x.name + pv_op_text(x.op) + seq!['}'],
        },
    }
}

pub open spec fn pv_opt_text(w: Option<Seq<PartV>>, sep: Seq<char>) -> Seq<char>
    decreases w,
{
    match w {
        Some(x) => sep + pv_text(x, 0),
        None => Seq::empty(),
    }
}

pub open spec fn pv_op_text(op: OpV) -> Seq<char>
    decreases op,
{
    match op {
        OpV::Length => Seq::empty(),
        OpV::Remove(kind, pattern) => remove_op_text(kind) + pv_text(pattern, 0),
        OpV::Replace(kind, pattern, replacement) => replace_op_text(kind) + pv_text(pattern, 0)
            + seq!['/'] + pv_text(replacement, 0),
        OpV::Substring(offset, length) => seq![':'] + pv_text(offset, 0) + pv_opt_text(
            length,
            seq![':'],
        ),
        OpV::CaseModify(kind, pattern) => case_op_text(kind) + pv_opt_text(pattern, Seq::empty()),
        OpV::DefaultValue(test_null, word) => (if test_null {
            seq![':', '-']
        } else {
            seq!['-']
        }) + pv_text(word, 0),
        OpV::AlternateValue(test_null, word) => (if test_null {
            seq![':', '+']
        } else {
            seq!['+']
        }) + pv_text(word, 0),
    }
}

pub proof fn lemma_parts_v_index(parts: Seq<WordPart>, i: int)
    requires
        0 <= i <= parts.len(),
    ensures
        parts_v(parts, i).len() == i,
        forall|k: int| 0 <= k < i ==> #[trigger] parts_v(parts, i)[k] == part_v(parts[k]),
    decreases i,
{
    if i > 0 {
        lemma_parts_v_index(parts, i - 1);
    }
}

/// The display text of a word equals that of its view.
pub proof fn lemma_word_text_v(w: Word)
    ensures
        crate::ast::word_text(w) == pv_text(word_v(w), 0),
    decreases w, 0int,
{
    lemma_parts_text_v(w.parts@, 0);
}

pub proof fn lemma_parts_text_v(parts: Seq<WordPart>, i: int)
    ensures
        crate::ast::parts_text(parts, i) == pv_text(parts_v(parts, parts.len() as int), i),
    decreases parts, parts.len() - i,
{
    lemma_parts_v_index(parts, parts.len() as int);
    if 0 <= i < parts.len() {
        lemma_part_text_v(parts[i]);
        lemma_parts_text_v(parts, i + 1);
    }
}

pub proof fn lemma_part_text_v(p: WordPart)
    ensures
        crate::ast::part_text(p) == pv_part_text(part_v(p)),
    decreases p, 0int,
{
    match p {
        WordPart::Expansion { expansion, .. } => {
            lemma_op_text_v(expansion.op);
        },
        _ => {},
    }
}

pub proof fn lemma_op_text_v(op: ParameterOp)
    ensures
        crate::ast::op_text(op) == pv_op_text(op_v(op)),
    decreases op, 0int,
{
    match op {
        ParameterOp::Length => {},
        ParameterOp::Remove { kind, pattern } => {
            lemma_word_text_v(pattern);
        },
        ParameterOp::Replace { kind, pattern, replacement } => {
            lemma_word_text_v(pattern);
            lemma_word_text_v(replacement);
        },
        ParameterOp::Substring { offset, length } => {
            lemma_word_text_v(offset);
            if let Some(l) = length {
                lemma_word_text_v(l);
            }
        },
        ParameterOp::CaseModify { kind, pattern } => {
            if let Some(pw) = pattern {
                lemma_word_text_v(pw);
            }
        },
        ParameterOp::DefaultValue { test_null, word } => {
            lemma_word_text_v(word);
        },
        ParameterOp::AlternateValue { test_null, word } => {
            lemma_word_text_v(word);
        },
    }
}

} // verus!
