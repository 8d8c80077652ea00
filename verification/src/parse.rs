//! Parser for bash conditional expressions.
//!
//! Grammar:
//!
//! ```text
//! expr      := or_expr
//! or_expr   := and_expr ( '||' and_expr )*
//! and_expr  := not_expr ( '&&' not_expr )*
//! not_expr  := '!' not_expr | atom
//! atom      := '[[' expr ']]' | primary
//! primary   := unary_op word
//!            | word binary_op word
//!            | word              -- equivalent to `-n word`
//! ```
//!
//! Operator-as-word tokens (e.g. `-f`, `-eq`) come through the lexer as
//! `Token::Word`; the parser inspects their literal text to classify them.
//! There is no `( … )` grouping; use `[[ … ]]` to be explicit.
//!
//! The grammar is stated as spec functions over token values
//! ([`TokV`]); the executable parser is proved to follow them.

use vstd::prelude::*;

use crate::ast::{binary_from_token, binary_token, unary_from_token, unary_token, BinaryOp, Expr, Primary, UnaryOp, Word, WordPart};
use crate::error::ParseError;
pub use crate::lex::ParseOptions;
use crate::lex::{lex_spec, lex_with_options, spanned_v, tok_v, toks_v, Spanned, TokKind, TokV, Token};
use crate::syntax::{expr_v, perr_v, prim_v, pv_text, word_v, ExprV, ParseErrorV, PartV, PrimV};
use crate::text::owned;

verus! {

// ---------------------------------------------------------------------------
// The grammar over token values
// ---------------------------------------------------------------------------

/// The text of a word made of exactly one unquoted literal part.
pub open spec fn single_literal(w: Seq<PartV>) -> Option<Seq<char>> {
    if w.len() == 1 {
        match w[0] {
            PartV::Literal(s) => Some(s),
            _ => None,
        }
    } else {
        None
    }
}

/// The text by which a token is named in an error.
pub open spec fn token_text(k: TokKind) -> Seq<char> {
    match k {
        TokKind::OpenBracket => seq!['[', '['],
        TokKind::CloseBracket => seq![']', ']'],
        TokKind::AndAnd => seq!['&', '&'],
        TokKind::OrOr => seq!['|', '|'],
        TokKind::Bang => seq!['!'],
        TokKind::OpenParen => seq!['('],
        TokKind::CloseParen => seq![')'],
        TokKind::Eq => seq!['=', '='],
        TokKind::NotEq => seq!['!', '='],
        TokKind::RegexEq => seq!['=', '~'],
        TokKind::Lt => seq!['<'],
        TokKind::Gt => seq!['>'],
        TokKind::Word(w) => pv_text(w, 0),
    }
}

/// The binary operator named by the token at `i`, if any.
pub open spec fn binary_at(ts: Seq<TokV>, i: int) -> Option<BinaryOp> {
    if 0 <= i < ts.len() {
        match ts[i].0 {
            TokKind::Eq => Some(BinaryOp::GlobMatch),
            TokKind::NotEq => Some(BinaryOp::GlobNotMatch),
            TokKind::RegexEq => Some(BinaryOp::RegexMatch),
            TokKind::Lt => Some(BinaryOp::StrLt),
            TokKind::Gt => Some(BinaryOp::StrGt),
            TokKind::Word(w) => match single_literal(w) {
                Some(t) => binary_from_token(t),
                None => None,
            },
            _ => None,
        }
    } else {
        None
    }
}

/// The unary operator named by the token at `i`, if any.
pub open spec fn unary_at(ts: Seq<TokV>, i: int) -> Option<UnaryOp> {
    if 0 <= i < ts.len() {
        match ts[i].0 {
            TokKind::Word(w) => match single_literal(w) {
                Some(t) => unary_from_token(t),
                None => None,
            },
            _ => None,
        }
    } else {
        None
    }
}

/// The word at `i`, if the token there is one.
pub open spec fn word_at(ts: Seq<TokV>, i: int) -> Option<Seq<PartV>> {
    if 0 <= i < ts.len() {
        match ts[i].0 {
            TokKind::Word(w) => Some(w),
            _ => None,
        }
    } else {
        None
    }
}

/// Whether the token at `i` has the given kind.
pub open spec fn kind_at(ts: Seq<TokV>, i: int, k: TokKind) -> bool {
    0 <= i < ts.len() && ts[i].0 == k
}

/// A primary starting at `pos`, with the position after it.
pub open spec fn p_primary(ts: Seq<TokV>, pos: int) -> Result<(PrimV, int), ParseErrorV> {
    match unary_at(ts, pos) {
        Some(op) => match word_at(ts, pos + 1) {
            Some(a) => Ok((PrimV::Unary(op, a), pos + 2)),
            None => Err(ParseErrorV::ExpectedWord(unary_token(op))),
        },
        None => match word_at(ts, pos) {
            Some(lhs) => match binary_at(ts, pos + 1) {
                Some(op) => match word_at(ts, pos + 2) {
                    Some(rhs) => Ok((PrimV::Binary(op, lhs, rhs), pos + 3)),
                    None => if op == BinaryOp::RegexMatch {
                        Err(ParseErrorV::RegexMissingRhs)
                    } else {
                        Err(ParseErrorV::ExpectedWord(binary_token(op)))
                    },
                },
                None => Ok((PrimV::NonEmpty(lhs), pos + 1)),
            },
            None => if 0 <= pos < ts.len() {
                Err(ParseErrorV::UnexpectedToken(token_text(ts[pos].0), ts[pos].1))
            } else {
                Err(ParseErrorV::UnexpectedEof)
            },
        },
    }
}

/// An `||` chain starting at `pos`.
pub open spec fn p_or(ts: Seq<TokV>, pos: int) -> Result<(ExprV, int), ParseErrorV>
    decreases ts.len() - pos, 5int,
{
    if pos < 0 || pos > ts.len() {
        Err(ParseErrorV::UnexpectedEof)
    } else {
        match p_and(ts, pos) {
            Err(e) => Err(e),
            Ok((lhs, q)) => if pos <= q <= ts.len() {
                or_rest(ts, q, lhs)
            } else {
                Err(ParseErrorV::UnexpectedEof)
            },
        }
    }
}

/// The `|| and_expr` tail of an `||` chain whose left side is `lhs`.
pub open spec fn or_rest(ts: Seq<TokV>, pos: int, lhs: ExprV) -> Result<(ExprV, int), ParseErrorV>
    decreases ts.len() - pos, 4int,
{
    if 0 <= pos < ts.len() && ts[pos].0 == TokKind::OrOr {
        match p_and(ts, pos + 1) {
            Err(e) => Err(e),
            Ok((rhs, q)) => if pos + 1 <= q <= ts.len() {
                or_rest(ts, q, ExprV::Or(Box::new(lhs), Box::new(rhs)))
            } else {
                Err(ParseErrorV::UnexpectedEof)
            },
        }
    } else {
        Ok((lhs, pos))
    }
}

/// An `&&` chain starting at `pos`.
pub open spec fn p_and(ts: Seq<TokV>, pos: int) -> Result<(ExprV, int), ParseErrorV>
    decreases ts.len() - pos, 3int,
{
    if pos < 0 || pos > ts.len() {
        Err(ParseErrorV::UnexpectedEof)
    } else {
        match p_not(ts, pos) {
            Err(e) => Err(e),
            Ok((lhs, q)) => if pos <= q <= ts.len() {
                and_rest(ts, q, lhs)
            } else {
                Err(ParseErrorV::UnexpectedEof)
            },
        }
    }
}

/// The `&& not_expr` tail of an `&&` chain whose left side is `lhs`.
pub open spec fn and_rest(ts: Seq<TokV>, pos: int, lhs: ExprV) -> Result<(ExprV, int), ParseErrorV>
    decreases ts.len() - pos, 2int,
{
    if 0 <= pos < ts.len() && ts[pos].0 == TokKind::AndAnd {
        match p_not(ts, pos + 1) {
            Err(e) => Err(e),
            Ok((rhs, q)) => if pos + 1 <= q <= ts.len() {
                and_rest(ts, q, ExprV::And(Box::new(lhs), Box::new(rhs)))
            } else {
                Err(ParseErrorV::UnexpectedEof)
            },
        }
    } else {
        Ok((lhs, pos))
    }
}

/// A `!`-prefixed expression, or an atom, starting at `pos`.
pub open spec fn p_not(ts: Seq<TokV>, pos: int) -> Result<(ExprV, int), ParseErrorV>
    decreases ts.len() - pos, 1int,
{
    if 0 <= pos < ts.len() && ts[pos].0 == TokKind::Bang {
        match p_not(ts, pos + 1) {
            Err(e) => Err(e),
            Ok((inner, q)) => Ok((ExprV::Not(Box::new(inner)), q)),
        }
    } else {
        p_atom(ts, pos)
    }
}

/// A bracketed expression or a primary starting at `pos`.
pub open spec fn p_atom(ts: Seq<TokV>, pos: int) -> Result<(ExprV, int), ParseErrorV>
    decreases ts.len() - pos, 0int,
{
    if pos < 0 || pos >= ts.len() {
        Err(ParseErrorV::UnexpectedEof)
    } else {
        match ts[pos].0 {
            TokKind::OpenBracket => match p_or(ts, pos + 1) {
                Err(e) => Err(e),
                Ok((inner, q)) => if kind_at(ts, q, TokKind::CloseBracket) {
                    Ok((inner, q + 1))
                } else {
                    Err(ParseErrorV::UnterminatedDoubleBracket(ts[pos].1))
                },
            },
            TokKind::OpenParen => Err(ParseErrorV::ParensNotSupported),
            TokKind::CloseParen => Err(ParseErrorV::ParensNotSupported),
            TokKind::CloseBracket => Err(ParseErrorV::UnexpectedToken(seq![']', ']'], ts[pos].1)),
            _ => match p_primary(ts, pos) {
                Err(e) => Err(e),
                Ok((p, q)) => Ok((ExprV::Primary(p), q)),
            },
        }
    }
}

/// The expression that a whole token sequence makes.
pub open spec fn parse_tokens(ts: Seq<TokV>) -> Result<ExprV, ParseErrorV> {
    match p_or(ts, 0) {
        Err(e) => Err(e),
        Ok((e, q)) => if 0 <= q < ts.len() {
            Err(ParseErrorV::UnexpectedToken(token_text(ts[q].0), ts[q].1))
        } else {
            Ok(e)
        },
    }
}

/// The expression that the text `cs` makes, under the given options.
pub open spec fn parse_spec(cs: Seq<char>, opts: ParseOptions) -> Result<ExprV, ParseErrorV> {
    match lex_spec(cs, opts) {
        Err(e) => Err(e),
        Ok(ts) => parse_tokens(ts),
    }
}

// ---------------------------------------------------------------------------
// Optional brackets
// ---------------------------------------------------------------------------

/// `ts2` holds the token kinds of `ts` from index `off` on, and then `]]`.
pub open spec fn embeds(ts: Seq<TokV>, ts2: Seq<TokV>, off: int) -> bool {
    &&& off >= 0
    &&& off + ts.len() < ts2.len()
    &&& forall|k: int| off <= k < off + ts.len() ==> #[trigger] ts2[k].0 == ts[k - off].0
    &&& ts2[off + ts.len()].0 == TokKind::CloseBracket
}

/// A parse outcome with its end position moved by `off`.
pub open spec fn shift<T>(r: Result<(T, int), ParseErrorV>, off: int) -> Result<(T, int), ParseErrorV> {
    match r {
        Ok((v, q)) => Ok((v, q + off)),
        Err(e) => Err(e),
    }
}

/// The end position of a successful parse outcome lies in `lo..=hi`.
pub open spec fn ends_within<T>(r: Result<(T, int), ParseErrorV>, lo: int, hi: int) -> bool {
    match r {
        Ok((_, q)) => lo <= q <= hi,
        Err(_) => true,
    }
}

proof fn lemma_embed_kind(ts: Seq<TokV>, ts2: Seq<TokV>, off: int, i: int)
    requires
        embeds(ts, ts2, off),
        0 <= i <= ts.len(),
    ensures
        i < ts.len() ==> ts2[i + off].0 == ts[i].0,
        i == ts.len() ==> ts2[i + off].0 == TokKind::CloseBracket,
        lookahead_at(ts2, i + off) == (if i < ts.len() {
            lookahead_at(ts, i)
        } else {
            Lookahead::CloseBracket
        }),
        i < ts.len() ==> unary_at(ts2, i + off) == unary_at(ts, i),
        i < ts.len() ==> word_at(ts2, i + off) == word_at(ts, i),
        binary_at(ts2, i + off) == binary_at(ts, i),
{
    if i < ts.len() {
        assert(ts2[i + off].0 == ts[(i + off) - off].0);
    }
}

proof fn lemma_embed_primary(ts: Seq<TokV>, ts2: Seq<TokV>, off: int, pos: int)
    requires
        embeds(ts, ts2, off),
        p_primary(ts, pos) is Ok,
    ensures
        p_primary(ts2, pos + off) == shift(p_primary(ts, pos), off),
        ends_within(p_primary(ts, pos), pos, ts.len() as int),
{
    lemma_embed_kind(ts, ts2, off, pos);
    if pos + 1 <= ts.len() {
        lemma_embed_kind(ts, ts2, off, pos + 1);
    }
    if pos + 2 <= ts.len() {
        lemma_embed_kind(ts, ts2, off, pos + 2);
    }
}

proof fn lemma_embed_or(ts: Seq<TokV>, ts2: Seq<TokV>, off: int, pos: int)
    requires
        embeds(ts, ts2, off),
        p_or(ts, pos) is Ok,
    ensures
        p_or(ts2, pos + off) == shift(p_or(ts, pos), off),
        ends_within(p_or(ts, pos), pos, ts.len() as int),
    decreases ts.len() - pos, 5int,
{
    lemma_embed_and(ts, ts2, off, pos);
    let (l, q) = p_and(ts, pos)->Ok_0;
    lemma_embed_or_rest(ts, ts2, off, q, l);
}

proof fn lemma_embed_or_rest(ts: Seq<TokV>, ts2: Seq<TokV>, off: int, pos: int, lhs: ExprV)
    requires
        embeds(ts, ts2, off),
        0 <= pos <= ts.len(),
        or_rest(ts, pos, lhs) is Ok,
    ensures
        or_rest(ts2, pos + off, lhs) == shift(or_rest(ts, pos, lhs), off),
        ends_within(or_rest(ts, pos, lhs), pos, ts.len() as int),
    decreases ts.len() - pos, 4int,
{
    lemma_embed_kind(ts, ts2, off, pos);
    if pos < ts.len() && ts[pos].0 == TokKind::OrOr {
        lemma_embed_and(ts, ts2, off, pos + 1);
        let (r, q) = p_and(ts, pos + 1)->Ok_0;
        lemma_embed_or_rest(ts, ts2, off, q, ExprV::Or(Box::new(lhs), Box::new(r)));
    }
}

proof fn lemma_embed_and(ts: Seq<TokV>, ts2: Seq<TokV>, off: int, pos: int)
    requires
        embeds(ts, ts2, off),
        p_and(ts, pos) is Ok,
    ensures
        p_and(ts2, pos + off) == shift(p_and(ts, pos), off),
        ends_within(p_and(ts, pos), pos, ts.len() as int),
    decreases ts.len() - pos, 3int,
{
    lemma_embed_not(ts, ts2, off, pos);
    let (l, q) = p_not(ts, pos)->Ok_0;
    lemma_embed_and_rest(ts, ts2, off, q, l);
}

proof fn lemma_embed_and_rest(ts: Seq<TokV>, ts2: Seq<TokV>, off: int, pos: int, lhs: ExprV)
    requires
        embeds(ts, ts2, off),
        0 <= pos <= ts.len(),
        and_rest(ts, pos, lhs) is Ok,
    ensures
        and_rest(ts2, pos + off, lhs) == shift(and_rest(ts, pos, lhs), off),
        ends_within(and_rest(ts, pos, lhs), pos, ts.len() as int),
    decreases ts.len() - pos, 2int,
{
    lemma_embed_kind(ts, ts2, off, pos);
    if pos < ts.len() && ts[pos].0 == TokKind::AndAnd {
        lemma_embed_not(ts, ts2, off, pos + 1);
        let (r, q) = p_not(ts, pos + 1)->Ok_0;
        lemma_embed_and_rest(ts, ts2, off, q, ExprV::And(Box::new(lhs), Box::new(r)));
    }
}

proof fn lemma_embed_not(ts: Seq<TokV>, ts2: Seq<TokV>, off: int, pos: int)
    requires
        embeds(ts, ts2, off),
        p_not(ts, pos) is Ok,
    ensures
        p_not(ts2, pos + off) == shift(p_not(ts, pos), off),
        ends_within(p_not(ts, pos), pos, ts.len() as int),
    decreases ts.len() - pos, 1int,
{
    if 0 <= pos < ts.len() && ts[pos].0 == TokKind::Bang {
        lemma_embed_kind(ts, ts2, off, pos);
        lemma_embed_not(ts, ts2, off, pos + 1);
    } else {
        lemma_embed_atom(ts, ts2, off, pos);
        if 0 <= pos <= ts.len() {
            lemma_embed_kind(ts, ts2, off, pos);
        }
    }
}

proof fn lemma_embed_atom(ts: Seq<TokV>, ts2: Seq<TokV>, off: int, pos: int)
    requires
        embeds(ts, ts2, off),
        p_atom(ts, pos) is Ok,
    ensures
        p_atom(ts2, pos + off) == shift(p_atom(ts, pos), off),
        ends_within(p_atom(ts, pos), pos, ts.len() as int),
    decreases ts.len() - pos, 0int,
{
    lemma_embed_kind(ts, ts2, off, pos);
    match ts[pos].0 {
        TokKind::OpenBracket => {
            lemma_embed_or(ts, ts2, off, pos + 1);
            let (inner, q) = p_or(ts, pos + 1)->Ok_0;
            lemma_embed_kind(ts, ts2, off, q);
        },
        TokKind::OpenParen => {},
        TokKind::CloseParen => {},
        TokKind::CloseBracket => {},
        _ => {
            lemma_embed_primary(ts, ts2, off, pos);
        },
    }
}

/// The outer `[[ ... ]]` are optional: a token sequence that parses, wrapped
/// in `[[` and `]]`, parses to the same expression.
pub proof fn lemma_brackets_optional(ts: Seq<TokV>, wrapped: Seq<TokV>)
    requires
        parse_tokens(ts) is Ok,
        wrapped.len() == ts.len() + 2,
        wrapped[0].0 == TokKind::OpenBracket,
        wrapped[ts.len() as int + 1].0 == TokKind::CloseBracket,
        forall|k: int| 1 <= k <= ts.len() ==> #[trigger] wrapped[k].0 == ts[k - 1].0,
    ensures
        parse_tokens(wrapped) == parse_tokens(ts),
{
    assert(embeds(ts, wrapped, 1));
    lemma_embed_or(ts, wrapped, 1, 0);
    let n = ts.len() as int;
    let e = p_or(ts, 0)->Ok_0.0;
    assert(p_or(ts, 0) == Ok::<(ExprV, int), ParseErrorV>((e, n)));
    assert(p_atom(wrapped, 0) == Ok::<(ExprV, int), ParseErrorV>((e, n + 2)));
    assert(p_not(wrapped, 0) == Ok::<(ExprV, int), ParseErrorV>((e, n + 2)));
    assert(p_and(wrapped, 0) == Ok::<(ExprV, int), ParseErrorV>((e, n + 2)));
    assert(p_or(wrapped, 0) == Ok::<(ExprV, int), ParseErrorV>((e, n + 2)));
}

/// `wrapped` holds `[[`, the token kinds of `ts1`, `]]`, the combinator
/// `op`, `[[`, the token kinds of `ts2`, and `]]`.
pub open spec fn bracketed_pair(ts1: Seq<TokV>, ts2: Seq<TokV>, op: TokKind, wrapped: Seq<TokV>) -> bool {
    let n1 = ts1.len() as int;
    let n2 = ts2.len() as int;
    &&& wrapped.len() == n1 + n2 + 5
    &&& wrapped[0].0 == TokKind::OpenBracket
    &&& forall|k: int| 1 <= k <= n1 ==> #[trigger] wrapped[k].0 == ts1[k - 1].0
    &&& wrapped[n1 + 1].0 == TokKind::CloseBracket
    &&& wrapped[n1 + 2].0 == op
    &&& wrapped[n1 + 3].0 == TokKind::OpenBracket
    &&& forall|k: int| n1 + 4 <= k < n1 + 4 + n2 ==> #[trigger] wrapped[k].0 == ts2[k - n1 - 4].0
    &&& wrapped[n1 + n2 + 4].0 == TokKind::CloseBracket
}

proof fn lemma_bracketed_pair_atoms(ts1: Seq<TokV>, ts2: Seq<TokV>, op: TokKind, wrapped: Seq<TokV>)
    requires
        parse_tokens(ts1) is Ok,
        parse_tokens(ts2) is Ok,
        bracketed_pair(ts1, ts2, op, wrapped),
    ensures
        ({
            let n1 = ts1.len() as int;
            let n2 = ts2.len() as int;
            &&& p_atom(wrapped, 0) == Ok::<(ExprV, int), ParseErrorV>((parse_tokens(ts1)->Ok_0, n1 + 2))
            &&& p_atom(wrapped, n1 + 3) == Ok::<(ExprV, int), ParseErrorV>(
                (parse_tokens(ts2)->Ok_0, n1 + n2 + 5),
            )
        }),
{
    let n1 = ts1.len() as int;
    let n2 = ts2.len() as int;
    assert(embeds(ts1, wrapped, 1));
    assert(embeds(ts2, wrapped, n1 + 4)) by {
        assert forall|k: int| n1 + 4 <= k < n1 + 4 + n2 implies #[trigger] wrapped[k].0 == ts2[k - (n1 + 4)].0 by {
            assert(k - (n1 + 4) == k - n1 - 4);
        }
    }
    lemma_embed_or(ts1, wrapped, 1, 0);
    lemma_embed_or(ts2, wrapped, n1 + 4, 0);
    let e1 = p_or(ts1, 0)->Ok_0.0;
    let e2 = p_or(ts2, 0)->Ok_0.0;
    assert(p_or(ts1, 0) == Ok::<(ExprV, int), ParseErrorV>((e1, n1)));
    assert(p_or(ts2, 0) == Ok::<(ExprV, int), ParseErrorV>((e2, n2)));
}

/// Bracketed sub-expressions compose: `[[ a ]] && [[ b ]]` parses to the
/// conjunction of what `a` and `b` parse to, and `[[ a ]] || [[ b ]]` to
/// their disjunction.
pub proof fn lemma_bracketed_operands(ts1: Seq<TokV>, ts2: Seq<TokV>, op: TokKind, wrapped: Seq<TokV>)
    requires
        parse_tokens(ts1) is Ok,
        parse_tokens(ts2) is Ok,
        op == TokKind::AndAnd || op == TokKind::OrOr,
        bracketed_pair(ts1, ts2, op, wrapped),
    ensures
        op == TokKind::AndAnd ==> parse_tokens(wrapped) == Ok::<ExprV, ParseErrorV>(
            ExprV::And(Box::new(parse_tokens(ts1)->Ok_0), Box::new(parse_tokens(ts2)->Ok_0)),
        ),
        op == TokKind::OrOr ==> parse_tokens(wrapped) == Ok::<ExprV, ParseErrorV>(
            ExprV::Or(Box::new(parse_tokens(ts1)->Ok_0), Box::new(parse_tokens(ts2)->Ok_0)),
        ),
{
    lemma_bracketed_pair_atoms(ts1, ts2, op, wrapped);
    let n1 = ts1.len() as int;
    let n2 = ts2.len() as int;
    let e1 = parse_tokens(ts1)->Ok_0;
    let e2 = parse_tokens(ts2)->Ok_0;
    let end = n1 + n2 + 5;
    assert(p_not(wrapped, 0) == Ok::<(ExprV, int), ParseErrorV>((e1, n1 + 2)));
    assert(p_not(wrapped, n1 + 3) == Ok::<(ExprV, int), ParseErrorV>((e2, end)));
    if op == TokKind::AndAnd {
        let both = ExprV::And(Box::new(e1), Box::new(e2));
        assert(and_rest(wrapped, end, both) == Ok::<(ExprV, int), ParseErrorV>((both, end)));
        assert(and_rest(wrapped, n1 + 2, e1) == Ok::<(ExprV, int), ParseErrorV>((both, end)));
        assert(p_and(wrapped, 0) == Ok::<(ExprV, int), ParseErrorV>((both, end)));
        assert(p_or(wrapped, 0) == Ok::<(ExprV, int), ParseErrorV>((both, end)));
    } else {
        let either = ExprV::Or(Box::new(e1), Box::new(e2));
        assert(and_rest(wrapped, n1 + 2, e1) == Ok::<(ExprV, int), ParseErrorV>((e1, n1 + 2)));
        assert(p_and(wrapped, 0) == Ok::<(ExprV, int), ParseErrorV>((e1, n1 + 2)));
        assert(and_rest(wrapped, end, e2) == Ok::<(ExprV, int), ParseErrorV>((e2, end)));
        assert(p_and(wrapped, n1 + 3) == Ok::<(ExprV, int), ParseErrorV>((e2, end)));
        assert(or_rest(wrapped, end, either) == Ok::<(ExprV, int), ParseErrorV>((either, end)));
        assert(or_rest(wrapped, n1 + 2, e1) == Ok::<(ExprV, int), ParseErrorV>((either, end)));
        assert(p_or(wrapped, 0) == Ok::<(ExprV, int), ParseErrorV>((either, end)));
    }
}

// ---------------------------------------------------------------------------
// The executable parser
// ---------------------------------------------------------------------------

proof fn lemma_toks_v_index(ts: Seq<Spanned<Token>>)
    ensures
        toks_v(ts).len() == ts.len(),
        forall|k: int| 0 <= k < ts.len() ==> #[trigger] toks_v(ts)[k] == spanned_v(ts[k]),
    decreases ts.len(),
{
    if ts.len() > 0 {
        lemma_toks_v_index(ts.drop_last());
    }
}

/// Whether a parse result agrees with the grammar's outcome `s`, the
/// parser having stopped at `q`.
pub open spec fn agrees<T, U>(r: Result<T, ParseError>, s: Result<(U, int), ParseErrorV>, q: int, f: spec_fn(T) -> U) -> bool {
    match s {
        Ok((v, p)) => r matches Ok(x) && f(x) == v && q == p,
        Err(e) => r matches Err(y) && perr_v(y) == e,
    }
}

/// The next token, reduced to what the grammar branches on.
#[derive(PartialEq, Eq, Structural)]
enum Lookahead {
    End,
    OpenBracket,
    CloseBracket,
    AndAnd,
    OrOr,
    Bang,
    Paren,
    Other,
}

spec fn lookahead_at(ts: Seq<TokV>, i: int) -> Lookahead {
    if 0 <= i < ts.len() {
        match ts[i].0 {
            TokKind::OpenBracket => Lookahead::OpenBracket,
            TokKind::CloseBracket => Lookahead::CloseBracket,
            TokKind::AndAnd => Lookahead::AndAnd,
            TokKind::OrOr => Lookahead::OrOr,
            TokKind::Bang => Lookahead::Bang,
            TokKind::OpenParen => Lookahead::Paren,
            TokKind::CloseParen => Lookahead::Paren,
            _ => Lookahead::Other,
        }
    } else {
        Lookahead::End
    }
}

/// The tokens still to be read, the next one last.
struct Parser {
    rest: Vec<Spanned<Token>>,
    all: Ghost<Seq<TokV>>,
}

impl Parser {
    spec fn wf(&self) -> bool {
        &&& self.rest@.len() <= self.all@.len()
        &&& forall|k: int|
            0 <= k < self.rest@.len() ==> #[trigger] spanned_v(self.rest@[k]) == self.all@[self.all@.len() - 1 - k]
    }

    spec fn pos(&self) -> int {
        self.all@.len() - self.rest@.len()
    }

    fn new(tokens: Vec<Spanned<Token>>) -> (r: Parser)
        ensures
            r.wf(),
            r.all@ == toks_v(tokens@),
            r.pos() == 0,
    {
        let ghost orig = tokens@;
        proof {
            lemma_toks_v_index(orig);
        }
        let mut tokens = tokens;
        let mut rest: Vec<Spanned<Token>> = Vec::new();
        while tokens.len() > 0
            invariant
                tokens@ == orig.take(tokens@.len() as int),
                tokens@.len() + rest@.len() == orig.len(),
                forall|k: int| 0 <= k < rest@.len() ==> #[trigger] rest@[k] == orig[orig.len() - 1 - k],
            decreases tokens@.len(),
        {
            let t = tokens.pop().unwrap();
            rest.push(t);
        }
        Parser { rest, all: Ghost(toks_v(orig)) }
    }

    fn lookahead(&self) -> (r: Lookahead)
        requires
            self.wf(),
        ensures
            r == lookahead_at(self.all@, self.pos()),
    {
        let n = self.rest.len();
        if n == 0 {
            return Lookahead::End;
        }
        let t = &self.rest[n - 1];
        assert(spanned_v(self.rest@[n - 1]) == self.all@[self.pos()]);
        match &t.value {
            Token::OpenBracket => Lookahead::OpenBracket,
            Token::CloseBracket => Lookahead::CloseBracket,
            Token::AndAnd => Lookahead::AndAnd,
            Token::OrOr => Lookahead::OrOr,
            Token::Bang => Lookahead::Bang,
            Token::OpenParen | Token::CloseParen => Lookahead::Paren,
            _ => Lookahead::Other,
        }
    }

    fn peek(&self) -> (r: Option<&Spanned<Token>>)
        requires
            self.wf(),
        ensures
            match r {
                Some(t) => 0 <= self.pos() < self.all@.len() && spanned_v(*t) == self.all@[self.pos()],
                None => self.pos() >= self.all@.len(),
            },
    {
        let n = self.rest.len();
        if n == 0 {
            None
        } else {
            assert(spanned_v(self.rest@[n - 1]) == self.all@[self.pos()]);
            Some(&self.rest[n - 1])
        }
    }

    fn advance(&mut self) -> (r: Option<Spanned<Token>>)
        requires
            old(self).wf(),
        ensures
            final(self).wf(),
            final(self).all == old(self).all,
            match r {
                Some(t) => 0 <= old(self).pos() < old(self).all@.len() && spanned_v(t) == old(self).all@[old(self).pos()]
                    && final(self).pos() == old(self).pos() + 1,
                None => old(self).pos() >= old(self).all@.len() && final(self).pos() == old(self).pos(),
            },
    {
        let n = self.rest.len();
        proof {
            if n > 0 {
                assert(spanned_v(self.rest@[n - 1]) == self.all@[self.pos()]);
            }
        }
        let r = self.rest.pop();
        assert forall|k: int| 0 <= k < self.rest@.len() implies #[trigger] spanned_v(self.rest@[k])
            == self.all@[self.all@.len() - 1 - k] by {
            assert(self.rest@[k] == old(self).rest@[k]);
        }
        r
    }

    /// The operator of a unary primary, if the next token names one.
    fn peek_unary(&self) -> (r: Option<UnaryOp>)
        requires
            self.wf(),
        ensures
            r == unary_at(self.all@, self.pos()),
    {
        match self.peek() {
            Some(t) => match &t.value {
                Token::Word(w) => match single_literal_of(w) {
                    Some(text) => UnaryOp::from_token(text),
                    None => None,
                },
                _ => None,
            },
            None => None,
        }
    }

    /// The operator of a binary primary, if the next token names one.
    fn peek_binary(&self) -> (r: Option<BinaryOp>)
        requires
            self.wf(),
        ensures
            r == binary_at(self.all@, self.pos()),
    {
        match self.peek() {
            Some(t) => match &t.value {
                Token::Eq => Some(BinaryOp::GlobMatch),
                Token::NotEq => Some(BinaryOp::GlobNotMatch),
                Token::RegexEq => Some(BinaryOp::RegexMatch),
                Token::Lt => Some(BinaryOp::StrLt),
                Token::Gt => Some(BinaryOp::StrGt),
                Token::Word(w) => match single_literal_of(w) {
                    Some(text) => BinaryOp::from_token(text),
                    None => None,
                },
                _ => None,
            },
            None => None,
        }
    }

    /// Reads the operand word of operator `op`.
    fn expect_word(&mut self, op: &str) -> (r: Result<Word, ParseError>)
        requires
            old(self).wf(),
        ensures
            final(self).wf(),
            final(self).all == old(self).all,
            old(self).pos() <= final(self).pos() <= old(self).all@.len(),
            match word_at(old(self).all@, old(self).pos()) {
                Some(w) => r matches Ok(x) && word_v(x) == w && final(self).pos() == old(self).pos() + 1,
                None => r matches Err(y) && perr_v(y) == ParseErrorV::ExpectedWord(op@),
            },
    {
        match self.advance() {
            Some(Spanned { value: Token::Word(w), .. }) => Ok(w),
            _ => Err(ParseError::ExpectedWord { op: owned(op) }),
        }
    }

    fn parse_primary(&mut self) -> (r: Result<Primary, ParseError>)
        requires
            old(self).wf(),
        ensures
            final(self).wf(),
            final(self).all == old(self).all,
            old(self).pos() <= final(self).pos() <= old(self).all@.len(),
            agrees(r, p_primary(old(self).all@, old(self).pos()), final(self).pos(), |x: Primary| prim_v(x)),
    {
        if let Some(op) = self.peek_unary() {
            self.advance();
            let arg = self.expect_word(op.token());
            return match arg {
                Ok(arg) => Ok(Primary::Unary { op, arg }),
                Err(e) => Err(e),
            };
        }
        let lhs = match self.advance() {
            Some(Spanned { value: Token::Word(w), .. }) => w,
            Some(other) => {
                return Err(ParseError::UnexpectedToken { token: token_display(&other.value), pos: other.start });
            },
            None => return Err(ParseError::UnexpectedEof),
        };
        if let Some(op) = self.peek_binary() {
            self.advance();
            let rhs = match self.advance() {
                Some(Spanned { value: Token::Word(w), .. }) => w,
                _ => {
                    return Err(
                        if op == BinaryOp::RegexMatch {
                            ParseError::RegexMissingRhs
                        } else {
                            ParseError::ExpectedWord { op: owned(op.token()) }
                        },
                    );
                },
            };
            return Ok(Primary::Binary { op, lhs, rhs });
        }
        Ok(Primary::StringNonEmpty(lhs))
    }

    fn parse_or(&mut self) -> (r: Result<Expr, ParseError>)
        requires
            old(self).wf(),
        ensures
            final(self).wf(),
            final(self).all == old(self).all,
            old(self).pos() <= final(self).pos() <= old(self).all@.len(),
            agrees(r, p_or(old(self).all@, old(self).pos()), final(self).pos(), |x: Expr| expr_v(x)),
        decreases old(self).rest@.len(), 5int,
    {
        let ghost ts = self.all@;
        let ghost p0 = self.pos();
        let mut lhs = match self.parse_and() {
            Ok(l) => l,
            Err(e) => return Err(e),
        };
        let mut more = self.lookahead() == Lookahead::OrOr;
        while more
            invariant
                self.wf(),
                self.all@ == ts,
                self.all == old(self).all,
                ts == old(self).all@,
                p0 == old(self).pos(),
                self.rest@.len() <= old(self).rest@.len(),
                p0 <= self.pos() <= ts.len(),
                p_or(ts, p0) == or_rest(ts, self.pos(), expr_v(lhs)),
                more == (lookahead_at(ts, self.pos()) == Lookahead::OrOr),
            decreases self.rest@.len(),
        {
            self.advance();
            let rhs = match self.parse_and() {
                Ok(x) => x,
                Err(e) => return Err(e),
            };
            lhs = Expr::Or(Box::new(lhs), Box::new(rhs));
            more = self.lookahead() == Lookahead::OrOr;
        }
        Ok(lhs)
    }

    fn parse_and(&mut self) -> (r: Result<Expr, ParseError>)
        requires
            old(self).wf(),
        ensures
            final(self).wf(),
            final(self).all == old(self).all,
            old(self).pos() <= final(self).pos() <= old(self).all@.len(),
            agrees(r, p_and(old(self).all@, old(self).pos()), final(self).pos(), |x: Expr| expr_v(x)),
        decreases old(self).rest@.len(), 3int,
    {
        let ghost ts = self.all@;
        let ghost p0 = self.pos();
        let mut lhs = match self.parse_not() {
            Ok(l) => l,
            Err(e) => return Err(e),
        };
        let mut more = self.lookahead() == Lookahead::AndAnd;
        while more
            invariant
                self.wf(),
                self.all@ == ts,
                self.all == old(self).all,
                ts == old(self).all@,
                p0 == old(self).pos(),
                self.rest@.len() <= old(self).rest@.len(),
                p0 <= self.pos() <= ts.len(),
                p_and(ts, p0) == and_rest(ts, self.pos(), expr_v(lhs)),
                more == (lookahead_at(ts, self.pos()) == Lookahead::AndAnd),
            decreases self.rest@.len(),
        {
            self.advance();
            let rhs = match self.parse_not() {
                Ok(x) => x,
                Err(e) => return Err(e),
            };
            lhs = Expr::And(Box::new(lhs), Box::new(rhs));
            more = self.lookahead() == Lookahead::AndAnd;
        }
        Ok(lhs)
    }

    fn parse_not(&mut self) -> (r: Result<Expr, ParseError>)
        requires
            old(self).wf(),
        ensures
            final(self).wf(),
            final(self).all == old(self).all,
            old(self).pos() <= final(self).pos() <= old(self).all@.len(),
            agrees(r, p_not(old(self).all@, old(self).pos()), final(self).pos(), |x: Expr| expr_v(x)),
        decreases old(self).rest@.len(), 1int,
    {
        if self.lookahead() == Lookahead::Bang {
            self.advance();
            return match self.parse_not() {
                Ok(inner) => Ok(Expr::Not(Box::new(inner))),
                Err(e) => Err(e),
            };
        }
        self.parse_atom()
    }

    fn parse_atom(&mut self) -> (r: Result<Expr, ParseError>)
        requires
            old(self).wf(),
        ensures
            final(self).wf(),
            final(self).all == old(self).all,
            old(self).pos() <= final(self).pos() <= old(self).all@.len(),
            agrees(r, p_atom(old(self).all@, old(self).pos()), final(self).pos(), |x: Expr| expr_v(x)),
        decreases old(self).rest@.len(), 0int,
    {
        match self.lookahead() {
            Lookahead::End => Err(ParseError::UnexpectedEof),
            Lookahead::OpenBracket => {
                let start = match self.advance() {
                    Some(t) => t.start,
                    None => 0,
                };
                let inner = match self.parse_or() {
                    Ok(x) => x,
                    Err(e) => return Err(e),
                };
                if self.lookahead() == Lookahead::CloseBracket {
                    self.advance();
                    Ok(inner)
                } else {
                    Err(ParseError::UnterminatedDoubleBracket { pos: start })
                }
            },
            Lookahead::Paren => Err(ParseError::ParensNotSupported),
            Lookahead::CloseBracket => {
                let start = match self.peek() {
                    Some(t) => t.start,
                    None => 0,
                };
                let token = owned("]]");
                proof {
                    reveal_strlit("]]");
                    assert(token@ =~= seq![']', ']']);
                }
                Err(ParseError::UnexpectedToken { token, pos: start })
            },
            _ => match self.parse_primary() {
                Ok(p) => Ok(Expr::Primary(p)),
                Err(e) => Err(e),
            },
        }
    }
}

/// Parse a conditional expression using explicit syntax options.
pub fn parse_with_options(input: &str, options: ParseOptions) -> (r: Result<Expr, ParseError>)
    ensures
        match parse_spec(input@, options) {
            Ok(e) => r matches Ok(x) && expr_v(x) == e,
            Err(e) => r matches Err(y) && perr_v(y) == e,
        },
{
    let tokens = match lex_with_options(input, options) {
        Ok(t) => t,
        Err(e) => return Err(e),
    };
    let mut p = Parser::new(tokens);
    let expr = match p.parse_or() {
        Ok(x) => x,
        Err(e) => return Err(e),
    };
    match p.peek() {
        Some(t) => Err(ParseError::UnexpectedToken { token: token_display(&t.value), pos: t.start }),
        None => Ok(expr),
    }
}

/// Parse a conditional expression using the default, bash-compatible
/// syntax options.
pub fn parse(input: &str) -> (r: Result<Expr, ParseError>)
    ensures
        match parse_spec(input@, ParseOptions::default_spec()) {
            Ok(e) => r matches Ok(x) && expr_v(x) == e,
            Err(e) => r matches Err(y) && perr_v(y) == e,
        },
{
    parse_with_options(input, ParseOptions::bash())
}

/// The text of `w` when it is exactly one unquoted literal part.
fn single_literal_of(w: &Word) -> (r: Option<&str>)
    ensures
        match single_literal(word_v(*w)) {
            Some(t) => r matches Some(x) && x@ == t,
            None => r is None,
        },
{
    proof {
        crate::syntax::lemma_parts_v_index(w.parts@, w.parts@.len() as int);
    }
    if w.parts.len() != 1 {
        return None;
    }
    match &w.parts[0] {
        WordPart::Literal(s) => Some(s.as_str()),
        _ => None,
    }
}

/// The text by which a token is named in an error.
fn token_display(t: &Token) -> (r: String)
    ensures
        r@ == token_text(tok_v(*t)),
{
    match t {
        Token::OpenBracket => { proof { reveal_strlit("[["); } owned("[[") },
        Token::CloseBracket => { proof { reveal_strlit("]]"); } owned("]]") },
        Token::AndAnd => { proof { reveal_strlit("&&"); } owned("&&") },
        Token::OrOr => { proof { reveal_strlit("||"); } owned("||") },
        Token::Bang => { proof { reveal_strlit("!"); } owned("!") },
        Token::OpenParen => { proof { reveal_strlit("("); } owned("(") },
        Token::CloseParen => { proof { reveal_strlit(")"); } owned(")") },
        Token::Eq => { proof { reveal_strlit("=="); } owned("==") },
        Token::NotEq => { proof { reveal_strlit("!="); } owned("!=") },
        Token::RegexEq => { proof { reveal_strlit("=~"); } owned("=~") },
        Token::Lt => { proof { reveal_strlit("<"); } owned("<") },
        Token::Gt => { proof { reveal_strlit(">"); } owned(">") },
        Token::Word(w) => {
            proof {
                crate::syntax::lemma_word_text_v(*w);
            }
            w.to_text()
        },
    }
}

} // verus!
