//! Lexer for bash `[[` conditional expression syntax.
//!
//! The lexer emits a flat stream of [`Token`]s. Operators (`==`, `!=`, `=~`,
//! `<`, `>`, `&&`, `||`, `!`, `[[`, `]]`) are only recognized when
//! **unquoted** — so `[[ "==" == "==" ]]` has the first and third as
//! operator `==` and the second/fourth as quoted word literals. This
//! matches bash.
//!
//! Words are assembled with per-part quoting preserved in [`Word`], so the
//! evaluator can honor bash's literalness rules for the RHS of `==` / `=~`.
//! Positions in tokens and errors are byte offsets into the input.

use vstd::prelude::*;

use crate::ast::{
    CaseModifyKind, ParameterExpansion, ParameterOp, RemoveKind, ReplaceKind, Word, WordPart,
};
use crate::error::ParseError;
use crate::syntax::{ExpV, OpV, ParseErrorV, PartV, part_v, parts_v, perr_v, word_v};
use crate::text::{chars_of, owned, push_char, push_str, string_of_range};

verus! {

// ---------------------------------------------------------------------------
// Options
// ---------------------------------------------------------------------------

/// Syntax options for lexing and parsing.
#[derive(Debug, Clone, Copy, PartialEq, Eq, Default)]
pub struct ParseOptions {
    punctuation_variables: bool,
}

impl ParseOptions {
    /// Whether empty and ASCII-punctuation-only parameter names are accepted.
    pub closed spec fn punct(&self) -> bool {
        self.punctuation_variables
    }

    /// These options with punctuation-only parameter names enabled or not.
    pub fn punctuation_variables(self, enabled: bool) -> (r: Self)
        ensures
            r.punct() == enabled,
    {
        ParseOptions { punctuation_variables: enabled }
    }

    /// Whether punctuation-only parameter names are enabled.
    pub fn allows_punctuation_variables(&self) -> (r: bool)
        ensures
            r == self.punct(),
    {
        self.punctuation_variables
    }

    /// The default, bash-compatible options.
    pub fn bash() -> (r: Self)
        ensures
            r == Self::default_spec(),
    {
        ParseOptions { punctuation_variables: false }
    }

    /// The default options as a value.
    pub closed spec fn default_spec() -> Self {
        ParseOptions { punctuation_variables: false }
    }
}

// ---------------------------------------------------------------------------
// Characters and byte positions
// ---------------------------------------------------------------------------

/// ASCII whitespace (`u8::is_ascii_whitespace`): space, tab, line feed,
/// form feed, carriage return.
pub open spec fn is_ws(c: char) -> bool {
    c == ' ' || c == '\t' || c == '\n' || c == '\x0C' || c == '\r'
}

pub open spec fn is_alpha(c: char) -> bool {
    ('a' <= c && c <= 'z') || ('A' <= c && c <= 'Z')
}

pub open spec fn is_digit(c: char) -> bool {
    '0' <= c && c <= '9'
}

pub open spec fn ident_start(c: char) -> bool {
    is_alpha(c) || c == '_'
}

pub open spec fn ident_cont(c: char) -> bool {
    is_alpha(c) || is_digit(c) || c == '_'
}

/// ASCII punctuation (`u8::is_ascii_punctuation`).
pub open spec fn is_punct(c: char) -> bool {
    ('!' <= c && c <= '/') || (':' <= c && c <= '@') || ('[' <= c && c <= '`') || ('{' <= c
        && c <= '~')
}

/// The number of bytes in the UTF-8 encoding of `c`.
pub open spec fn width(c: char) -> int {
    if (c as u32) < 0x80 {
        1
    } else if (c as u32) < 0x800 {
        2
    } else if (c as u32) < 0x10000 {
        3
    } else {
        4
    }
}

/// The byte offset of character `i` of `cs` in its UTF-8 encoding.
pub open spec fn bpos(cs: Seq<char>, i: int) -> int
    decreases i,
{
    if i <= 0 || i > cs.len() {
        0
    } else {
        bpos(cs, i - 1) + width(cs[i - 1])
    }
}

/// The first index at or after `i` whose character is `c`.
pub open spec fn find_from(cs: Seq<char>, c: char, i: int) -> Option<int>
    decreases cs.len() - i,
{
    if i < 0 || i >= cs.len() {
        None
    } else if cs[i] == c {
        Some(i)
    } else {
        find_from(cs, c, i + 1)
    }
}

/// The end of the run of identifier characters from `i`.
pub open spec fn ident_run(cs: Seq<char>, i: int) -> int
    decreases cs.len() - i,
{
    if 0 <= i < cs.len() && ident_cont(cs[i]) {
        ident_run(cs, i + 1)
    } else {
        i
    }
}

/// The end of the run of digits from `i`.
pub open spec fn digit_run(cs: Seq<char>, i: int) -> int
    decreases cs.len() - i,
{
    if 0 <= i < cs.len() && is_digit(cs[i]) {
        digit_run(cs, i + 1)
    } else {
        i
    }
}

/// `lit` appended to `parts` as a literal part, unless it is empty.
pub open spec fn flush(parts: Seq<PartV>, lit: Seq<char>) -> Seq<PartV> {
    if lit.len() > 0 {
        parts.push(PartV::Literal(lit))
    } else {
        parts
    }
}

/// `buf` appended to `parts` as a quoted part, unless it is empty.
pub open spec fn flush_quoted(parts: Seq<PartV>, buf: Seq<char>) -> Seq<PartV> {
    if buf.len() > 0 {
        parts.push(PartV::Quoted(buf))
    } else {
        parts
    }
}

// ---------------------------------------------------------------------------
// Scanning
// ---------------------------------------------------------------------------

/// `'...'` opened at `start`: the text and the position after the closing
/// quote.
pub open spec fn single_quoted(cs: Seq<char>, start: int) -> Result<(Seq<char>, int), ParseErrorV> {
    match find_from(cs, '\'', start + 1) {
        Some(k) => Ok((cs.subrange(start + 1, k), k + 1)),
        None => Err(ParseErrorV::UnterminatedString(bpos(cs, start))),
    }
}

pub proof fn lemma_find_from(cs: Seq<char>, c: char, i: int)
    ensures
        find_from(cs, c, i) matches Some(k) ==> i <= k < cs.len() && cs[k] == c,
    decreases cs.len() - i,
{
    if !(i < 0 || i >= cs.len()) && cs[i] != c {
        lemma_find_from(cs, c, i + 1);
    }
}

/// Scanning for the `}` that closes a `${` opened at `start`, from `i`, with
/// `depth` braces open and inside quote `quote`.
pub open spec fn param_end_from(cs: Seq<char>, i: int, depth: int, quote: Option<char>) -> Option<int>
    decreases cs.len() - i,
{
    let n = cs.len() as int;
    if i < 0 || i >= n {
        None
    } else {
        let c = cs[i];
        let skip = if i + 2 < n {
            i + 2
        } else {
            n
        };
        match quote {
            Some(q) => if c == '\\' && q == '"' {
                param_end_from(cs, skip, depth, quote)
            } else if c == q {
                param_end_from(cs, i + 1, depth, None)
            } else {
                param_end_from(cs, i + 1, depth, quote)
            },
            None => if c == '\'' || c == '"' {
                param_end_from(cs, i + 1, depth, Some(c))
            } else if c == '\\' {
                param_end_from(cs, skip, depth, quote)
            } else if c == '$' && i + 1 < n && cs[i + 1] == '{' {
                param_end_from(cs, i + 2, depth + 1, quote)
            } else if c == '}' {
                if depth - 1 == 0 {
                    Some(i)
                } else {
                    param_end_from(cs, i + 1, depth - 1, quote)
                }
            } else {
                param_end_from(cs, i + 1, depth, quote)
            },
        }
    }
}

/// The `}` closing the `${` at `start`.
pub open spec fn param_end(cs: Seq<char>, start: int) -> Option<int> {
    param_end_from(cs, start + 2, 1, None)
}

pub proof fn lemma_param_end_from(cs: Seq<char>, i: int, depth: int, quote: Option<char>)
    ensures
        param_end_from(cs, i, depth, quote) matches Some(k) ==> i <= k < cs.len() && cs[k] == '}',
    decreases cs.len() - i,
{
    let n = cs.len() as int;
    if !(i < 0 || i >= n) {
        let c = cs[i];
        let skip = if i + 2 < n {
            i + 2
        } else {
            n
        };
        match quote {
            Some(q) => if c == '\\' && q == '"' {
                lemma_param_end_from(cs, skip, depth, quote);
            } else if c == q {
                lemma_param_end_from(cs, i + 1, depth, None);
            } else {
                lemma_param_end_from(cs, i + 1, depth, quote);
            },
            None => if c == '\'' || c == '"' {
                lemma_param_end_from(cs, i + 1, depth, Some(c));
            } else if c == '\\' {
                lemma_param_end_from(cs, skip, depth, quote);
            } else if c == '$' && i + 1 < n && cs[i + 1] == '{' {
                lemma_param_end_from(cs, i + 2, depth + 1, quote);
            } else if c == '}' {
                if depth - 1 != 0 {
                    lemma_param_end_from(cs, i + 1, depth - 1, quote);
                }
            } else {
                lemma_param_end_from(cs, i + 1, depth, quote);
            },
        }
    }
}

/// The end of a quoted run opened before `j` with quote `q`.
pub open spec fn quoted_run_end(cs: Seq<char>, j: int, q: char) -> int
    decreases cs.len() - j,
{
    let n = cs.len() as int;
    if j < 0 || j >= n || cs[j] == q {
        j
    } else if q == '"' && cs[j] == '\\' {
        quoted_run_end(cs, if j + 2 < n { j + 2 } else { n }, q)
    } else {
        quoted_run_end(cs, j + 1, q)
    }
}

pub proof fn lemma_quoted_run_end(cs: Seq<char>, j: int, q: char)
    ensures
        quoted_run_end(cs, j, q) >= j,
        0 <= j <= cs.len() ==> quoted_run_end(cs, j, q) <= cs.len(),
    decreases cs.len() - j,
{
    let n = cs.len() as int;
    if !(j < 0 || j >= n || cs[j] == q) {
        if q == '"' && cs[j] == '\\' {
            lemma_quoted_run_end(cs, if j + 2 < n { j + 2 } else { n }, q);
        } else {
            lemma_quoted_run_end(cs, j + 1, q);
        }
    }
}

/// The next top-level index at or after `i`: escaped characters, quoted
/// runs and nested `${...}` are skipped over.
pub open spec fn top_next(cs: Seq<char>, i: int) -> Option<int>
    decreases cs.len() - i,
{
    let n = cs.len() as int;
    if i < 0 || i >= n {
        None
    } else {
        let c = cs[i];
        if c == '\\' {
            top_next(cs, if i + 2 < n { i + 2 } else { n })
        } else if c == '\'' || c == '"' {
            let j = quoted_run_end(cs, i + 1, c);
            proof {
                lemma_quoted_run_end(cs, i + 1, c);
            }
            top_next(cs, if j + 1 < n { j + 1 } else { n })
        } else if c == '$' && i + 1 < n && cs[i + 1] == '{' {
            match param_end(cs, i) {
                Some(end) => {
                    proof {
                        lemma_param_end_from(cs, i + 2, 1, None);
                    }
                    top_next(cs, end + 1)
                },
                None => None,
            }
        } else {
            Some(i)
        }
    }
}

pub proof fn lemma_top_next(cs: Seq<char>, i: int)
    ensures
        top_next(cs, i) matches Some(k) ==> i <= k < cs.len(),
    decreases cs.len() - i,
{
    let n = cs.len() as int;
    if !(i < 0 || i >= n) {
        let c = cs[i];
        if c == '\\' {
            lemma_top_next(cs, if i + 2 < n { i + 2 } else { n });
        } else if c == '\'' || c == '"' {
            let j = quoted_run_end(cs, i + 1, c);
            lemma_quoted_run_end(cs, i + 1, c);
            lemma_top_next(cs, if j + 1 < n { j + 1 } else { n });
        } else if c == '$' && i + 1 < n && cs[i + 1] == '{' {
            lemma_param_end_from(cs, i + 2, 1, None);
            if let Some(end) = param_end(cs, i) {
                lemma_top_next(cs, end + 1);
            }
        }
    }
}

/// Whether `c` is one of the custom parameter operators.
pub open spec fn custom_op_char(c: char) -> bool {
    c == '#' || c == '%' || c == ':' || c == '^' || c == ',' || c == '-' || c == '+'
}

/// The first top-level index `k >= i` with `k > 0` holding a custom
/// parameter operator.
pub open spec fn custom_op_from(cs: Seq<char>, i: int) -> Option<int>
    decreases cs.len() - i,
{
    match top_next(cs, i) {
        None => None,
        Some(k) => {
            proof {
                lemma_top_next(cs, i);
            }
            if k > 0 && custom_op_char(cs[k]) {
                Some(k)
            } else {
                custom_op_from(cs, k + 1)
            }
        },
    }
}

/// The first top-level `/` at or after `i`.
pub open spec fn slash_from(cs: Seq<char>, i: int) -> Option<int>
    decreases cs.len() - i,
{
    match top_next(cs, i) {
        None => None,
        Some(k) => {
            proof {
                lemma_top_next(cs, i);
            }
            if cs[k] == '/' {
                Some(k)
            } else {
                slash_from(cs, k + 1)
            }
        },
    }
}

/// The `:` separating a substring offset from its length: the first
/// top-level `:` outside parentheses that does not close a `?` ternary.
#[verifier::opaque]
pub open spec fn separator_from(cs: Seq<char>, i: int, parens: int, ternaries: int) -> Option<int>
    decreases cs.len() - i,
{
    match top_next(cs, i) {
        None => None,
        Some(k) => {
            proof {
                lemma_top_next(cs, i);
            }
            let c = cs[k];
            if c == '(' {
                separator_from(cs, k + 1, parens + 1, ternaries)
            } else if c == ')' {
                separator_from(cs, k + 1, if parens > 0 { parens - 1 } else { 0 }, ternaries)
            } else if c == '?' && parens == 0 {
                separator_from(cs, k + 1, parens, ternaries + 1)
            } else if c == ':' && parens == 0 && ternaries > 0 {
                separator_from(cs, k + 1, parens, ternaries - 1)
            } else if c == ':' && parens == 0 {
                Some(k)
            } else {
                separator_from(cs, k + 1, parens, ternaries)
            }
        },
    }
}

/// Where a bash parameter name at the start of `cs` ends: an identifier, a
/// run of digits, or one special character.
pub open spec fn name_end(cs: Seq<char>) -> Option<int> {
    if cs.len() == 0 {
        None
    } else if ident_start(cs[0]) {
        Some(ident_run(cs, 1))
    } else if is_digit(cs[0]) {
        Some(digit_run(cs, 1))
    } else if cs[0] == '@' || cs[0] == '*' || cs[0] == '#' || cs[0] == '?' || cs[0] == '-'
        || cs[0] == '$' || cs[0] == '!' {
        Some(1)
    } else {
        None
    }
}

/// Whether `cs` is exactly a bash parameter name.
pub open spec fn is_bash_name(cs: Seq<char>) -> bool {
    name_end(cs) == Some(cs.len() as int)
}

/// Whether `cs` is empty or all ASCII punctuation.
pub open spec fn is_punct_name(cs: Seq<char>) -> bool {
    forall|i: int| 0 <= i < cs.len() ==> is_punct(#[trigger] cs[i])
}

/// Whether an unquoted operator or bracket token starts at `i`.
pub open spec fn op_start(cs: Seq<char>, i: int) -> bool {
    let c = cs[i];
    let next = i + 1 < cs.len();
    (c == '[' && next && cs[i + 1] == '[') || (c == ']' && next && cs[i + 1] == ']') || (c == '&'
        && next && cs[i + 1] == '&') || (c == '|' && next && cs[i + 1] == '|') || c == '<' || c
        == '>' || c == '(' || c == ')' || c == '='
}

// ---------------------------------------------------------------------------
// Words, parameter expansions and quotes
// ---------------------------------------------------------------------------

/// How the text inside `${...}` splits into a name and an operator.
pub enum SplitV {
    Plain,
    At(int),
    Bad,
}

/// The operator characters that may follow a bash parameter name.
pub open spec fn name_op_char(c: char) -> bool {
    c == '#' || c == '%' || c == '/' || c == ':' || c == '^' || c == ',' || c == '-' || c == '+'
        || c == '=' || c == '?'
}

/// Where the name inside `${...}` ends and its operator begins.
pub open spec fn param_split(inner: Seq<char>, opts: ParseOptions) -> SplitV {
    let n = inner.len() as int;
    match name_end(inner) {
        Some(end) => if end == n {
            SplitV::Plain
        } else if 0 <= end < n && name_op_char(inner[end]) {
            SplitV::At(end)
        } else {
            SplitV::Bad
        },
        None => if opts.punct() && is_punct_name(inner) {
            match custom_op_from(inner, 0) {
                Some(k) => SplitV::At(k),
                None => SplitV::Plain,
            }
        } else if opts.punct() {
            match custom_op_from(inner, 0) {
                Some(k) => if is_punct_name(inner.take(k)) {
                    SplitV::At(k)
                } else {
                    SplitV::Bad
                },
                None => SplitV::Bad,
            }
        } else {
            SplitV::Bad
        },
    }
}

pub proof fn lemma_runs(cs: Seq<char>, i: int)
    requires
        0 <= i <= cs.len(),
    ensures
        i <= ident_run(cs, i) <= cs.len(),
        i <= digit_run(cs, i) <= cs.len(),
    decreases cs.len() - i,
{
    if i < cs.len() {
        lemma_runs(cs, i + 1);
    }
}

pub proof fn lemma_custom_op_from(cs: Seq<char>, i: int)
    ensures
        custom_op_from(cs, i) matches Some(k) ==> i <= k < cs.len() && k > 0 && custom_op_char(cs[k]),
    decreases cs.len() - i,
{
    lemma_top_next(cs, i);
    if let Some(k) = top_next(cs, i) {
        if !(k > 0 && custom_op_char(cs[k])) {
            lemma_custom_op_from(cs, k + 1);
        }
    }
}

pub proof fn lemma_param_split(inner: Seq<char>, opts: ParseOptions)
    ensures
        param_split(inner, opts) matches SplitV::At(k) ==> 0 <= k < inner.len(),
{
    if inner.len() > 0 {
        lemma_runs(inner, 1);
    }
    lemma_custom_op_from(inner, 0);
}

pub proof fn lemma_slash_from(cs: Seq<char>, i: int)
    ensures
        slash_from(cs, i) matches Some(k) ==> i <= k < cs.len() && cs[k] == '/',
    decreases cs.len() - i,
{
    lemma_top_next(cs, i);
    if let Some(k) = top_next(cs, i) {
        if cs[k] != '/' {
            lemma_slash_from(cs, k + 1);
        }
    }
}

pub proof fn lemma_separator_from(cs: Seq<char>, i: int, parens: int, ternaries: int)
    ensures
        separator_from(cs, i, parens, ternaries) matches Some(k) ==> i <= k < cs.len(),
    decreases cs.len() - i,
{
    reveal(separator_from);
    lemma_top_next(cs, i);
    if let Some(k) = top_next(cs, i) {
        let c = cs[k];
        if c == '(' {
            lemma_separator_from(cs, k + 1, parens + 1, ternaries);
        } else if c == ')' {
            lemma_separator_from(cs, k + 1, if parens > 0 { parens - 1 } else { 0 }, ternaries);
        } else if c == '?' && parens == 0 {
            lemma_separator_from(cs, k + 1, parens, ternaries + 1);
        } else if c == ':' && parens == 0 && ternaries > 0 {
            lemma_separator_from(cs, k + 1, parens, ternaries - 1);
        } else if c == ':' && parens == 0 {
        } else {
            lemma_separator_from(cs, k + 1, parens, ternaries);
        }
    }
}

/// The error for an invalid parameter name.
pub open spec fn invalid_name(inner: Seq<char>, source_pos: int) -> ParseErrorV {
    ParseErrorV::InvalidParameterExpansion(inner, source_pos, "invalid parameter name"@)
}

/// `$name` or `${...}` at `start` (quoted inside double quotes): the part
/// and the position after it, or `None` when the `$` is literal.
pub open spec fn dollar(cs: Seq<char>, start: int, quoted: bool, opts: ParseOptions) -> Result<
    Option<(PartV, int)>,
    ParseErrorV,
>
    decreases cs.len(), 1int, 0int,
{
    let n = cs.len() as int;
    if start < 0 || start + 1 >= n {
        Ok(None)
    } else {
        let next = cs[start + 1];
        if next == '{' {
            match param_end(cs, start) {
                None => Err(ParseErrorV::UnterminatedParameterExpansion(bpos(cs, start))),
                Some(end) => {
                    proof {
                        lemma_param_end_from(cs, start + 2, 1, None);
                    }
                    let inner = cs.subrange(start + 2, end);
                    match param_exp(inner, bpos(cs, start), opts) {
                        Err(e) => Err(e),
                        Ok(Some(x)) => Ok(Some((PartV::Expansion(x, quoted), end + 1))),
                        Ok(None) => Ok(
                            Some(
                                (
                                    if quoted {
                                        PartV::QuotedVar(inner)
                                    } else {
                                        PartV::Var(inner)
                                    },
                                    end + 1,
                                ),
                            ),
                        ),
                    }
                },
            }
        } else if ident_start(next) {
            let j = ident_run(cs, start + 1);
            let name = cs.subrange(start + 1, j);
            Ok(
                Some(
                    (
                        if quoted {
                            PartV::QuotedVar(name)
                        } else {
                            PartV::Var(name)
                        },
                        j,
                    ),
                ),
            )
        } else {
            Ok(None)
        }
    }
}

/// Double-quoted text from `i` (opened at `start`): `buf` is quoted text
/// not yet emitted and `acc` the parts so far; the result holds the parts
/// and the position after the closing quote.
pub open spec fn dq_loop(
    cs: Seq<char>,
    i: int,
    buf: Seq<char>,
    acc: Seq<PartV>,
    start: int,
    opts: ParseOptions,
) -> Result<(Seq<PartV>, int), ParseErrorV>
    decreases cs.len(), 2int, cs.len() - i,
{
    let n = cs.len() as int;
    if i < 0 || i >= n {
        Err(ParseErrorV::UnterminatedString(bpos(cs, start)))
    } else {
        let c = cs[i];
        if c == '"' {
            Ok((flush_quoted(acc, buf), i + 1))
        } else if c == '\\' && i + 1 < n {
            let nc = cs[i + 1];
            if nc == '$' || nc == '`' || nc == '"' || nc == '\\' || nc == '\n' {
                dq_loop(
                    cs,
                    i + 2,
                    if nc != '\n' {
                        buf.push(nc)
                    } else {
                        buf
                    },
                    acc,
                    start,
                    opts,
                )
            } else {
                dq_loop(cs, i + 2, buf.push('\\').push(nc), acc, start, opts)
            }
        } else if c == '$' {
            match dollar(cs, i, true, opts) {
                Err(e) => Err(e),
                Ok(Some((p, end))) => if i < end <= n {
                    dq_loop(cs, end, Seq::empty(), flush_quoted(acc, buf).push(p), start, opts)
                } else {
                    Err(ParseErrorV::UnexpectedEof)
                },
                Ok(None) => dq_loop(cs, i + 1, buf.push('$'), acc, start, opts),
            }
        } else {
            dq_loop(cs, i + 1, buf.push(c), acc, start, opts)
        }
    }
}

/// A word inside `${...}` (pattern, replacement, offset, ...), from `i`:
/// unquoted text is literal, a backslash quotes the next character.
pub open spec fn pw_loop(cs: Seq<char>, i: int, parts: Seq<PartV>, lit: Seq<char>, opts: ParseOptions) -> Result<
    Seq<PartV>,
    ParseErrorV,
>
    decreases cs.len(), 3int, cs.len() - i,
{
    let n = cs.len() as int;
    if i < 0 || i >= n {
        Ok(flush(parts, lit))
    } else {
        let c = cs[i];
        if c == '\'' {
            match single_quoted(cs, i) {
                Err(e) => Err(e),
                Ok((t, end)) => if i < end <= n {
                    pw_loop(cs, end, flush(parts, lit).push(PartV::Quoted(t)), Seq::empty(), opts)
                } else {
                    Err(ParseErrorV::UnexpectedEof)
                },
            }
        } else if c == '"' {
            match dq_loop(cs, i + 1, Seq::empty(), Seq::empty(), i, opts) {
                Err(e) => Err(e),
                Ok((ps, end)) => if i < end <= n {
                    pw_loop(cs, end, flush(parts, lit) + ps, Seq::empty(), opts)
                } else {
                    Err(ParseErrorV::UnexpectedEof)
                },
            }
        } else if c == '$' {
            match dollar(cs, i, false, opts) {
                Err(e) => Err(e),
                Ok(Some((p, end))) => if i < end <= n {
                    pw_loop(cs, end, flush(parts, lit).push(p), Seq::empty(), opts)
                } else {
                    Err(ParseErrorV::UnexpectedEof)
                },
                Ok(None) => pw_loop(cs, i + 1, parts, lit.push('$'), opts),
            }
        } else if c == '\\' && i + 1 < n {
            pw_loop(
                cs,
                i + 2,
                flush(parts, lit).push(PartV::Quoted(seq![cs[i + 1]])),
                Seq::empty(),
                opts,
            )
        } else {
            pw_loop(cs, i + 1, parts, lit.push(c), opts)
        }
    }
}

/// A word inside `${...}`.
pub open spec fn param_word(cs: Seq<char>, opts: ParseOptions) -> Result<Seq<PartV>, ParseErrorV>
    decreases cs.len(), 3int, cs.len() + 1,
{
    pw_loop(cs, 0, Seq::empty(), Seq::empty(), opts)
}

/// `${name#pattern}`, `${name##pattern}`, `${name%pattern}`, `${name%%pattern}`.
pub open spec fn remove_syntax(op: char, tail: Seq<char>, opts: ParseOptions) -> Result<OpV, ParseErrorV>
    decreases tail.len(), 4int, 0int,
{
    let t = tail.len() as int;
    let doubled = t > 0 && tail[0] == op;
    let pattern = if doubled {
        tail.skip(1)
    } else {
        tail
    };
    let kind = if op == '#' {
        if doubled {
            RemoveKind::LongestPrefix
        } else {
            RemoveKind::ShortestPrefix
        }
    } else {
        if doubled {
            RemoveKind::LongestSuffix
        } else {
            RemoveKind::ShortestSuffix
        }
    };
    match param_word(pattern, opts) {
        Ok(w) => Ok(OpV::Remove(kind, w)),
        Err(e) => Err(e),
    }
}

/// `${name/pattern/replacement}` and its `//`, `/#`, `/%` forms.
pub open spec fn replace_syntax(tail: Seq<char>, opts: ParseOptions) -> Result<OpV, ParseErrorV>
    decreases tail.len(), 4int, 0int,
{
    let t = tail.len() as int;
    let kind = if t > 0 && tail[0] == '/' {
        ReplaceKind::All
    } else if t > 0 && tail[0] == '#' {
        ReplaceKind::Prefix
    } else if t > 0 && tail[0] == '%' {
        ReplaceKind::Suffix
    } else {
        ReplaceKind::First
    };
    let body = if kind == ReplaceKind::First {
        tail
    } else {
        tail.skip(1)
    };
    proof {
        lemma_slash_from(body, 0);
    }
    let (pattern, replacement) = match slash_from(body, 0) {
        Some(k) => (body.take(k), body.skip(k + 1)),
        None => (body, Seq::empty()),
    };
    match param_word(pattern, opts) {
        Err(e) => Err(e),
        Ok(pw) => match param_word(replacement, opts) {
            Err(e) => Err(e),
            Ok(rw) => Ok(OpV::Replace(kind, pw, rw)),
        },
    }
}

/// `${name:offset}` and `${name:offset:length}`.
pub open spec fn substring_syntax(tail: Seq<char>, opts: ParseOptions) -> Result<OpV, ParseErrorV>
    decreases tail.len(), 4int, 0int,
{
    proof {
        lemma_separator_from(tail, 0, 0, 0);
    }
    match separator_from(tail, 0, 0, 0) {
        Some(k) => match param_word(tail.take(k), opts) {
            Err(e) => Err(e),
            Ok(ow) => match param_word(tail.skip(k + 1), opts) {
                Err(e) => Err(e),
                Ok(lw) => Ok(OpV::Substring(ow, Some(lw))),
            },
        },
        None => match param_word(tail, opts) {
            Err(e) => Err(e),
            Ok(ow) => Ok(OpV::Substring(ow, None)),
        },
    }
}

/// The forms after `${name:`.
pub open spec fn colon_syntax(
    tail: Seq<char>,
    inner: Seq<char>,
    source_pos: int,
    unsupported_pos: int,
    opts: ParseOptions,
) -> Result<OpV, ParseErrorV>
    decreases tail.len(), 4int, 1int,
{
    let t = tail.len() as int;
    if t > 0 && tail[0] == '-' {
        match param_word(tail.skip(1), opts) {
            Ok(w) => Ok(OpV::DefaultValue(true, w)),
            Err(e) => Err(e),
        }
    } else if t > 0 && tail[0] == '+' {
        match param_word(tail.skip(1), opts) {
            Ok(w) => Ok(OpV::AlternateValue(true, w)),
            Err(e) => Err(e),
        }
    } else if t > 0 && (tail[0] == '=' || tail[0] == '?') {
        Err(ParseErrorV::UnsupportedParameterExpansion(seq![':', tail[0]], unsupported_pos))
    } else if t == 0 {
        Err(
            ParseErrorV::InvalidParameterExpansion(inner, source_pos, "substring offset is missing"@),
        )
    } else {
        substring_syntax(tail, opts)
    }
}

/// `${name^pattern}` and friends.
pub open spec fn case_syntax(op: char, tail: Seq<char>, opts: ParseOptions) -> Result<OpV, ParseErrorV>
    decreases tail.len(), 4int, 0int,
{
    let t = tail.len() as int;
    let doubled = t > 0 && tail[0] == op;
    let pattern = if doubled {
        tail.skip(1)
    } else {
        tail
    };
    let kind = if op == '^' {
        if doubled {
            CaseModifyKind::UpperAll
        } else {
            CaseModifyKind::UpperFirst
        }
    } else {
        if doubled {
            CaseModifyKind::LowerAll
        } else {
            CaseModifyKind::LowerFirst
        }
    };
    if pattern.len() == 0 {
        Ok(OpV::CaseModify(kind, None))
    } else {
        match param_word(pattern, opts) {
            Ok(w) => Ok(OpV::CaseModify(kind, Some(w))),
            Err(e) => Err(e),
        }
    }
}

/// The operation of `${name<op><tail>}`; `inner` is the whole text inside
/// the braces, `source_pos` the position of the `$` and `unsupported_pos`
/// the position reported for an unsupported operator.
pub open spec fn op_outcome(
    op: char,
    tail: Seq<char>,
    inner: Seq<char>,
    source_pos: int,
    unsupported_pos: int,
    opts: ParseOptions,
) -> Result<OpV, ParseErrorV>
    decreases tail.len(), 4int, 2int,
{
    if op == '#' || op == '%' {
        remove_syntax(op, tail, opts)
    } else if op == '/' {
        replace_syntax(tail, opts)
    } else if op == ':' {
        colon_syntax(tail, inner, source_pos, unsupported_pos, opts)
    } else if op == '^' || op == ',' {
        case_syntax(op, tail, opts)
    } else if op == '-' {
        match param_word(tail, opts) {
            Ok(w) => Ok(OpV::DefaultValue(false, w)),
            Err(e) => Err(e),
        }
    } else if op == '+' {
        match param_word(tail, opts) {
            Ok(w) => Ok(OpV::AlternateValue(false, w)),
            Err(e) => Err(e),
        }
    } else {
        Err(ParseErrorV::UnsupportedParameterExpansion(seq![op], unsupported_pos))
    }
}

/// The text inside `${...}`: `None` for a plain variable reference.
pub open spec fn param_exp(inner: Seq<char>, source_pos: int, opts: ParseOptions) -> Result<
    Option<ExpV>,
    ParseErrorV,
>
    decreases inner.len(), 4int, 3int,
{
    let n = inner.len() as int;
    if n > 0 && inner[0] == '#' && is_bash_name(inner.skip(1)) {
        Ok(Some(ExpV { name: inner.skip(1), op: OpV::Length }))
    } else {
        match param_split(inner, opts) {
            SplitV::Bad => Err(invalid_name(inner, source_pos)),
            SplitV::Plain => Ok(None),
            SplitV::At(split) => {
                proof {
                    lemma_param_split(inner, opts);
                }
                let name = inner.take(split);
                let op = inner[split];
                let tail = inner.skip(split + 1);
                let unsupported_pos = source_pos + bpos(inner, split) + 2;
                let opv = op_outcome(op, tail, inner, source_pos, unsupported_pos, opts);
                match opv {
                    Ok(o) => Ok(Some(ExpV { name: name, op: o })),
                    Err(e) => Err(e),
                }
            },
        }
    }
}

/// An ordinary word from `i`: it ends at unquoted whitespace or the start
/// of an operator; a backslash escapes the next character.
pub open spec fn rw_loop(cs: Seq<char>, i: int, parts: Seq<PartV>, lit: Seq<char>, opts: ParseOptions) -> Result<
    (Seq<PartV>, int),
    ParseErrorV,
>
    decreases cs.len() - i,
{
    let n = cs.len() as int;
    if i < 0 || i >= n || is_ws(cs[i]) || op_start(cs, i) {
        Ok((flush(parts, lit), i))
    } else {
        let c = cs[i];
        if c == '\'' {
            match single_quoted(cs, i) {
                Err(e) => Err(e),
                Ok((t, end)) => if i < end <= n {
                    rw_loop(cs, end, flush(parts, lit).push(PartV::Quoted(t)), Seq::empty(), opts)
                } else {
                    Err(ParseErrorV::UnexpectedEof)
                },
            }
        } else if c == '"' {
            match dq_loop(cs, i + 1, Seq::empty(), Seq::empty(), i, opts) {
                Err(e) => Err(e),
                Ok((ps, end)) => if i < end <= n {
                    rw_loop(cs, end, flush(parts, lit) + ps, Seq::empty(), opts)
                } else {
                    Err(ParseErrorV::UnexpectedEof)
                },
            }
        } else if c == '$' {
            match dollar(cs, i, false, opts) {
                Err(e) => Err(e),
                Ok(Some((p, end))) => if i < end <= n {
                    rw_loop(cs, end, flush(parts, lit).push(p), Seq::empty(), opts)
                } else {
                    Err(ParseErrorV::UnexpectedEof)
                },
                Ok(None) => rw_loop(cs, i + 1, parts, lit.push('$'), opts),
            }
        } else if c == '\\' {
            if i + 1 < n {
                rw_loop(cs, i + 2, parts, lit.push(cs[i + 1]), opts)
            } else {
                rw_loop(cs, i + 1, parts, lit.push('\\'), opts)
            }
        } else {
            rw_loop(cs, i + 1, parts, lit.push(c), opts)
        }
    }
}

/// The word after `==`, `!=` or `=~` from `i`: almost everything is
/// literal; only whitespace and an unquoted `]]` outside a bracket
/// expression end it. A backslash is kept with the character it escapes.
pub open spec fn pt_loop(
    cs: Seq<char>,
    i: int,
    depth: int,
    parts: Seq<PartV>,
    lit: Seq<char>,
    opts: ParseOptions,
) -> Result<(Seq<PartV>, int), ParseErrorV>
    decreases cs.len() - i,
{
    let n = cs.len() as int;
    if i < 0 || i >= n {
        Ok((flush(parts, lit), i))
    } else {
        let c = cs[i];
        if is_ws(c) && depth == 0 {
            Ok((flush(parts, lit), i))
        } else if c == ']' && i + 1 < n && cs[i + 1] == ']' && depth == 0 {
            Ok((flush(parts, lit), i))
        } else {
            let d = if c == '[' {
                depth + 1
            } else if c == ']' && depth > 0 {
                depth - 1
            } else {
                depth
            };
            if c == '\'' {
                match single_quoted(cs, i) {
                    Err(e) => Err(e),
                    Ok((t, end)) => if i < end <= n {
                        pt_loop(cs, end, d, flush(parts, lit).push(PartV::Quoted(t)), Seq::empty(), opts)
                    } else {
                        Err(ParseErrorV::UnexpectedEof)
                    },
                }
            } else if c == '"' {
                match dq_loop(cs, i + 1, Seq::empty(), Seq::empty(), i, opts) {
                    Err(e) => Err(e),
                    Ok((ps, end)) => if i < end <= n {
                        pt_loop(cs, end, d, flush(parts, lit) + ps, Seq::empty(), opts)
                    } else {
                        Err(ParseErrorV::UnexpectedEof)
                    },
                }
            } else if c == '$' {
                match dollar(cs, i, false, opts) {
                    Err(e) => Err(e),
                    Ok(Some((p, end))) => if i < end <= n {
                        pt_loop(cs, end, d, flush(parts, lit).push(p), Seq::empty(), opts)
                    } else {
                        Err(ParseErrorV::UnexpectedEof)
                    },
                    Ok(None) => pt_loop(cs, i + 1, d, parts, lit.push('$'), opts),
                }
            } else if c == '\\' {
                if i + 1 < n {
                    pt_loop(cs, i + 2, d, parts, lit.push('\\').push(cs[i + 1]), opts)
                } else {
                    pt_loop(cs, i + 1, d, parts, lit.push('\\'), opts)
                }
            } else {
                pt_loop(cs, i + 1, d, parts, lit.push(c), opts)
            }
        }
    }
}

/// The kinds of token.
pub enum TokKind {
    OpenBracket,
    CloseBracket,
    AndAnd,
    OrOr,
    Bang,
    OpenParen,
    CloseParen,
    Eq,
    NotEq,
    RegexEq,
    Lt,
    Gt,
    Word(Seq<PartV>),
}

/// A token with its byte span.
pub type TokV = (TokKind, int, int);

/// The two-character operator starting at `i`, if any, and whether a
/// pattern word follows it.
pub open spec fn two_char_op(cs: Seq<char>, i: int) -> Option<(TokKind, bool)> {
    if i + 1 < cs.len() {
        let a = cs[i];
        let b = cs[i + 1];
        if a == '[' && b == '[' {
            Some((TokKind::OpenBracket, false))
        } else if a == ']' && b == ']' {
            Some((TokKind::CloseBracket, false))
        } else if a == '&' && b == '&' {
            Some((TokKind::AndAnd, false))
        } else if a == '|' && b == '|' {
            Some((TokKind::OrOr, false))
        } else if a == '=' && b == '=' {
            Some((TokKind::Eq, true))
        } else if a == '!' && b == '=' {
            Some((TokKind::NotEq, true))
        } else if a == '=' && b == '~' {
            Some((TokKind::RegexEq, true))
        } else {
            None
        }
    } else {
        None
    }
}

/// The one-character operator `c`, if any, and whether a pattern word
/// follows it.
pub open spec fn one_char_op(c: char) -> Option<(TokKind, bool)> {
    if c == '!' {
        Some((TokKind::Bang, false))
    } else if c == '=' {
        Some((TokKind::Eq, true))
    } else if c == '<' {
        Some((TokKind::Lt, false))
    } else if c == '>' {
        Some((TokKind::Gt, false))
    } else if c == '(' {
        Some((TokKind::OpenParen, false))
    } else if c == ')' {
        Some((TokKind::CloseParen, false))
    } else {
        None
    }
}

/// The tokens from `i` on, after `toks`; `pattern` is set right after
/// `==`, `!=` and `=~`, where the next word is read as a pattern.
pub open spec fn lex_loop(cs: Seq<char>, i: int, pattern: bool, toks: Seq<TokV>, opts: ParseOptions) -> Result<
    Seq<TokV>,
    ParseErrorV,
>
    decreases cs.len() - i, if pattern {
        1int
    } else {
        0int
    },
{
    let n = cs.len() as int;
    if i < 0 || i >= n {
        Ok(toks)
    } else if is_ws(cs[i]) {
        lex_loop(cs, i + 1, pattern, toks, opts)
    } else if pattern {
        match pt_loop(cs, i, 0, Seq::empty(), Seq::empty(), opts) {
            Err(e) => Err(e),
            Ok((w, end)) => if i <= end <= n {
                lex_loop(cs, end, false, toks.push((TokKind::Word(w), bpos(cs, i), bpos(cs, end))), opts)
            } else {
                Err(ParseErrorV::UnexpectedEof)
            },
        }
    } else {
        match two_char_op(cs, i) {
            Some((k, p)) => lex_loop(cs, i + 2, p, toks.push((k, bpos(cs, i), bpos(cs, i + 2))), opts),
            None => match one_char_op(cs[i]) {
                Some((k, p)) => lex_loop(
                    cs,
                    i + 1,
                    p,
                    toks.push((k, bpos(cs, i), bpos(cs, i + 1))),
                    opts,
                ),
                None => match rw_loop(cs, i, Seq::empty(), Seq::empty(), opts) {
                    Err(e) => Err(e),
                    Ok((w, end)) => if i < end <= n {
                        lex_loop(
                            cs,
                            end,
                            false,
                            toks.push((TokKind::Word(w), bpos(cs, i), bpos(cs, end))),
                            opts,
                        )
                    } else {
                        Err(ParseErrorV::UnexpectedEof)
                    },
                },
            },
        }
    }
}

/// The tokens of the input text `cs`.
pub open spec fn lex_spec(cs: Seq<char>, opts: ParseOptions) -> Result<Seq<TokV>, ParseErrorV> {
    lex_loop(cs, 0, false, Seq::empty(), opts)
}

/// Every token lies within the first `limit` bytes, starts no later than it
/// ends, and ends no later than any later token starts.
pub open spec fn spans_ordered(ts: Seq<TokV>, limit: int) -> bool {
    &&& forall|i: int| 0 <= i < ts.len() ==> 0 <= #[trigger] ts[i].1 <= ts[i].2 <= limit
    &&& forall|i: int, j: int| 0 <= i < j < ts.len() ==> #[trigger] ts[i].2 <= #[trigger] ts[j].1
}

proof fn lemma_spans_push(ts: Seq<TokV>, t: TokV, limit: int)
    requires
        spans_ordered(ts, limit),
        0 <= limit <= t.1 <= t.2,
    ensures
        spans_ordered(ts.push(t), t.2),
{
    let ts2 = ts.push(t);
    assert forall|i: int, j: int| 0 <= i < j < ts2.len() implies #[trigger] ts2[i].2 <= #[trigger] ts2[j].1 by {
        if j == ts.len() {
            assert(ts2[i] == ts[i]);
            assert(0 <= ts[i].1 <= ts[i].2 <= limit);
        } else {
            assert(ts2[i] == ts[i] && ts2[j] == ts[j]);
            assert(ts[i].2 <= ts[j].1);
        }
    }
    assert forall|i: int| 0 <= i < ts2.len() implies 0 <= #[trigger] ts2[i].1 <= ts2[i].2 <= t.2 by {
        if i < ts.len() {
            assert(ts2[i] == ts[i]);
            assert(0 <= ts[i].1 <= ts[i].2 <= limit);
        } else {
            assert(ts2[i] == t);
        }
    }
}

proof fn lemma_lex_loop_spans(cs: Seq<char>, i: int, pattern: bool, toks: Seq<TokV>, opts: ParseOptions)
    requires
        0 <= i <= cs.len(),
        spans_ordered(toks, bpos(cs, i)),
    ensures
        lex_loop(cs, i, pattern, toks, opts) matches Ok(ts) ==> spans_ordered(ts, bpos(cs, cs.len() as int)),
    decreases cs.len() - i, if pattern {
        1int
    } else {
        0int
    },
{
    let n = cs.len() as int;
    lemma_bpos_mono(cs, 0, i);
    if i >= n {
    } else if is_ws(cs[i]) {
        lemma_bpos_mono(cs, i, i + 1);
        lemma_lex_loop_spans(cs, i + 1, pattern, toks, opts);
    } else if pattern {
        match pt_loop(cs, i, 0, Seq::empty(), Seq::empty(), opts) {
            Err(e) => {},
            Ok((w, end)) => if i <= end <= n {
                lemma_bpos_mono(cs, i, end);
                let t = (TokKind::Word(w), bpos(cs, i), bpos(cs, end));
                lemma_spans_push(toks, t, bpos(cs, i));
                lemma_lex_loop_spans(cs, end, false, toks.push(t), opts);
            },
        }
    } else {
        match two_char_op(cs, i) {
            Some((k, p)) => {
                lemma_bpos_mono(cs, i, i + 2);
                let t = (k, bpos(cs, i), bpos(cs, i + 2));
                lemma_spans_push(toks, t, bpos(cs, i));
                lemma_lex_loop_spans(cs, i + 2, p, toks.push(t), opts);
            },
            None => match one_char_op(cs[i]) {
                Some((k, p)) => {
                    lemma_bpos_mono(cs, i, i + 1);
                    let t = (k, bpos(cs, i), bpos(cs, i + 1));
                    lemma_spans_push(toks, t, bpos(cs, i));
                    lemma_lex_loop_spans(cs, i + 1, p, toks.push(t), opts);
                },
                None => match rw_loop(cs, i, Seq::empty(), Seq::empty(), opts) {
                    Err(e) => {},
                    Ok((w, end)) => if i < end <= n {
                        lemma_bpos_mono(cs, i, end);
                        let t = (TokKind::Word(w), bpos(cs, i), bpos(cs, end));
                        lemma_spans_push(toks, t, bpos(cs, i));
                        lemma_lex_loop_spans(cs, end, false, toks.push(t), opts);
                    },
                },
            },
        }
    }
}

/// Token spans are byte ranges of the input, in order: each token starts
/// no later than it ends, ends no later than the next one starts, and all
/// lie within the input's UTF-8 length.
pub proof fn lemma_token_spans_ordered(cs: Seq<char>, opts: ParseOptions)
    ensures
        lex_spec(cs, opts) matches Ok(ts) ==> spans_ordered(ts, bpos(cs, cs.len() as int)),
{
    lemma_lex_loop_spans(cs, 0, false, Seq::empty(), opts);
}

proof fn lemma_find_quote_at_end(cs: Seq<char>, i: int)
    requires
        1 <= i <= cs.len() - 1,
        cs[cs.len() - 1] == '\'',
        forall|k: int| 1 <= k < cs.len() - 1 ==> #[trigger] cs[k] != '\'',
    ensures
        find_from(cs, '\'', i) == Some(cs.len() - 1),
    decreases cs.len() - i,
{
    if i < cs.len() - 1 {
        lemma_find_quote_at_end(cs, i + 1);
    }
}

/// Single quotes keep their text literally: `'t'`, for any `t` without a
/// single quote, is one word made of the quoted text `t`, spanning the
/// whole input.
pub proof fn lemma_single_quoted_word(t: Seq<char>, opts: ParseOptions)
    requires
        forall|k: int| 0 <= k < t.len() ==> #[trigger] t[k] != '\'',
    ensures
        ({
            let cs = seq!['\''] + t + seq!['\''];
            lex_spec(cs, opts) == Ok::<Seq<TokV>, ParseErrorV>(
                seq![(TokKind::Word(seq![PartV::Quoted(t)]), 0int, bpos(cs, cs.len() as int))],
            )
        }),
{
    let cs = seq!['\''] + t + seq!['\''];
    let n = cs.len() as int;
    assert forall|k: int| 1 <= k < n - 1 implies #[trigger] cs[k] != '\'' by {
        assert(cs[k] == t[k - 1]);
    }
    lemma_find_quote_at_end(cs, 1);
    assert(cs.subrange(1, n - 1) =~= t);
    let part = seq![PartV::Quoted(t)];
    assert(flush(Seq::<PartV>::empty(), Seq::empty()).push(PartV::Quoted(t)) =~= part);
    assert(rw_loop(cs, n, part, Seq::empty(), opts) == Ok::<(Seq<PartV>, int), ParseErrorV>((part, n)));
    assert(rw_loop(cs, 0, Seq::empty(), Seq::empty(), opts) == Ok::<(Seq<PartV>, int), ParseErrorV>((part, n)));
    let tok = (TokKind::Word(part), bpos(cs, 0), bpos(cs, n));
    assert(Seq::<TokV>::empty().push(tok) =~= seq![tok]);
    assert(lex_loop(cs, n, false, seq![tok], opts) == Ok::<Seq<TokV>, ParseErrorV>(seq![tok]));
}

// ---------------------------------------------------------------------------
// Executable scanners
// ---------------------------------------------------------------------------

/// Whether the UTF-8 length of `cs` fits in `usize`.
pub open spec fn fits(cs: Seq<char>) -> bool {
    bpos(cs, cs.len() as int) <= usize::MAX
}

pub proof fn lemma_bpos_mono(cs: Seq<char>, i: int, j: int)
    requires
        0 <= i <= j <= cs.len(),
    ensures
        bpos(cs, i) <= bpos(cs, j),
        bpos(cs, j) - bpos(cs, i) >= j - i,
    decreases j - i,
{
    if i < j {
        lemma_bpos_mono(cs, i, j - 1);
    }
}

pub proof fn lemma_bpos_sub(cs: Seq<char>, a: int, b: int, k: int)
    requires
        0 <= a <= b <= cs.len(),
        0 <= k <= b - a,
    ensures
        bpos(cs.subrange(a, b), k) == bpos(cs, a + k) - bpos(cs, a),
    decreases k,
{
    if k > 0 {
        lemma_bpos_sub(cs, a, b, k - 1);
    }
}

pub proof fn lemma_fits_sub(cs: Seq<char>, a: int, b: int)
    requires
        0 <= a <= b <= cs.len(),
        fits(cs),
    ensures
        fits(cs.subrange(a, b)),
{
    lemma_bpos_sub(cs, a, b, b - a);
    lemma_bpos_mono(cs, a, b);
    lemma_bpos_mono(cs, b, cs.len() as int);
    lemma_bpos_mono(cs, 0, a);
}

fn char_width(c: char) -> (r: usize)
    ensures
        r == width(c),
{
    let u = c as u32;
    if u < 0x80 {
        1
    } else if u < 0x800 {
        2
    } else if u < 0x10000 {
        3
    } else {
        4
    }
}

/// The byte offset of character `i`.
fn byte_offset(cs: &[char], i: usize) -> (r: usize)
    requires
        i <= cs@.len(),
        fits(cs@),
    ensures
        r == bpos(cs@, i as int),
{
    let mut k: usize = 0;
    let mut b: usize = 0;
    while k < i
        invariant
            k <= i <= cs@.len(),
            fits(cs@),
            b == bpos(cs@, k as int),
        decreases i - k,
    {
        proof {
            lemma_bpos_mono(cs@, k + 1, cs@.len() as int);
        }
        b = b + char_width(cs[k]);
        k = k + 1;
    }
    b
}

fn is_ws_exec(c: char) -> (r: bool)
    ensures
        r == is_ws(c),
{
    c == ' ' || c == '\t' || c == '\n' || c == '\x0C' || c == '\r'
}

fn ident_start_exec(c: char) -> (r: bool)
    ensures
        r == ident_start(c),
{
    ('a' <= c && c <= 'z') || ('A' <= c && c <= 'Z') || c == '_'
}

fn ident_cont_exec(c: char) -> (r: bool)
    ensures
        r == ident_cont(c),
{
    ('a' <= c && c <= 'z') || ('A' <= c && c <= 'Z') || ('0' <= c && c <= '9') || c == '_'
}

fn is_digit_exec(c: char) -> (r: bool)
    ensures
        r == is_digit(c),
{
    '0' <= c && c <= '9'
}

fn is_punct_exec(c: char) -> (r: bool)
    ensures
        r == is_punct(c),
{
    ('!' <= c && c <= '/') || (':' <= c && c <= '@') || ('[' <= c && c <= '`') || ('{' <= c
        && c <= '~')
}

/// Whether character `i` is `c`.
fn char_at(cs: &[char], i: usize, c: char) -> (r: bool)
    ensures
        r == (i < cs@.len() && cs@[i as int] == c),
{
    i < cs.len() && cs[i] == c
}

fn find_from_exec(cs: &[char], c: char, i: usize) -> (r: Option<usize>)
    ensures
        match find_from(cs@, c, i as int) {
            Some(k) => r == Some(k as usize),
            None => r is None,
        },
{
    let n = cs.len();
    let mut k = i;
    proof {
        lemma_find_from(cs@, c, i as int);
    }
    while k < n
        invariant
            n == cs@.len(),
            i <= k,
            find_from(cs@, c, i as int) == find_from(cs@, c, k as int),
        decreases n - k,
    {
        if cs[k] == c {
            return Some(k);
        }
        k = k + 1;
    }
    None
}

fn ident_run_exec(cs: &[char], i: usize) -> (r: usize)
    requires
        i <= cs@.len(),
    ensures
        r == ident_run(cs@, i as int),
        i <= r <= cs@.len(),
{
    let mut k = i;
    while k < cs.len() && ident_cont_exec(cs[k])
        invariant
            i <= k <= cs@.len(),
            ident_run(cs@, k as int) == ident_run(cs@, i as int),
        decreases cs@.len() - k,
    {
        k = k + 1;
    }
    k
}

fn digit_run_exec(cs: &[char], i: usize) -> (r: usize)
    requires
        i <= cs@.len(),
    ensures
        r == digit_run(cs@, i as int),
        i <= r <= cs@.len(),
{
    let mut k = i;
    while k < cs.len() && is_digit_exec(cs[k])
        invariant
            i <= k <= cs@.len(),
            digit_run(cs@, k as int) == digit_run(cs@, i as int),
        decreases cs@.len() - k,
    {
        k = k + 1;
    }
    k
}

/// `find_parameter_end`: the `}` closing the `${` at `start`.
fn param_end_exec(cs: &[char], start: usize) -> (r: Option<usize>)
    requires
        start + 2 <= cs@.len(),
    ensures
        match param_end(cs@, start as int) {
            Some(k) => r == Some(k as usize) && start + 2 <= k < cs@.len(),
            None => r is None,
        },
{
    let n = cs.len();
    let mut i = start + 2;
    let mut depth: usize = 1;
    let mut quote: Option<char> = None;
    proof {
        lemma_param_end_from(cs@, start + 2, 1, None);
    }
    while i < n
        invariant
            n == cs@.len(),
            start + 2 <= i,
            1 <= depth <= i,
            param_end(cs@, start as int) == param_end_from(cs@, i as int, depth as int, quote),
        decreases n - i, depth,
    {
        let c = cs[i];
        let skip = if n - i > 2 {
            i + 2
        } else {
            n
        };
        match quote {
            Some(q) => {
                if c == '\\' && q == '"' {
                    i = skip;
                } else if c == q {
                    quote = None;
                    i = i + 1;
                } else {
                    i = i + 1;
                }
            },
            None => {
                if c == '\'' || c == '"' {
                    quote = Some(c);
                    i = i + 1;
                } else if c == '\\' {
                    i = skip;
                } else if c == '$' && i + 1 < n && cs[i + 1] == '{' {
                    depth = depth + 1;
                    i = i + 2;
                } else if c == '}' {
                    if depth == 1 {
                        return Some(i);
                    }
                    depth = depth - 1;
                    i = i + 1;
                } else {
                    i = i + 1;
                }
            },
        }
    }
    None
}

fn quoted_run_end_exec(cs: &[char], j: usize, q: char) -> (r: usize)
    requires
        j <= cs@.len(),
    ensures
        r == quoted_run_end(cs@, j as int, q),
        j <= r <= cs@.len(),
{
    let n = cs.len();
    let mut k = j;
    proof {
        lemma_quoted_run_end(cs@, j as int, q);
    }
    while k < n && cs[k] != q
        invariant
            n == cs@.len(),
            j <= k <= n,
            quoted_run_end(cs@, k as int, q) == quoted_run_end(cs@, j as int, q),
        decreases n - k,
    {
        if q == '"' && cs[k] == '\\' {
            k = if n - k > 2 {
                k + 2
            } else {
                n
            };
        } else {
            k = k + 1;
        }
    }
    k
}

/// The next top-level index at or after `i`.
fn top_next_exec(cs: &[char], from: usize) -> (r: Option<usize>)
    ensures
        match top_next(cs@, from as int) {
            Some(k) => r == Some(k as usize) && from <= k < cs@.len(),
            None => r is None,
        },
{
    let n = cs.len();
    let mut i = from;
    let ghost i0 = i as int;
    proof {
        lemma_top_next(cs@, i0);
    }
    while i < n
        invariant
            n == cs@.len(),
            i0 == from,
            i0 <= i,
            top_next(cs@, i as int) == top_next(cs@, i0),
        decreases n - i,
    {
        let c = cs[i];
        if c == '\\' {
            i = if n - i > 2 {
                i + 2
            } else {
                n
            };
        } else if c == '\'' || c == '"' {
            let j = quoted_run_end_exec(cs, i + 1, c);
            i = if j < n - 1 {
                j + 1
            } else {
                n
            };
        } else if c == '$' && i + 1 < n && cs[i + 1] == '{' {
            match param_end_exec(cs, i) {
                Some(end) => {
                    i = end + 1;
                },
                None => {
                    return None;
                },
            }
        } else {
            return Some(i);
        }
    }
    None
}

fn custom_op_from_exec(cs: &[char], from: usize) -> (r: Option<usize>)
    ensures
        match custom_op_from(cs@, from as int) {
            Some(k) => r == Some(k as usize),
            None => r is None,
        },
{
    let n = cs.len();
    let mut i = from;
    let ghost i0 = i as int;
    loop
        invariant
            n == cs@.len(),
            i0 == from,
            custom_op_from(cs@, i as int) == custom_op_from(cs@, i0),
        decreases n - i,
    {
        match top_next_exec(cs, i) {
            None => {
                return None;
            },
            Some(k) => {
                let c = cs[k];
                if k > 0 && (c == '#' || c == '%' || c == ':' || c == '^' || c == ',' || c == '-'
                    || c == '+') {
                    return Some(k);
                }
                i = k + 1;
            },
        }
    }
}

fn slash_from_exec(cs: &[char], from: usize) -> (r: Option<usize>)
    ensures
        match slash_from(cs@, from as int) {
            Some(k) => r == Some(k as usize) && from <= k < cs@.len(),
            None => r is None,
        },
{
    let n = cs.len();
    let mut i = from;
    let ghost i0 = i as int;
    proof {
        lemma_slash_from(cs@, i0);
    }
    loop
        invariant
            n == cs@.len(),
            i0 == from,
            i0 <= i,
            slash_from(cs@, i as int) == slash_from(cs@, i0),
        decreases n - i,
    {
        match top_next_exec(cs, i) {
            None => {
                return None;
            },
            Some(k) => {
                if cs[k] == '/' {
                    return Some(k);
                }
                i = k + 1;
            },
        }
    }
}

/// `find_substring_separator`.
fn separator_exec(cs: &[char]) -> (r: Option<usize>)
    ensures
        match separator_from(cs@, 0, 0, 0) {
            Some(k) => r == Some(k as usize) && 0 <= k < cs@.len(),
            None => r is None,
        },
{
    let n = cs.len();
    let mut i: usize = 0;
    let mut parens: usize = 0;
    let mut ternaries: usize = 0;
    proof {
        reveal(separator_from);
        lemma_separator_from(cs@, 0, 0, 0);
    }
    loop
        invariant
            n == cs@.len(),
            parens <= i,
            ternaries <= i,
            separator_from(cs@, i as int, parens as int, ternaries as int) == separator_from(
                cs@,
                0,
                0,
                0,
            ),
        decreases n - i,
    {
        proof {
            reveal(separator_from);
        }
        match top_next_exec(cs, i) {
            None => {
                return None;
            },
            Some(k) => {
                let c = cs[k];
                if c == '(' {
                    parens = parens + 1;
                } else if c == ')' {
                    if parens > 0 {
                        parens = parens - 1;
                    }
                } else if c == '?' && parens == 0 {
                    ternaries = ternaries + 1;
                } else if c == ':' && parens == 0 && ternaries > 0 {
                    ternaries = ternaries - 1;
                } else if c == ':' && parens == 0 {
                    return Some(k);
                }
                i = k + 1;
            },
        }
    }
}

fn name_end_exec(cs: &[char]) -> (r: Option<usize>)
    ensures
        match name_end(cs@) {
            Some(k) => r == Some(k as usize) && 1 <= k <= cs@.len(),
            None => r is None,
        },
{
    proof {
        if cs@.len() > 0 {
            lemma_runs(cs@, 1);
        }
    }
    if cs.len() == 0 {
        return None;
    }
    let first = cs[0];
    if ident_start_exec(first) {
        Some(ident_run_exec(cs, 1))
    } else if is_digit_exec(first) {
        Some(digit_run_exec(cs, 1))
    } else if first == '@' || first == '*' || first == '#' || first == '?' || first == '-'
        || first == '$' || first == '!' {
        Some(1)
    } else {
        None
    }
}

fn is_bash_name_exec(cs: &[char]) -> (r: bool)
    ensures
        r == is_bash_name(cs@),
{
    proof {
        if cs@.len() > 0 {
            lemma_runs(cs@, 1);
        }
    }
    match name_end_exec(cs) {
        Some(k) => k == cs.len(),
        None => false,
    }
}

fn is_punct_name_exec(cs: &[char]) -> (r: bool)
    ensures
        r == is_punct_name(cs@),
{
    let mut i: usize = 0;
    while i < cs.len()
        invariant
            i <= cs@.len(),
            forall|j: int| 0 <= j < i ==> is_punct(#[trigger] cs@[j]),
        decreases cs@.len() - i,
    {
        if !is_punct_exec(cs[i]) {
            return false;
        }
        i = i + 1;
    }
    true
}

/// The characters `cs[a..b]` as a new vector.
fn sub_chars(cs: &[char], a: usize, b: usize) -> (r: Vec<char>)
    requires
        a <= b <= cs@.len(),
    ensures
        r@ == cs@.subrange(a as int, b as int),
{
    let mut out: Vec<char> = Vec::new();
    let mut k = a;
    while k < b
        invariant
            a <= k <= b <= cs@.len(),
            out@ == cs@.subrange(a as int, k as int),
        decreases b - k,
    {
        out.push(cs[k]);
        k = k + 1;
        assert(out@ =~= cs@.subrange(a as int, k as int));
    }
    out
}

// ---------------------------------------------------------------------------
// Executable word readers
// ---------------------------------------------------------------------------

/// Appends the pending literal text `lit`, if any, to `word`.
fn flush_literal(word: &mut Word, lit: &mut String)
    ensures
        word_v(*final(word)) == flush(word_v(*old(word)), old(lit)@),
        final(lit)@ == Seq::<char>::empty(),
{
    if !lit.as_str().is_empty() {
        let text = owned(lit.as_str());
        *lit = String::new();
        proof {
            crate::syntax::lemma_word_v_push(word.parts@, WordPart::Literal(text));
        }
        word.push(WordPart::Literal(text));
    } else {
        *lit = String::new();
    }
}

/// Appends the pending quoted text `buf`, if any, to `word`.
fn flush_quoted_exec(word: &mut Word, buf: &mut String)
    ensures
        word_v(*final(word)) == flush_quoted(word_v(*old(word)), old(buf)@),
        final(buf)@ == Seq::<char>::empty(),
{
    if !buf.as_str().is_empty() {
        let text = owned(buf.as_str());
        *buf = String::new();
        proof {
            crate::syntax::lemma_word_v_push(word.parts@, WordPart::Quoted(text));
        }
        word.push(WordPart::Quoted(text));
    } else {
        *buf = String::new();
    }
}

/// Appends a part to `word`.
fn push_part(word: &mut Word, part: WordPart)
    ensures
        word_v(*final(word)) == word_v(*old(word)).push(part_v(part)),
{
    proof {
        crate::syntax::lemma_word_v_push(word.parts@, part);
    }
    word.push(part);
}

/// The outcome of a reader, viewed.
pub open spec fn read_matches<T, U>(r: Result<T, ParseError>, s: Result<U, ParseErrorV>, f: spec_fn(T) -> U) -> bool {
    match s {
        Ok(v) => r matches Ok(x) && f(x) == v,
        Err(e) => r matches Err(y) && perr_v(y) == e,
    }
}

/// `'...'` opened at `start`.
fn single_quoted_exec(cs: &[char], start: usize) -> (r: Result<(String, usize), ParseError>)
    requires
        start < cs@.len(),
        fits(cs@),
    ensures
        match single_quoted(cs@, start as int) {
            Ok((t, e)) => r matches Ok((text, end)) && text@ == t && end == e && start < e <= cs@.len(),
            Err(x) => r matches Err(y) && perr_v(y) == x,
        },
{
    let n = cs.len();
    proof {
        lemma_find_from(cs@, '\'', start + 1);
    }
    match find_from_exec(cs, '\'', start + 1) {
        Some(k) => Ok((string_of_range(cs, start + 1, k), k + 1)),
        None => Err(ParseError::UnterminatedString { pos: byte_offset(cs, start) }),
    }
}

/// `$name` or `${...}` at `start`.
fn dollar_exec(cs: &[char], start: usize, quoted: bool, opts: ParseOptions) -> (r: Result<
    Option<(WordPart, usize)>,
    ParseError,
>)
    requires
        start < cs@.len(),
        fits(cs@),
    ensures
        match dollar(cs@, start as int, quoted, opts) {
            Ok(None) => r matches Ok(None),
            Ok(Some((p, e))) => r matches Ok(Some((q, end))) && part_v(q) == p && end == e && start
                < e <= cs@.len(),
            Err(x) => r matches Err(y) && perr_v(y) == x,
        },
    decreases cs@.len(), 1int, 0int,
{
    let n = cs.len();
    if start + 1 >= n {
        return Ok(None);
    }
    let next = cs[start + 1];
    if next == '{' {
        match param_end_exec(cs, start) {
            None => Err(ParseError::UnterminatedParameterExpansion { pos: byte_offset(cs, start) }),
            Some(end) => {
                let inner = sub_chars(cs, start + 2, end);
                let sp = byte_offset(cs, start);
                proof {
                    lemma_fits_sub(cs@, start + 2, end as int);
                    lemma_bpos_sub(cs@, start + 2, end as int, end - start - 2);
                    lemma_bpos_mono(cs@, end as int, cs@.len() as int);
                    assert(bpos(cs@, start + 1) == sp + width(cs@[start as int]));
                    assert(bpos(cs@, start + 2) == bpos(cs@, start + 1) + width(cs@[start + 1]));
                    assert(bpos(cs@, start + 2) >= sp + 2);
                    lemma_bpos_mono(cs@, start + 2, end as int);
                }
                match param_exp_exec(inner.as_slice(), sp, opts) {
                    Err(e) => Err(e),
                    Ok(Some(x)) => Ok(Some((WordPart::Expansion { expansion: x, quoted }, end + 1))),
                    Ok(None) => {
                        let raw = crate::text::string_of(inner.as_slice());
                        if quoted {
                            Ok(Some((WordPart::QuotedVar(raw), end + 1)))
                        } else {
                            Ok(Some((WordPart::Var(raw), end + 1)))
                        }
                    },
                }
            },
        }
    } else if ident_start_exec(next) {
        let j = ident_run_exec(cs, start + 1);
        let name = string_of_range(cs, start + 1, j);
        if quoted {
            Ok(Some((WordPart::QuotedVar(name), j)))
        } else {
            Ok(Some((WordPart::Var(name), j)))
        }
    } else {
        Ok(None)
    }
}

/// Double-quoted text opened at `start`; its parts are appended to `word`.
fn dq_exec(cs: &[char], start: usize, word: &mut Word, opts: ParseOptions) -> (r: Result<usize, ParseError>)
    requires
        start < cs@.len(),
        fits(cs@),
    ensures
        match dq_loop(cs@, start + 1, Seq::empty(), Seq::empty(), start as int, opts) {
            Ok((ps, e)) => r == Ok::<usize, ParseError>(e as usize) && word_v(*final(word)) == word_v(
                *old(word),
            ) + ps && start < e <= cs@.len(),
            Err(x) => r matches Err(y) && perr_v(y) == x,
        },
    decreases cs@.len(), 2int, cs@.len() - start,
{
    let n = cs.len();
    let ghost w0 = word_v(*word);
    let ghost target = dq_loop(cs@, start + 1, Seq::empty(), Seq::empty(), start as int, opts);
    let ghost mut acc: Seq<PartV> = Seq::empty();
    let mut buf = String::new();
    let mut i = start + 1;
    assert(word_v(*word) =~= w0 + acc);
    loop
        invariant
            n == cs@.len(),
            fits(cs@),
            start < i <= n,
            target == dq_loop(cs@, start + 1, Seq::empty(), Seq::empty(), start as int, opts),
            target == dq_loop(cs@, i as int, buf@, acc, start as int, opts),
            word_v(*word) == w0 + acc,
            w0 == word_v(*old(word)),
        decreases n - i,
    {
        if i >= n {
            return Err(ParseError::UnterminatedString { pos: byte_offset(cs, start) });
        }
        let c = cs[i];
        if c == '"' {
            let ghost before = acc;
            proof {
                acc = flush_quoted(acc, buf@);
            }
            flush_quoted_exec(word, &mut buf);
            assert(word_v(*word) =~= w0 + acc);
            return Ok(i + 1);
        }
        if c == '\\' && i + 1 < n {
            let nc = cs[i + 1];
            if nc == '$' || nc == '`' || nc == '"' || nc == '\\' || nc == '\n' {
                if nc != '\n' {
                    push_char(&mut buf, nc);
                }
            } else {
                push_char(&mut buf, '\\');
                push_char(&mut buf, nc);
            }
            i = i + 2;
            continue;
        }
        if c == '$' {
            match dollar_exec(cs, i, true, opts) {
                Err(e) => {
                    return Err(e);
                },
                Ok(Some((part, end))) => {
                    let ghost pv = part_v(part);
                    proof {
                        acc = flush_quoted(acc, buf@).push(pv);
                    }
                    flush_quoted_exec(word, &mut buf);
                    push_part(word, part);
                    assert(word_v(*word) =~= w0 + acc);
                    i = end;
                    continue;
                },
                Ok(None) => {
                    push_char(&mut buf, '$');
                    i = i + 1;
                    continue;
                },
            }
        }
        push_char(&mut buf, c);
        i = i + 1;
    }
}

fn name_op_char_exec(c: char) -> (r: bool)
    ensures
        r == name_op_char(c),
{
    c == '#' || c == '%' || c == '/' || c == ':' || c == '^' || c == ',' || c == '-' || c == '+'
        || c == '=' || c == '?'
}

fn invalid_name_exec(inner: &[char], source_pos: usize) -> (r: ParseError)
    ensures
        perr_v(r) == invalid_name(inner@, source_pos as int),
{
    ParseError::InvalidParameterExpansion {
        raw: crate::text::string_of(inner),
        pos: source_pos,
        reason: owned("invalid parameter name"),
    }
}

/// A word inside `${...}`.
fn param_word_exec(cs: &[char], opts: ParseOptions) -> (r: Result<Word, ParseError>)
    requires
        fits(cs@),
    ensures
        match param_word(cs@, opts) {
            Ok(ps) => r matches Ok(w) && word_v(w) == ps,
            Err(x) => r matches Err(y) && perr_v(y) == x,
        },
    decreases cs@.len(), 3int, cs@.len() + 1,
{
    let n = cs.len();
    let mut word = Word { parts: Vec::new() };
    let mut lit = String::new();
    let mut i: usize = 0;
    let ghost target = param_word(cs@, opts);
    assert(word_v(word) =~= Seq::<PartV>::empty());
    loop
        invariant
            n == cs@.len(),
            fits(cs@),
            i <= n,
            target == param_word(cs@, opts),
            target == pw_loop(cs@, i as int, word_v(word), lit@, opts),
        decreases n - i,
    {
        if i >= n {
            flush_literal(&mut word, &mut lit);
            return Ok(word);
        }
        let c = cs[i];
        if c == '\'' {
            match single_quoted_exec(cs, i) {
                Err(e) => {
                    return Err(e);
                },
                Ok((text, end)) => {
                    flush_literal(&mut word, &mut lit);
                    push_part(&mut word, WordPart::Quoted(text));
                    i = end;
                },
            }
        } else if c == '"' {
            flush_literal(&mut word, &mut lit);
            match dq_exec(cs, i, &mut word, opts) {
                Err(e) => {
                    return Err(e);
                },
                Ok(end) => {
                    i = end;
                },
            }
        } else if c == '$' {
            match dollar_exec(cs, i, false, opts) {
                Err(e) => {
                    return Err(e);
                },
                Ok(Some((part, end))) => {
                    flush_literal(&mut word, &mut lit);
                    push_part(&mut word, part);
                    i = end;
                },
                Ok(None) => {
                    push_char(&mut lit, '$');
                    i = i + 1;
                },
            }
        } else if c == '\\' && i + 1 < n {
            flush_literal(&mut word, &mut lit);
            let mut one = String::new();
            push_char(&mut one, cs[i + 1]);
            assert(one@ =~= seq![cs@[i + 1]]);
            push_part(&mut word, WordPart::Quoted(one));
            i = i + 2;
        } else {
            push_char(&mut lit, c);
            i = i + 1;
        }
    }
}

/// The unsupported-operator error for `text` at `pos`.
fn unsupported(text: String, pos: usize) -> (r: ParseError)
    ensures
        perr_v(r) == ParseErrorV::UnsupportedParameterExpansion(text@, pos as int),
{
    ParseError::UnsupportedParameterExpansion { operator: text, pos }
}

/// The text inside `${...}` at byte position `source_pos`: `None` for a
/// plain variable reference.
fn param_exp_exec(inner: &[char], source_pos: usize, opts: ParseOptions) -> (r: Result<
    Option<ParameterExpansion>,
    ParseError,
>)
    requires
        source_pos + 2 + bpos(inner@, inner@.len() as int) <= usize::MAX,
    ensures
        match param_exp(inner@, source_pos as int, opts) {
            Ok(None) => r matches Ok(None),
            Ok(Some(x)) => r matches Ok(Some(y)) && crate::syntax::exp_v(y) == x,
            Err(x) => r matches Err(y) && perr_v(y) == x,
        },
    decreases inner@.len(), 4int, 3int,
{
    let n = inner.len();
    proof {
        lemma_bpos_mono(inner@, 0, n as int);
    }
    if n > 0 && inner[0] == '#' {
        let rest = sub_chars(inner, 1, n);
        assert(rest@ =~= inner@.skip(1));
        if is_bash_name_exec(rest.as_slice()) {
            return Ok(
                Some(
                    ParameterExpansion { name: crate::text::string_of(rest.as_slice()), op: ParameterOp::Length },
                ),
            );
        }
    }
    let split = match split_exec(inner, source_pos, opts) {
        Ok(Some(k)) => k,
        Ok(None) => {
            return Ok(None);
        },
        Err(e) => {
            return Err(e);
        },
    };
    proof {
        lemma_param_split(inner@, opts);
    }
    let name = string_of_range(inner, 0, split);
    assert(inner@.subrange(0, split as int) =~= inner@.take(split as int));
    let op = inner[split];
    let tail = sub_chars(inner, split + 1, n);
    assert(tail@ =~= inner@.skip(split + 1));
    proof {
        lemma_fits_sub(inner@, split + 1, n as int);
        lemma_bpos_mono(inner@, split as int, n as int);
    }
    let upos = source_pos + byte_offset(inner, split) + 2;
    match op_exec(op, tail.as_slice(), inner, source_pos, upos, opts) {
        Ok(o) => Ok(Some(ParameterExpansion { name, op: o })),
        Err(e) => Err(e),
    }
}

/// Where the name inside `${...}` ends: `None` for a plain reference.
fn split_exec(inner: &[char], source_pos: usize, opts: ParseOptions) -> (r: Result<Option<usize>, ParseError>)
    ensures
        match param_split(inner@, opts) {
            SplitV::Plain => r matches Ok(None),
            SplitV::At(k) => r == Ok::<Option<usize>, ParseError>(Some(k as usize)) && 0 <= k < inner@.len(),
            SplitV::Bad => r matches Err(y) && perr_v(y) == invalid_name(inner@, source_pos as int),
        },
{
    let n = inner.len();
    proof {
        lemma_param_split(inner@, opts);
    }
    match name_end_exec(inner) {
        Some(end) => {
            if end == n {
                return Ok(None);
            }
            if name_op_char_exec(inner[end]) {
                Ok(Some(end))
            } else {
                Err(invalid_name_exec(inner, source_pos))
            }
        },
        None => {
            let punct = opts.allows_punctuation_variables();
            if punct && is_punct_name_exec(inner) {
                match custom_op_from_exec(inner, 0) {
                    Some(k) => Ok(Some(k)),
                    None => Ok(None),
                }
            } else if punct {
                match custom_op_from_exec(inner, 0) {
                    Some(k) => {
                        proof {
                            lemma_custom_op_from(inner@, 0);
                        }
                        let pre = sub_chars(inner, 0, k);
                        assert(pre@ =~= inner@.take(k as int));
                        if is_punct_name_exec(pre.as_slice()) {
                            Ok(Some(k))
                        } else {
                            Err(invalid_name_exec(inner, source_pos))
                        }
                    },
                    None => Err(invalid_name_exec(inner, source_pos)),
                }
            } else {
                Err(invalid_name_exec(inner, source_pos))
            }
        },
    }
}

/// The result of reading a parameter operation, viewed.
pub open spec fn op_read(r: Result<ParameterOp, ParseError>, s: Result<OpV, ParseErrorV>) -> bool {
    match s {
        Ok(o) => r matches Ok(x) && crate::syntax::op_v(x) == o,
        Err(e) => r matches Err(y) && perr_v(y) == e,
    }
}

/// The operation `<op><tail>` of a parameter expansion.
fn op_exec(
    op: char,
    tail: &[char],
    inner: &[char],
    source_pos: usize,
    upos: usize,
    opts: ParseOptions,
) -> (r: Result<ParameterOp, ParseError>)
    requires
        fits(tail@),
    ensures
        op_read(r, op_outcome(op, tail@, inner@, source_pos as int, upos as int, opts)),
    decreases tail@.len(), 4int, 2int,
{
    let t = tail.len();
    if op == '#' || op == '%' {
        remove_op_exec(op, tail, opts)
    } else if op == '/' {
        replace_op_exec(tail, opts)
    } else if op == ':' {
        colon_op_exec(tail, inner, source_pos, upos, opts)
    } else if op == '^' || op == ',' {
        case_op_exec(op, tail, opts)
    } else if op == '-' || op == '+' {
        let w = match param_word_exec(tail, opts) {
            Ok(w) => w,
            Err(e) => {
                return Err(e);
            },
        };
        if op == '-' {
            Ok(ParameterOp::DefaultValue { test_null: false, word: w })
        } else {
            Ok(ParameterOp::AlternateValue { test_null: false, word: w })
        }
    } else {
        let mut text = String::new();
        push_char(&mut text, op);
        assert(text@ =~= seq![op]);
        Err(unsupported(text, upos))
    }
}

/// A copy of `tail`, without its first character when `drop_first`.
fn rest_of(tail: &[char], drop_first: bool) -> (r: Vec<char>)
    requires
        drop_first ==> tail@.len() > 0,
        fits(tail@),
    ensures
        r@ == (if drop_first {
            tail@.skip(1)
        } else {
            tail@
        }),
        fits(r@),
{
    let t = tail.len();
    let r = if drop_first {
        sub_chars(tail, 1, t)
    } else {
        sub_chars(tail, 0, t)
    };
    proof {
        lemma_fits_sub(tail@, if drop_first { 1 } else { 0 }, t as int);
    }
    assert(drop_first ==> r@ =~= tail@.skip(1));
    assert(!drop_first ==> r@ =~= tail@);
    r
}

fn remove_op_exec(op: char, tail: &[char], opts: ParseOptions) -> (r: Result<ParameterOp, ParseError>)
    requires
        op == '#' || op == '%',
        fits(tail@),
    ensures
        op_read(r, remove_syntax(op, tail@, opts)),
    decreases tail@.len(), 4int, 0int,
{
    let t = tail.len();
    let doubled = t > 0 && tail[0] == op;
    let pattern = rest_of(tail, doubled);
    let kind = if op == '#' {
        if doubled {
            RemoveKind::LongestPrefix
        } else {
            RemoveKind::ShortestPrefix
        }
    } else {
        if doubled {
            RemoveKind::LongestSuffix
        } else {
            RemoveKind::ShortestSuffix
        }
    };
    match param_word_exec(pattern.as_slice(), opts) {
        Ok(w) => Ok(ParameterOp::Remove { kind, pattern: w }),
        Err(e) => Err(e),
    }
}

fn replace_op_exec(tail: &[char], opts: ParseOptions) -> (r: Result<ParameterOp, ParseError>)
    requires
        fits(tail@),
    ensures
        op_read(r, replace_syntax(tail@, opts)),
    decreases tail@.len(), 4int, 0int,
{
    let t = tail.len();
    let kind = if t > 0 && tail[0] == '/' {
        ReplaceKind::All
    } else if t > 0 && tail[0] == '#' {
        ReplaceKind::Prefix
    } else if t > 0 && tail[0] == '%' {
        ReplaceKind::Suffix
    } else {
        ReplaceKind::First
    };
    let body = rest_of(tail, kind != ReplaceKind::First);
    let b = body.len();
    let (pattern, replacement) = match slash_from_exec(body.as_slice(), 0) {
        Some(k) => (sub_chars(body.as_slice(), 0, k), sub_chars(body.as_slice(), k + 1, b)),
        None => (sub_chars(body.as_slice(), 0, b), Vec::new()),
    };
    proof {
        match slash_from(body@, 0) {
            Some(k) => {
                assert(pattern@ =~= body@.take(k));
                assert(replacement@ =~= body@.skip(k + 1));
                lemma_fits_sub(body@, 0, k);
                lemma_fits_sub(body@, k + 1, b as int);
            },
            None => {
                assert(pattern@ =~= body@);
                assert(replacement@ =~= Seq::<char>::empty());
                lemma_fits_sub(body@, 0, b as int);
            },
        }
    }
    let pw = match param_word_exec(pattern.as_slice(), opts) {
        Ok(w) => w,
        Err(e) => {
            return Err(e);
        },
    };
    let rw = match param_word_exec(replacement.as_slice(), opts) {
        Ok(w) => w,
        Err(e) => {
            return Err(e);
        },
    };
    Ok(ParameterOp::Replace { kind, pattern: pw, replacement: rw })
}

fn colon_op_exec(
    tail: &[char],
    inner: &[char],
    source_pos: usize,
    upos: usize,
    opts: ParseOptions,
) -> (r: Result<ParameterOp, ParseError>)
    requires
        fits(tail@),
    ensures
        op_read(r, colon_syntax(tail@, inner@, source_pos as int, upos as int, opts)),
    decreases tail@.len(), 4int, 1int,
{
    let t = tail.len();
    if t > 0 && (tail[0] == '-' || tail[0] == '+') {
        let rest = rest_of(tail, true);
        let w = match param_word_exec(rest.as_slice(), opts) {
            Ok(w) => w,
            Err(e) => {
                return Err(e);
            },
        };
        if tail[0] == '-' {
            Ok(ParameterOp::DefaultValue { test_null: true, word: w })
        } else {
            Ok(ParameterOp::AlternateValue { test_null: true, word: w })
        }
    } else if t > 0 && (tail[0] == '=' || tail[0] == '?') {
        let mut text = String::new();
        push_char(&mut text, ':');
        push_char(&mut text, tail[0]);
        assert(text@ =~= seq![':', tail@[0]]);
        Err(unsupported(text, upos))
    } else if t == 0 {
        Err(
            ParseError::InvalidParameterExpansion {
                raw: crate::text::string_of(inner),
                pos: source_pos,
                reason: owned("substring offset is missing"),
            },
        )
    } else {
        substring_op_exec(tail, opts)
    }
}

fn substring_op_exec(tail: &[char], opts: ParseOptions) -> (r: Result<ParameterOp, ParseError>)
    requires
        fits(tail@),
    ensures
        op_read(r, substring_syntax(tail@, opts)),
    decreases tail@.len(), 4int, 0int,
{
    let t = tail.len();
    match separator_exec(tail) {
        Some(k) => substring_split_exec(tail, k, opts),
        None => substring_whole_exec(tail, opts),
    }
}

fn substring_whole_exec(tail: &[char], opts: ParseOptions) -> (r: Result<ParameterOp, ParseError>)
    requires
        fits(tail@),
        separator_from(tail@, 0, 0, 0) is None,
    ensures
        op_read(r, substring_syntax(tail@, opts)),
    decreases tail@.len(), 3int, tail@.len() + 2,
{
    let ow = match param_word_exec(tail, opts) {
        Ok(w) => w,
        Err(e) => {
            return Err(e);
        },
    };
    Ok(ParameterOp::Substring { offset: ow, length: None })
}

fn substring_split_exec(tail: &[char], k: usize, opts: ParseOptions) -> (r: Result<ParameterOp, ParseError>)
    requires
        fits(tail@),
        separator_from(tail@, 0, 0, 0) == Some(k as int),
        k < tail@.len(),
    ensures
        op_read(r, substring_syntax(tail@, opts)),
    decreases tail@.len(), 3int, tail@.len() + 2,
{
    let t = tail.len();
    let off = sub_chars(tail, 0, k);
    let len = sub_chars(tail, k + 1, t);
    assert(off@ =~= tail@.take(k as int));
    assert(len@ =~= tail@.skip(k + 1));
    proof {
        lemma_fits_sub(tail@, 0, k as int);
        lemma_fits_sub(tail@, k + 1, t as int);
    }
    let ow = match param_word_exec(off.as_slice(), opts) {
        Ok(w) => w,
        Err(e) => {
            return Err(e);
        },
    };
    let lw = match param_word_exec(len.as_slice(), opts) {
        Ok(w) => w,
        Err(e) => {
            return Err(e);
        },
    };
    Ok(ParameterOp::Substring { offset: ow, length: Some(lw) })
}

fn case_op_exec(op: char, tail: &[char], opts: ParseOptions) -> (r: Result<ParameterOp, ParseError>)
    requires
        op == '^' || op == ',',
        fits(tail@),
    ensures
        op_read(r, case_syntax(op, tail@, opts)),
    decreases tail@.len(), 4int, 0int,
{
    let t = tail.len();
    let doubled = t > 0 && tail[0] == op;
    let pattern = rest_of(tail, doubled);
    let kind = if op == '^' {
        if doubled {
            CaseModifyKind::UpperAll
        } else {
            CaseModifyKind::UpperFirst
        }
    } else {
        if doubled {
            CaseModifyKind::LowerAll
        } else {
            CaseModifyKind::LowerFirst
        }
    };
    if pattern.len() == 0 {
        Ok(ParameterOp::CaseModify { kind, pattern: None })
    } else {
        match param_word_exec(pattern.as_slice(), opts) {
            Ok(w) => Ok(ParameterOp::CaseModify { kind, pattern: Some(w) }),
            Err(e) => Err(e),
        }
    }
}

fn op_start_exec(cs: &[char], i: usize) -> (r: bool)
    requires
        i < cs@.len(),
    ensures
        r == op_start(cs@, i as int),
{
    let n = cs.len();
    let c = cs[i];
    let next = i + 1 < n;
    (c == '[' && next && cs[i + 1] == '[') || (c == ']' && next && cs[i + 1] == ']') || (c == '&'
        && next && cs[i + 1] == '&') || (c == '|' && next && cs[i + 1] == '|') || c == '<' || c
        == '>' || c == '(' || c == ')' || c == '='
}

/// An ordinary word starting at `start`.
fn read_word(cs: &[char], start: usize, opts: ParseOptions) -> (r: Result<(Word, usize), ParseError>)
    requires
        start <= cs@.len(),
        fits(cs@),
    ensures
        match rw_loop(cs@, start as int, Seq::empty(), Seq::empty(), opts) {
            Ok((ps, e)) => r matches Ok((w, end)) && word_v(w) == ps && end == e && start <= e
                <= cs@.len(),
            Err(x) => r matches Err(y) && perr_v(y) == x,
        },
{
    let n = cs.len();
    let mut word = Word { parts: Vec::new() };
    let mut lit = String::new();
    let mut i = start;
    let ghost target = rw_loop(cs@, start as int, Seq::empty(), Seq::empty(), opts);
    assert(word_v(word) =~= Seq::<PartV>::empty());
    loop
        invariant
            n == cs@.len(),
            fits(cs@),
            start <= i <= n,
            target == rw_loop(cs@, start as int, Seq::empty(), Seq::empty(), opts),
            target == rw_loop(cs@, i as int, word_v(word), lit@, opts),
        decreases n - i,
    {
        if i >= n || is_ws_exec(cs[i]) || op_start_exec(cs, i) {
            flush_literal(&mut word, &mut lit);
            return Ok((word, i));
        }
        let c = cs[i];
        if c == '\'' {
            match single_quoted_exec(cs, i) {
                Err(e) => {
                    return Err(e);
                },
                Ok((text, end)) => {
                    flush_literal(&mut word, &mut lit);
                    push_part(&mut word, WordPart::Quoted(text));
                    i = end;
                },
            }
        } else if c == '"' {
            flush_literal(&mut word, &mut lit);
            match dq_exec(cs, i, &mut word, opts) {
                Err(e) => {
                    return Err(e);
                },
                Ok(end) => {
                    i = end;
                },
            }
        } else if c == '$' {
            match dollar_exec(cs, i, false, opts) {
                Err(e) => {
                    return Err(e);
                },
                Ok(Some((part, end))) => {
                    flush_literal(&mut word, &mut lit);
                    push_part(&mut word, part);
                    i = end;
                },
                Ok(None) => {
                    push_char(&mut lit, '$');
                    i = i + 1;
                },
            }
        } else if c == '\\' {
            if i + 1 < n {
                push_char(&mut lit, cs[i + 1]);
                i = i + 2;
            } else {
                push_char(&mut lit, '\\');
                i = i + 1;
            }
        } else {
            push_char(&mut lit, c);
            i = i + 1;
        }
    }
}

/// The word after `==`, `!=` or `=~`, starting at `start`.
fn read_pattern_word(cs: &[char], start: usize, opts: ParseOptions) -> (r: Result<(Word, usize), ParseError>)
    requires
        start <= cs@.len(),
        fits(cs@),
    ensures
        match pt_loop(cs@, start as int, 0, Seq::empty(), Seq::empty(), opts) {
            Ok((ps, e)) => r matches Ok((w, end)) && word_v(w) == ps && end == e && start <= e
                <= cs@.len(),
            Err(x) => r matches Err(y) && perr_v(y) == x,
        },
{
    let n = cs.len();
    let mut word = Word { parts: Vec::new() };
    let mut lit = String::new();
    let mut i = start;
    let mut depth: usize = 0;
    let ghost target = pt_loop(cs@, start as int, 0, Seq::empty(), Seq::empty(), opts);
    assert(word_v(word) =~= Seq::<PartV>::empty());
    loop
        invariant
            n == cs@.len(),
            fits(cs@),
            start <= i <= n,
            depth <= i,
            target == pt_loop(cs@, start as int, 0, Seq::empty(), Seq::empty(), opts),
            target == pt_loop(cs@, i as int, depth as int, word_v(word), lit@, opts),
        decreases n - i,
    {
        if i >= n {
            flush_literal(&mut word, &mut lit);
            return Ok((word, i));
        }
        let c = cs[i];
        if is_ws_exec(c) && depth == 0 {
            flush_literal(&mut word, &mut lit);
            return Ok((word, i));
        }
        if c == ']' && i + 1 < n && cs[i + 1] == ']' && depth == 0 {
            flush_literal(&mut word, &mut lit);
            return Ok((word, i));
        }
        if c == '[' {
            depth = depth + 1;
        } else if c == ']' && depth > 0 {
            depth = depth - 1;
        }
        if c == '\'' {
            match single_quoted_exec(cs, i) {
                Err(e) => {
                    return Err(e);
                },
                Ok((text, end)) => {
                    flush_literal(&mut word, &mut lit);
                    push_part(&mut word, WordPart::Quoted(text));
                    i = end;
                },
            }
        } else if c == '"' {
            flush_literal(&mut word, &mut lit);
            match dq_exec(cs, i, &mut word, opts) {
                Err(e) => {
                    return Err(e);
                },
                Ok(end) => {
                    i = end;
                },
            }
        } else if c == '$' {
            match dollar_exec(cs, i, false, opts) {
                Err(e) => {
                    return Err(e);
                },
                Ok(Some((part, end))) => {
                    flush_literal(&mut word, &mut lit);
                    push_part(&mut word, part);
                    i = end;
                },
                Ok(None) => {
                    push_char(&mut lit, '$');
                    i = i + 1;
                },
            }
        } else if c == '\\' {
            if i + 1 < n {
                push_char(&mut lit, '\\');
                push_char(&mut lit, cs[i + 1]);
                i = i + 2;
            } else {
                push_char(&mut lit, '\\');
                i = i + 1;
            }
        } else {
            push_char(&mut lit, c);
            i = i + 1;
        }
    }
}

// ---------------------------------------------------------------------------
// Tokens
// ---------------------------------------------------------------------------

#[derive(Debug, Clone, PartialEq, Eq)]
pub enum Token {
    OpenBracket,
    CloseBracket,
    AndAnd,
    OrOr,
    Bang,
    OpenParen,
    CloseParen,
    Eq,
    NotEq,
    RegexEq,
    Lt,
    Gt,
    Word(Word),
}

#[derive(Debug, Clone, PartialEq, Eq)]
pub struct Spanned<T> {
    pub value: T,
    pub start: usize,
    pub end: usize,
}

pub open spec fn tok_v(t: Token) -> TokKind {
    match t {
        Token::OpenBracket => TokKind::OpenBracket,
        Token::CloseBracket => TokKind::CloseBracket,
        Token::AndAnd => TokKind::AndAnd,
        Token::OrOr => TokKind::OrOr,
        Token::Bang => TokKind::Bang,
        Token::OpenParen => TokKind::OpenParen,
        Token::CloseParen => TokKind::CloseParen,
        Token::Eq => TokKind::Eq,
        Token::NotEq => TokKind::NotEq,
        Token::RegexEq => TokKind::RegexEq,
        Token::Lt => TokKind::Lt,
        Token::Gt => TokKind::Gt,
        Token::Word(w) => TokKind::Word(word_v(w)),
    }
}

pub open spec fn spanned_v(s: Spanned<Token>) -> TokV {
    (tok_v(s.value), s.start as int, s.end as int)
}

pub open spec fn toks_v(ts: Seq<Spanned<Token>>) -> Seq<TokV>
    decreases ts.len(),
{
    if ts.len() == 0 {
        Seq::empty()
    } else {
        toks_v(ts.drop_last()).push(spanned_v(ts.last()))
    }
}

proof fn lemma_toks_v_push(ts: Seq<Spanned<Token>>, t: Spanned<Token>)
    ensures
        toks_v(ts.push(t)) == toks_v(ts).push(spanned_v(t)),
{
    assert(ts.push(t).drop_last() =~= ts);
}

fn push_token(out: &mut Vec<Spanned<Token>>, value: Token, start: usize, end: usize)
    ensures
        toks_v(final(out)@) == toks_v(old(out)@).push((tok_v(value), start as int, end as int)),
{
    let t = Spanned { value, start, end };
    proof {
        lemma_toks_v_push(out@, t);
    }
    out.push(t);
}

/// The tokens of `cs`.
fn lex_chars(cs: &[char], options: ParseOptions) -> (r: Result<Vec<Spanned<Token>>, ParseError>)
    requires
        fits(cs@),
    ensures
        match lex_spec(cs@, options) {
            Ok(ts) => r matches Ok(v) && toks_v(v@) == ts,
            Err(x) => r matches Err(y) && perr_v(y) == x,
        },
{
    let n = cs.len();
    let mut out: Vec<Spanned<Token>> = Vec::new();
    let mut i: usize = 0;
    let mut pattern = false;
    let ghost target = lex_spec(cs@, options);
    assert(toks_v(out@) =~= Seq::<TokV>::empty());
    loop
        invariant
            n == cs@.len(),
            fits(cs@),
            i <= n,
            target == lex_spec(cs@, options),
            target == lex_loop(cs@, i as int, pattern, toks_v(out@), options),
        decreases n - i, if pattern {
            1int
        } else {
            0int
        },
    {
        if i >= n {
            return Ok(out);
        }
        let c = cs[i];
        if is_ws_exec(c) {
            i = i + 1;
            continue;
        }
        if pattern {
            match read_pattern_word(cs, i, options) {
                Err(e) => {
                    return Err(e);
                },
                Ok((w, end)) => {
                    let s = byte_offset(cs, i);
                    let e = byte_offset(cs, end);
                    push_token(&mut out, Token::Word(w), s, e);
                    i = end;
                    pattern = false;
                    continue;
                },
            }
        }
        if i + 1 < n {
            let b = cs[i + 1];
            let two = if c == '[' && b == '[' {
                Some((Token::OpenBracket, false))
            } else if c == ']' && b == ']' {
                Some((Token::CloseBracket, false))
            } else if c == '&' && b == '&' {
                Some((Token::AndAnd, false))
            } else if c == '|' && b == '|' {
                Some((Token::OrOr, false))
            } else if c == '=' && b == '=' {
                Some((Token::Eq, true))
            } else if c == '!' && b == '=' {
                Some((Token::NotEq, true))
            } else if c == '=' && b == '~' {
                Some((Token::RegexEq, true))
            } else {
                None
            };
            if let Some((tok, p)) = two {
                let s = byte_offset(cs, i);
                let e = byte_offset(cs, i + 2);
                push_token(&mut out, tok, s, e);
                i = i + 2;
                pattern = p;
                continue;
            }
        }
        let one = if c == '!' {
            Some((Token::Bang, false))
        } else if c == '=' {
            Some((Token::Eq, true))
        } else if c == '<' {
            Some((Token::Lt, false))
        } else if c == '>' {
            Some((Token::Gt, false))
        } else if c == '(' {
            Some((Token::OpenParen, false))
        } else if c == ')' {
            Some((Token::CloseParen, false))
        } else {
            None
        };
        if let Some((tok, p)) = one {
            let s = byte_offset(cs, i);
            let e = byte_offset(cs, i + 1);
            push_token(&mut out, tok, s, e);
            i = i + 1;
            pattern = p;
            continue;
        }
        match read_word(cs, i, options) {
            Err(e) => {
                return Err(e);
            },
            Ok((w, end)) => {
                if end <= i {
                    return Err(ParseError::UnexpectedEof);
                }
                let s = byte_offset(cs, i);
                let e = byte_offset(cs, end);
                push_token(&mut out, Token::Word(w), s, e);
                i = end;
            },
        }
    }
}

proof fn lemma_bpos_first(cs: Seq<char>, k: int)
    requires
        1 <= k <= cs.len(),
    ensures
        bpos(cs, k) == width(cs[0]) + bpos(cs.drop_first(), k - 1),
    decreases k,
{
    let d = cs.drop_first();
    if k > 1 {
        lemma_bpos_first(cs, k - 1);
        assert(d[k - 2] == cs[k - 1]);
        assert(bpos(d, k - 1) == bpos(d, k - 2) + width(d[k - 2]));
    } else {
        assert(bpos(cs, 0) == 0);
        assert(bpos(d, 0) == 0);
    }
    assert(bpos(cs, k) == bpos(cs, k - 1) + width(cs[k - 1]));
}

proof fn lemma_scalar_width(c: char)
    ensures
        vstd::utf8::encode_scalar(c as u32).len() == width(c),
{
    vstd::utf8::char_is_scalar(c);
}

proof fn lemma_encode_len(cs: Seq<char>)
    ensures
        vstd::utf8::encode_utf8(cs).len() == bpos(cs, cs.len() as int),
    decreases cs.len(),
{
    if cs.len() > 0 {
        lemma_encode_len(cs.drop_first());
        lemma_bpos_first(cs, cs.len() as int);
        lemma_scalar_width(cs[0]);
    }
}

/// Lex using explicit syntax options.
pub fn lex_with_options(input: &str, options: ParseOptions) -> (r: Result<Vec<Spanned<Token>>, ParseError>)
    ensures
        match lex_spec(input@, options) {
            Ok(ts) => r matches Ok(v) && toks_v(v@) == ts,
            Err(x) => r matches Err(y) && perr_v(y) == x,
        },
        r matches Ok(v) ==> spans_ordered(toks_v(v@), vstd::utf8::encode_utf8(input@).len() as int),
{
    proof {
        lemma_token_spans_ordered(input@, options);
        lemma_encode_len(input@);
    }
    let cs = chars_of(input);
    // The input's UTF-8 length is a `usize`, so every byte offset fits.
    let _byte_len = input.as_bytes().len();
    proof {
        lemma_encode_len(input@);
    }
    lex_chars(cs.as_slice(), options)
}

/// Lex using the default, bash-compatible syntax options.
pub fn lex(input: &str) -> (r: Result<Vec<Spanned<Token>>, ParseError>)
    ensures
        match lex_spec(input@, ParseOptions::default_spec()) {
            Ok(ts) => r matches Ok(v) && toks_v(v@) == ts,
            Err(x) => r matches Err(y) && perr_v(y) == x,
        },
{
    lex_with_options(input, ParseOptions::bash())
}

} // verus!
