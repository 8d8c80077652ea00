//! Compiled glob and extglob matching used by conditional and parameter
//! expansion patterns, and compilation of `=~` regular expressions.

use vstd::prelude::*;

use crate::ast::{Word, WordPart};
use crate::text::{chars_of, push_char, push_str, string_of};

verus! {

#[derive(Debug)]
pub enum PatternError {
    UnterminatedExtglob,
    UnexpandedParameter,
    Regex(regex::Error),
}

// ---------------------------------------------------------------------------
// The regex engine
// ---------------------------------------------------------------------------

/// `regex::Regex`, a compiled regular expression.
#[verifier::external_type_specification]
#[verifier::external_body]
pub struct ExRegex(regex::Regex);

/// The error `regex::RegexBuilder::build` reports for `pattern` with the
/// given case sensitivity, or `None` when the pattern compiles.
pub uninterp spec fn regex_build_error(pattern: Seq<char>, case_insensitive: bool) -> Option<
    regex::Error,
>;

/// Whether the regex compiled from `pattern` matches somewhere in `text`
/// (`regex::Regex::is_match`).
pub uninterp spec fn regex_is_match(pattern: Seq<char>, case_insensitive: bool, text: Seq<char>) -> bool;

/// The capture groups of the leftmost match of the regex compiled from
/// `pattern` in `text` (`regex::Regex::captures`): group 0 is the whole
/// match; groups that did not participate are `None`.
pub uninterp spec fn regex_captures(
    pattern: Seq<char>,
    case_insensitive: bool,
    text: Seq<char>,
) -> Option<Seq<Option<Seq<char>>>>;

/// Compiles `pattern` (`regex::RegexBuilder::new(..).case_insensitive(..)
/// .build()`). The contract claims only that the outcome is a function of
/// the pattern and the flag, named by [`regex_build_error`].
#[verifier::external_body]
fn build_regex(pattern: &str, case_insensitive: bool) -> (r: Result<regex::Regex, regex::Error>)
    ensures
        match r {
            Ok(_) => regex_build_error(pattern@, case_insensitive) is None,
            Err(e) => regex_build_error(pattern@, case_insensitive) == Some(e),
        },
{
    regex::RegexBuilder::new(pattern).case_insensitive(case_insensitive).build()
}

/// Whether `c` is one of the characters `regex::escape` escapes
/// (`regex_syntax::is_meta_character`).
pub open spec fn is_regex_meta(c: char) -> bool {
    c == '\\' || c == '.' || c == '+' || c == '*' || c == '?' || c == '(' || c == ')' || c == '|'
        || c == '[' || c == ']' || c == '{' || c == '}' || c == '^' || c == '$' || c == '#' || c
        == '&' || c == '-' || c == '~'
}

/// `text` with a backslash before every regex meta character.
pub open spec fn regex_escape_spec(text: Seq<char>) -> Seq<char>
    decreases text.len(),
{
    if text.len() == 0 {
        Seq::empty()
    } else {
        regex_escape_spec(text.drop_last()) + if is_regex_meta(text.last()) {
            seq!['\\', text.last()]
        } else {
            seq![text.last()]
        }
    }
}

/// Escapes regex meta characters (`regex::escape`); the contract states
/// what the crate's documentation and source show: each meta character
/// gets a preceding backslash, everything else is copied.
#[verifier::external_body]
fn regex_escape(text: &str) -> (r: String)
    ensures
        r@ == regex_escape_spec(text@),
{
    regex::escape(text)
}

/// A compiled regular expression together with the pattern and case
/// sensitivity it was compiled from.
pub struct CompiledRegex {
    regex: regex::Regex,
    source: Ghost<Seq<char>>,
    nocase: Ghost<bool>,
}

impl CompiledRegex {
    /// The pattern this regex was compiled from.
    pub closed spec fn source(&self) -> Seq<char> {
        self.source@
    }

    /// Whether it was compiled case-insensitively.
    pub closed spec fn nocase(&self) -> bool {
        self.nocase@
    }

    /// Compiles `pattern`.
    pub fn new(pattern: &str, case_insensitive: bool) -> (r: Result<CompiledRegex, regex::Error>)
        ensures
            match r {
                Ok(re) => regex_build_error(pattern@, case_insensitive) is None && re.source()
                    == pattern@ && re.nocase() == case_insensitive,
                Err(e) => regex_build_error(pattern@, case_insensitive) == Some(e),
            },
    {
        match build_regex(pattern, case_insensitive) {
            Ok(regex) => Ok(
                CompiledRegex { regex, source: Ghost(pattern@), nocase: Ghost(case_insensitive) },
            ),
            Err(e) => Err(e),
        }
    }

    /// Whether the regex matches somewhere in `text` (`regex::Regex::is_match`).
    #[verifier::external_body]
    pub fn is_match(&self, text: &str) -> (r: bool)
        ensures
            r == regex_is_match(self.source(), self.nocase(), text@),
    {
        self.regex.is_match(text)
    }

    /// The capture groups of the leftmost match (`regex::Regex::captures`),
    /// each converted to an owned string.
    #[verifier::external_body]
    pub fn captures(&self, text: &str) -> (r: Option<Vec<Option<String>>>)
        ensures
            match r {
                Some(g) => regex_captures(self.source(), self.nocase(), text@) == Some(
                    crate::env::groups_view(g@),
                ),
                None => regex_captures(self.source(), self.nocase(), text@) is None,
            },
    {
        self.regex.captures(text).map(
            |caps| caps.iter().map(|m| m.map(|m| m.as_str().to_string())).collect(),
        )
    }
}

// ---------------------------------------------------------------------------
// Case folding
// ---------------------------------------------------------------------------

/// The lowercase mapping of a character (`char::to_lowercase`).
pub uninterp spec fn char_lower(c: char) -> Seq<char>;

/// The uppercase mapping of a character (`char::to_uppercase`).
pub uninterp spec fn char_upper(c: char) -> Seq<char>;

/// The lowercase mapping of `c` as a string (`char::to_lowercase`).
#[verifier::external_body]
pub(crate) fn lowercase(c: char) -> (r: String)
    ensures
        r@ == char_lower(c),
{
    c.to_lowercase().collect()
}

/// The uppercase mapping of `c` as a string (`char::to_uppercase`).
#[verifier::external_body]
pub(crate) fn uppercase(c: char) -> (r: String)
    ensures
        r@ == char_upper(c),
{
    c.to_uppercase().collect()
}

/// Character equality, ignoring case (by lowercase mapping) when asked.
pub open spec fn chars_equal_spec(left: char, right: char, case_insensitive: bool) -> bool {
    left == right || (case_insensitive && char_lower(left) == char_lower(right))
}

/// Character comparison: case-sensitively it is equality; case-insensitively
/// it also equates characters with the same lowercase, and in both modes it
/// is reflexive and symmetric.
pub proof fn lemma_chars_equal(a: char, b: char, ci: bool)
    ensures
        chars_equal_spec(a, b, false) == (a == b),
        chars_equal_spec(a, a, ci),
        chars_equal_spec(a, b, ci) == chars_equal_spec(b, a, ci),
        a == b ==> chars_equal_spec(a, b, ci),
        char_lower(a) == char_lower(b) ==> chars_equal_spec(a, b, true),
{
}

fn chars_equal(left: char, right: char, case_insensitive: bool) -> (r: bool)
    ensures
        r == chars_equal_spec(left, right, case_insensitive),
{
    if left == right {
        return true;
    }
    if !case_insensitive {
        return false;
    }
    let l = lowercase(left);
    let r = lowercase(right);
    crate::text::str_eq(l.as_str(), r.as_str())
}

// ---------------------------------------------------------------------------
// Pattern text
// ---------------------------------------------------------------------------

#[derive(Debug, Clone, Copy, PartialEq, Eq, Default)]
pub struct GlobOptions {
    pub case_insensitive: bool,
    pub extglob: bool,
}

/// A pattern character; `active` is false for characters that came from
/// quoted text and so only ever match themselves.
#[derive(Debug, Clone, Copy, PartialEq, Eq)]
pub struct PatternChar {
    pub ch: char,
    pub active: bool,
}

/// The pattern characters of an expanded word: unquoted literal text and
/// unquoted variable values are active, quoted text and quoted variable
/// values are not.
pub open spec fn word_pattern_chars(parts: Seq<WordPart>, values: Seq<Seq<char>>) -> Seq<PatternChar>
    decreases parts.len(),
{
    if parts.len() == 0 {
        Seq::empty()
    } else {
        let i = parts.len() - 1;
        word_pattern_chars(parts.drop_last(), values) + match parts[i] {
            WordPart::Literal(t) => marked(t@, true),
            WordPart::Quoted(t) => marked(t@, false),
            WordPart::Var(_) => marked(values[i], true),
            WordPart::QuotedVar(_) => marked(values[i], false),
            WordPart::Expansion { .. } => Seq::empty(),
        }
    }
}

/// The pattern character for `c`.
pub open spec fn pattern_char(c: char, active: bool) -> PatternChar {
    PatternChar { ch: c, active: active }
}

/// The characters of `t`, each marked active or not.
pub open spec fn marked(t: Seq<char>, active: bool) -> Seq<PatternChar>
    decreases t.len(),
{
    if t.len() == 0 {
        Seq::empty()
    } else {
        marked(t.drop_last(), active).push(pattern_char(t.last(), active))
    }
}

/// Whether a word holds no structured parameter expansion.
pub open spec fn no_expansion(parts: Seq<WordPart>) -> bool {
    forall|i: int| 0 <= i < parts.len() ==> !(#[trigger] parts[i] is Expansion)
}

/// Whether a word holds only literal and quoted text.
pub open spec fn fully_expanded(parts: Seq<WordPart>) -> bool {
    forall|i: int|
        0 <= i < parts.len() ==> (#[trigger] parts[i] is Literal || parts[i] is Quoted)
}

fn push_marked(out: &mut Vec<PatternChar>, t: &str, active: bool)
    ensures
        final(out)@ == old(out)@ + marked(t@, active),
{
    let cs = chars_of(t);
    let ghost start = out@;
    let mut i: usize = 0;
    assert(cs@.take(0) =~= Seq::<char>::empty());
    assert(out@ =~= start + marked(cs@.take(0), active));
    while i < cs.len()
        invariant
            i <= cs@.len(),
            cs@ == t@,
            out@ == start + marked(cs@.take(i as int), active),
        decreases cs@.len() - i,
    {
        out.push(PatternChar { ch: cs[i], active });
        i = i + 1;
        assert(cs@.take(i as int).drop_last() =~= cs@.take((i - 1) as int));
        assert(out@ =~= start + marked(cs@.take(i as int), active));
    }
    assert(cs@.take(cs@.len() as int) == cs@);
}


/// Whether `chars[i]` is the active character `c`.
pub open spec fn act(chars: Seq<PatternChar>, i: int, c: char) -> bool {
    0 <= i < chars.len() && chars[i].active && chars[i].ch == c
}

/// The characters of a run of pattern characters, activity dropped.
pub open spec fn pattern_text(chars: Seq<PatternChar>) -> Seq<char>
    decreases chars.len(),
{
    if chars.len() == 0 {
        Seq::empty()
    } else {
        pattern_text(chars.drop_last()).push(chars.last().ch)
    }
}

// ---------------------------------------------------------------------------
// Bracket expressions
// ---------------------------------------------------------------------------

/// Scanning for the `:]` that closes a `[:class:]` opened before `k`: the
/// first position from `k` on where `:]` starts, or where fewer than two
/// characters remain before `limit`.
pub open spec fn colon_close(chars: Seq<PatternChar>, k: int, limit: int) -> int
    decreases limit - k,
{
    if k + 1 < limit && !(act(chars, k, ':') && act(chars, k + 1, ']')) {
        colon_close(chars, k + 1, limit)
    } else {
        k
    }
}

pub proof fn lemma_colon_close(chars: Seq<PatternChar>, k: int, limit: int)
    ensures
        colon_close(chars, k, limit) >= k,
        k + 1 < limit ==> colon_close(chars, k, limit) + 1 < limit ==> act(
            chars,
            colon_close(chars, k, limit),
            ':',
        ) && act(chars, colon_close(chars, k, limit) + 1, ']'),
        k + 1 < limit ==> colon_close(chars, k, limit) + 1 <= limit,
    decreases limit - k,
{
    if k + 1 < limit && !(act(chars, k, ':') && act(chars, k + 1, ']')) {
        lemma_colon_close(chars, k + 1, limit);
    }
}

/// The position of the `]` that closes a bracket expression, scanning from
/// `end`; `None` when the input runs out first.
pub open spec fn class_close(chars: Seq<PatternChar>, end: int) -> Option<int>
    decreases chars.len() - end,
{
    let n = chars.len() as int;
    if end < 0 || end >= n {
        None
    } else if act(chars, end, '\\') && end + 1 < n {
        class_close(chars, end + 2)
    } else if act(chars, end, '[') && act(chars, end + 1, ':') {
        let k = colon_close(chars, end + 2, n);
        proof {
            lemma_colon_close(chars, end + 2, n);
        }
        if k + 1 < n {
            class_close(chars, k + 2)
        } else if k >= n {
            None
        } else if act(chars, k, ']') {
            Some(k)
        } else {
            class_close(chars, k + 1)
        }
    } else if act(chars, end, ']') {
        Some(end)
    } else {
        class_close(chars, end + 1)
    }
}

pub proof fn lemma_class_close(chars: Seq<PatternChar>, end: int)
    ensures
        class_close(chars, end) matches Some(k) ==> end <= k < chars.len() && act(chars, k, ']'),
    decreases chars.len() - end,
{
    let n = chars.len() as int;
    if end < 0 || end >= n {
    } else if act(chars, end, '\\') && end + 1 < n {
        lemma_class_close(chars, end + 2);
    } else if act(chars, end, '[') && act(chars, end + 1, ':') {
        let k = colon_close(chars, end + 2, n);
        lemma_colon_close(chars, end + 2, n);
        if k + 1 < n {
            lemma_class_close(chars, k + 2);
        } else if k >= n {
        } else if act(chars, k, ']') {
        } else {
            lemma_class_close(chars, k + 1);
        }
    } else if act(chars, end, ']') {
    } else {
        lemma_class_close(chars, end + 1);
    }
}

/// Whether the bracket expression opened at `start` is negated.
pub open spec fn class_negated(chars: Seq<PatternChar>, start: int) -> bool {
    act(chars, start + 1, '!') || act(chars, start + 1, '^')
}

/// Where the scan for the closing `]` begins: after the `[`, an optional
/// negation and a `]` that stands for itself.
pub open spec fn class_scan_start(chars: Seq<PatternChar>, start: int) -> int {
    let a = if class_negated(chars, start) {
        start + 2
    } else {
        start + 1
    };
    if act(chars, a, ']') {
        a + 1
    } else {
        a
    }
}

/// The closing `]` of the bracket expression opened at `start`, if any.
pub open spec fn class_end(chars: Seq<PatternChar>, start: int) -> Option<int> {
    class_close(chars, class_scan_start(chars, start))
}

/// Whether a bracket member must be escaped in the regex source.
pub open spec fn class_needs_escape(c: PatternChar) -> bool {
    !c.active || c.ch == '[' || c.ch == ']' || c.ch == '\\' || c.ch == '^' || c.ch == '-'
}

/// The regex text for the members `chars[i..end]` of a bracket expression.
pub open spec fn class_body(chars: Seq<PatternChar>, i: int, end: int) -> Seq<char>
    decreases end - i,
{
    if i < 0 || i >= end || end > chars.len() {
        Seq::empty()
    } else if act(chars, i, '\\') && i + 1 < end {
        regex_escape_spec(seq![chars[i + 1].ch]) + class_body(chars, i + 2, end)
    } else if act(chars, i, '[') && act(chars, i + 1, ':') && colon_close(chars, i + 2, end) + 1
        < end {
        let k = colon_close(chars, i + 2, end);
        proof {
            lemma_colon_close(chars, i + 2, end);
        }
        seq!['[', ':'] + pattern_text(chars.subrange(i + 2, k)) + seq![':', ']'] + class_body(
            chars,
            k + 2,
            end,
        )
    } else if class_needs_escape(chars[i]) {
        seq!['\\', chars[i].ch] + class_body(chars, i + 1, end)
    } else {
        seq![chars[i].ch] + class_body(chars, i + 1, end)
    }
}

/// The anchored regex source for the bracket expression `chars[start..=end]`.
pub open spec fn class_source(chars: Seq<PatternChar>, start: int, end: int) -> Seq<char> {
    let negated = class_negated(chars, start);
    let first = if negated {
        start + 2
    } else {
        start + 1
    };
    seq!['^', '['] + (if negated {
        seq!['^']
    } else {
        Seq::empty()
    }) + class_body(chars, first, end) + seq![']', '$']
}

/// `a` and `b` have the same length and the same characters from `lo` on.
pub open spec fn same_from(a: Seq<PatternChar>, b: Seq<PatternChar>, lo: int) -> bool {
    a.len() == b.len() && forall|k: int| lo <= k < a.len() ==> #[trigger] a[k] == b[k]
}

proof fn lemma_colon_close_frame(a: Seq<PatternChar>, b: Seq<PatternChar>, lo: int, k: int, limit: int)
    requires
        same_from(a, b, lo),
        k >= lo,
    ensures
        colon_close(a, k, limit) == colon_close(b, k, limit),
    decreases limit - k,
{
    if k + 1 < limit {
        if 0 <= k < a.len() {
            assert(a[k] == b[k]);
        }
        if 0 <= k + 1 < a.len() {
            assert(a[k + 1] == b[k + 1]);
        }
        lemma_colon_close_frame(a, b, lo, k + 1, limit);
    }
}

proof fn lemma_class_close_frame(a: Seq<PatternChar>, b: Seq<PatternChar>, lo: int, end: int)
    requires
        same_from(a, b, lo),
        end >= lo,
    ensures
        class_close(a, end) == class_close(b, end),
    decreases a.len() - end,
{
    let n = a.len() as int;
    if 0 <= end < n {
        assert(a[end] == b[end]);
        if end + 1 < n {
            assert(a[end + 1] == b[end + 1]);
        }
        if act(a, end, '\\') && end + 1 < n {
            lemma_class_close_frame(a, b, lo, end + 2);
        } else if act(a, end, '[') && act(a, end + 1, ':') {
            lemma_colon_close_frame(a, b, lo, end + 2, n);
            lemma_colon_close(a, end + 2, n);
            let k = colon_close(a, end + 2, n);
            if k + 1 < n {
                lemma_class_close_frame(a, b, lo, k + 2);
            } else if k >= n {
            } else {
                assert(a[k] == b[k]);
                lemma_class_close_frame(a, b, lo, k + 1);
            }
        } else if act(a, end, ']') {
        } else {
            lemma_class_close_frame(a, b, lo, end + 1);
        }
    }
}

proof fn lemma_pattern_text_frame(a: Seq<PatternChar>, b: Seq<PatternChar>)
    requires
        a.len() == b.len(),
        forall|k: int| 0 <= k < a.len() ==> #[trigger] a[k].ch == b[k].ch,
    ensures
        pattern_text(a) == pattern_text(b),
    decreases a.len(),
{
    if a.len() > 0 {
        assert forall|k: int| 0 <= k < a.drop_last().len() implies #[trigger] a.drop_last()[k].ch == b.drop_last()[k].ch by {
            assert(a[k].ch == b[k].ch);
        }
        lemma_pattern_text_frame(a.drop_last(), b.drop_last());
        assert(a[a.len() - 1].ch == b[b.len() - 1].ch);
    }
}

proof fn lemma_class_body_frame(a: Seq<PatternChar>, b: Seq<PatternChar>, lo: int, i: int, end: int)
    requires
        same_from(a, b, lo),
        i >= lo,
    ensures
        class_body(a, i, end) == class_body(b, i, end),
    decreases end - i,
{
    if !(i < 0 || i >= end || end > a.len()) {
        assert(a[i] == b[i]);
        if i + 1 < a.len() {
            assert(a[i + 1] == b[i + 1]);
        }
        lemma_colon_close_frame(a, b, lo, i + 2, end);
        if act(a, i, '\\') && i + 1 < end {
            lemma_class_body_frame(a, b, lo, i + 2, end);
        } else if act(a, i, '[') && act(a, i + 1, ':') && colon_close(a, i + 2, end) + 1 < end {
            lemma_colon_close_frame(a, b, lo, i + 2, end);
            lemma_colon_close(a, i + 2, end);
            let k = colon_close(a, i + 2, end);
            let sa = a.subrange(i + 2, k);
            let sb = b.subrange(i + 2, k);
            assert forall|j: int| 0 <= j < sa.len() implies #[trigger] sa[j].ch == sb[j].ch by {
                assert(a[i + 2 + j] == b[i + 2 + j]);
            }
            lemma_pattern_text_frame(sa, sb);
            lemma_class_body_frame(a, b, lo, k + 2, end);
        } else {
            lemma_class_body_frame(a, b, lo, i + 1, end);
        }
    }
}

/// In a bracket expression a leading active `^` negates, exactly as `!`
/// does: writing `!` in its place leaves where the expression ends and the
/// regex it compiles to unchanged, and that regex is the negated class of
/// the members that follow.
pub proof fn lemma_caret_negates_like_bang(chars: Seq<PatternChar>, start: int)
    requires
        act(chars, start, '['),
        act(chars, start + 1, '^'),
    ensures
        class_end(chars.update(start + 1, PatternChar { ch: '!', active: true }), start) == class_end(
            chars,
            start,
        ),
        class_end(chars, start) matches Some(end) ==> class_source(
            chars.update(start + 1, PatternChar { ch: '!', active: true }),
            start,
            end,
        ) == class_source(chars, start, end),
        class_end(chars, start) matches Some(end) ==> class_source(chars, start, end) == seq!['^', '[', '^']
            + class_body(chars, start + 2, end) + seq![']', '$'],
{
    let bang = chars.update(start + 1, PatternChar { ch: '!', active: true });
    assert(same_from(chars, bang, start + 2));
    assert(class_negated(chars, start));
    assert(class_negated(bang, start));
    if start + 2 < chars.len() {
        assert(bang[start + 2] == chars[start + 2]);
    }
    assert(class_scan_start(bang, start) == class_scan_start(chars, start));
    lemma_class_close_frame(chars, bang, start + 2, class_scan_start(chars, start));
    if let Some(end) = class_end(chars, start) {
        lemma_class_body_frame(chars, bang, start + 2, start + 2, end);
    }
}

// ---------------------------------------------------------------------------
// Compiled patterns, as mathematical values
// ---------------------------------------------------------------------------

#[derive(Debug, Clone, Copy, PartialEq, Eq, Structural)]
pub enum ExtglobKind {
    ZeroOrOne,
    ZeroOrMore,
    OneOrMore,
    ExactlyOne,
    Negate,
}

/// One element of a compiled glob. A bracket expression is represented by
/// the regex source it compiles to and the case sensitivity it was compiled
/// with.
pub enum GlobAtom {
    Literal(char),
    AnyChar,
    AnyString,
    Class(Seq<char>, bool),
    Extglob(ExtglobKind, Seq<Seq<GlobAtom>>),
}

/// Why a pattern does not compile: an extended glob without its `)`, or a
/// bracket expression whose regex source the regex engine refuses.
pub enum GlobFail {
    Unterminated,
    BadClass(Seq<char>),
}

pub open spec fn extglob_kind(c: char) -> Option<ExtglobKind> {
    if c == '?' {
        Some(ExtglobKind::ZeroOrOne)
    } else if c == '*' {
        Some(ExtglobKind::ZeroOrMore)
    } else if c == '+' {
        Some(ExtglobKind::OneOrMore)
    } else if c == '@' {
        Some(ExtglobKind::ExactlyOne)
    } else if c == '!' {
        Some(ExtglobKind::Negate)
    } else {
        None
    }
}

pub open spec fn cons_atom(a: GlobAtom, r: Result<(Seq<GlobAtom>, int), GlobFail>) -> Result<
    (Seq<GlobAtom>, int),
    GlobFail,
> {
    match r {
        Ok((rest, end)) => Ok((seq![a] + rest, end)),
        Err(f) => Err(f),
    }
}

pub open spec fn cons_alt(a: Seq<GlobAtom>, r: Result<(Seq<Seq<GlobAtom>>, int), GlobFail>) -> Result<
    (Seq<Seq<GlobAtom>>, int),
    GlobFail,
> {
    match r {
        Ok((rest, end)) => Ok((seq![a] + rest, end)),
        Err(f) => Err(f),
    }
}

/// Parses a sequence of atoms from `pos`: up to the end of the pattern, or,
/// inside an extended glob, up to an active `|` or `)`. The result carries
/// the position where the sequence stopped.
pub open spec fn glob_seq(chars: Seq<PatternChar>, pos: int, inside: bool, options: GlobOptions) -> Result<
    (Seq<GlobAtom>, int),
    GlobFail,
>
    decreases chars.len() - pos, 0int,
{
    let n = chars.len() as int;
    if pos < 0 || pos >= n {
        Ok((Seq::empty(), pos))
    } else {
        let c = chars[pos];
        if inside && c.active && (c.ch == '|' || c.ch == ')') {
            Ok((Seq::empty(), pos))
        } else if options.extglob && c.active && extglob_kind(c.ch) is Some && act(
            chars,
            pos + 1,
            '(',
        ) {
            match glob_alts(chars, pos + 2, options) {
                Err(f) => Err(f),
                Ok((alts, next)) => if pos < next <= n {
                    cons_atom(
                        GlobAtom::Extglob(extglob_kind(c.ch).unwrap(), alts),
                        glob_seq(chars, next, inside, options),
                    )
                } else {
                    Err(GlobFail::Unterminated)
                },
            }
        } else if c.active && c.ch == '\\' && pos + 1 < n {
            cons_atom(GlobAtom::Literal(chars[pos + 1].ch), glob_seq(chars, pos + 2, inside, options))
        } else if c.active && c.ch == '*' {
            cons_atom(GlobAtom::AnyString, glob_seq(chars, pos + 1, inside, options))
        } else if c.active && c.ch == '?' {
            cons_atom(GlobAtom::AnyChar, glob_seq(chars, pos + 1, inside, options))
        } else if c.active && c.ch == '[' && class_end(chars, pos) is Some {
            let end = class_end(chars, pos).unwrap();
            let source = class_source(chars, pos, end);
            proof {
                lemma_class_close(chars, class_scan_start(chars, pos));
            }
            if regex_build_error(source, options.case_insensitive) is Some {
                Err(GlobFail::BadClass(source))
            } else {
                cons_atom(
                    GlobAtom::Class(source, options.case_insensitive),
                    glob_seq(chars, end + 1, inside, options),
                )
            }
        } else {
            cons_atom(GlobAtom::Literal(c.ch), glob_seq(chars, pos + 1, inside, options))
        }
    }
}

/// Parses the alternatives of an extended glob whose `(` ends before
/// `pos`, through its closing `)`; the result carries the position after it.
pub open spec fn glob_alts(chars: Seq<PatternChar>, pos: int, options: GlobOptions) -> Result<
    (Seq<Seq<GlobAtom>>, int),
    GlobFail,
>
    decreases chars.len() - pos, 1int,
{
    let n = chars.len() as int;
    if pos < 0 || pos > n {
        Err(GlobFail::Unterminated)
    } else {
        match glob_seq(chars, pos, true, options) {
            Err(f) => Err(f),
            Ok((alt, q)) => if pos <= q && act(chars, q, '|') {
                cons_alt(alt, glob_alts(chars, q + 1, options))
            } else if pos <= q && act(chars, q, ')') {
                Ok((seq![alt], q + 1))
            } else {
                Err(GlobFail::Unterminated)
            },
        }
    }
}

/// The compiled form of a whole pattern.
pub open spec fn glob_compile(chars: Seq<PatternChar>, options: GlobOptions) -> Result<
    Seq<GlobAtom>,
    GlobFail,
> {
    match glob_seq(chars, 0, false, options) {
        Ok((atoms, _)) => Ok(atoms),
        Err(f) => Err(f),
    }
}

// ---------------------------------------------------------------------------
// What a compiled glob matches
// ---------------------------------------------------------------------------

/// The first `k` atoms of `atoms` match `input[p..e]`.
pub open spec fn seq_match(atoms: Seq<GlobAtom>, k: int, p: int, e: int, input: Seq<char>, ci: bool) -> bool
    decreases atoms, k, 1int, 0int,
{
    if k <= 0 {
        0 <= p && p == e && e <= input.len()
    } else if k > atoms.len() {
        false
    } else {
        seq_via(atoms, k, p, e, input.len() as int, input, ci)
    }
}

/// Some split point `q' <= q` where the first `k - 1` atoms match
/// `input[p..q']` and atom `k - 1` matches `input[q'..e]`.
pub open spec fn seq_via(atoms: Seq<GlobAtom>, k: int, p: int, e: int, q: int, input: Seq<char>, ci: bool) -> bool
    decreases atoms, k, 0int, q + 1,
{
    if q < 0 || k <= 0 || k > atoms.len() {
        false
    } else {
        (seq_match(atoms, k - 1, p, q, input, ci) && atom_match(atoms[k - 1], q, e, input, ci))
            || seq_via(atoms, k, p, e, q - 1, input, ci)
    }
}

/// One atom matches `input[p..e]`.
pub open spec fn atom_match(a: GlobAtom, p: int, e: int, input: Seq<char>, ci: bool) -> bool
    decreases a, 0int, 0int, 0int,
{
    let n = input.len() as int;
    match a {
        GlobAtom::Literal(c) => 0 <= p < n && e == p + 1 && chars_equal_spec(input[p], c, ci),
        GlobAtom::AnyChar => 0 <= p < n && e == p + 1,
        GlobAtom::AnyString => 0 <= p <= e <= n,
        GlobAtom::Class(source, nocase) => 0 <= p < n && e == p + 1 && regex_is_match(
            source,
            nocase,
            seq![input[p]],
        ),
        GlobAtom::Extglob(kind, alts) => match kind {
            ExtglobKind::ExactlyOne => alt_match(alts, alts.len() as int, p, e, input, ci),
            ExtglobKind::ZeroOrOne => (0 <= p && p == e && e <= n) || alt_match(
                alts,
                alts.len() as int,
                p,
                e,
                input,
                ci,
            ),
            ExtglobKind::ZeroOrMore => star_match(alts, p, e, input, ci),
            ExtglobKind::OneOrMore => plus_via(alts, p, e, n, input, ci),
            ExtglobKind::Negate => 0 <= p <= e <= n && !alt_match(
                alts,
                alts.len() as int,
                p,
                e,
                input,
                ci,
            ),
        },
    }
}

/// One of the first `i` alternatives matches `input[p..e]`.
pub open spec fn alt_match(alts: Seq<Seq<GlobAtom>>, i: int, p: int, e: int, input: Seq<char>, ci: bool) -> bool
    decreases alts, i, 0int, 0int,
{
    if i <= 0 || i > alts.len() {
        false
    } else {
        seq_match(alts[i - 1], alts[i - 1].len() as int, p, e, input, ci) || alt_match(
            alts,
            i - 1,
            p,
            e,
            input,
            ci,
        )
    }
}

/// Zero or more alternatives in a row match `input[p..e]`.
pub open spec fn star_match(alts: Seq<Seq<GlobAtom>>, p: int, e: int, input: Seq<char>, ci: bool) -> bool
    decreases alts, alts.len() + 1, e - p, e - p + 1,
{
    if !(0 <= p <= e <= input.len()) {
        false
    } else if e == p {
        true
    } else {
        star_via(alts, p, e, e - 1, input, ci)
    }
}

/// Some `r` with `p <= r <= q` and `r < e` such that a run of alternatives
/// matches `input[p..r]` and one more alternative matches `input[r..e]`.
pub open spec fn star_via(alts: Seq<Seq<GlobAtom>>, p: int, e: int, q: int, input: Seq<char>, ci: bool) -> bool
    decreases alts, alts.len() + 1, e - p, q - p + 1,
{
    if q < p || e <= p {
        false
    } else if q >= e {
        star_via(alts, p, e, e - 1, input, ci)
    } else {
        (star_match(alts, p, q, input, ci) && alt_match(alts, alts.len() as int, q, e, input, ci))
            || star_via(alts, p, e, q - 1, input, ci)
    }
}

/// Some `r` with `p <= r <= q` such that one alternative matches
/// `input[p..r]` and a run of alternatives matches `input[r..e]`: one or
/// more alternatives in a row.
pub open spec fn plus_via(alts: Seq<Seq<GlobAtom>>, p: int, e: int, q: int, input: Seq<char>, ci: bool) -> bool
    decreases alts, alts.len() + 2, 0int, q - p + 1,
{
    if q < p {
        false
    } else {
        (alt_match(alts, alts.len() as int, p, q, input, ci) && star_match(alts, q, e, input, ci))
            || plus_via(alts, p, e, q - 1, input, ci)
    }
}

/// Whether the compiled glob `atoms` matches all of `input`.
pub open spec fn glob_matches(atoms: Seq<GlobAtom>, input: Seq<char>, ci: bool) -> bool {
    seq_match(atoms, atoms.len() as int, 0, input.len() as int, input, ci)
}

proof fn lemma_single_atom_via(a: GlobAtom, e: int, q: int, input: Seq<char>, ci: bool)
    requires
        q <= input.len(),
    ensures
        seq_via(seq![a], 1, 0, e, q, input, ci) == (q >= 0 && atom_match(a, 0, e, input, ci)),
    decreases q + 1,
{
    let atoms = seq![a];
    assert(atoms[0] == a);
    assert(atoms.len() == 1);
    if q >= 0 {
        assert(seq_match(atoms, 0, 0, q, input, ci) == (q == 0));
        lemma_single_atom_via(a, e, q - 1, input, ci);
    }
}

/// A pattern of one atom matches exactly what that atom matches of the
/// whole input.
pub proof fn lemma_single_atom(a: GlobAtom, input: Seq<char>, ci: bool)
    ensures
        glob_matches(seq![a], input, ci) == atom_match(a, 0, input.len() as int, input, ci),
{
    lemma_single_atom_via(a, input.len() as int, input.len() as int, input, ci);
}

/// The wildcards: an active `*` alone compiles to a pattern that matches
/// every string, the empty one included, and an active `?` alone to one
/// that matches exactly the strings of one character; a literal character
/// alone matches exactly that character.
pub proof fn lemma_wildcards(s: Seq<char>, c: char, ci: bool, options: GlobOptions)
    ensures
        glob_compile(seq![PatternChar { ch: '*', active: true }], options) == Ok::<Seq<GlobAtom>, GlobFail>(
            seq![GlobAtom::AnyString],
        ),
        glob_compile(seq![PatternChar { ch: '?', active: true }], options) == Ok::<Seq<GlobAtom>, GlobFail>(
            seq![GlobAtom::AnyChar],
        ),
        glob_matches(seq![GlobAtom::AnyString], s, ci),
        glob_matches(seq![GlobAtom::AnyChar], s, ci) == (s.len() == 1),
        glob_matches(seq![GlobAtom::Literal(c)], s, false) == (s == seq![c]),
{
    lemma_single_atom(GlobAtom::AnyString, s, ci);
    lemma_single_atom(GlobAtom::AnyChar, s, ci);
    lemma_single_atom(GlobAtom::Literal(c), s, false);
    let star = seq![PatternChar { ch: '*', active: true }];
    let quest = seq![PatternChar { ch: '?', active: true }];
    assert(glob_seq(star, 1, false, options) == Ok::<(Seq<GlobAtom>, int), GlobFail>((Seq::empty(), 1)));
    assert(glob_seq(quest, 1, false, options) == Ok::<(Seq<GlobAtom>, int), GlobFail>((Seq::empty(), 1)));
    assert(seq![GlobAtom::AnyString] + Seq::<GlobAtom>::empty() =~= seq![GlobAtom::AnyString]);
    assert(seq![GlobAtom::AnyChar] + Seq::<GlobAtom>::empty() =~= seq![GlobAtom::AnyChar]);
    if s.len() == 1 && chars_equal_spec(s[0], c, false) {
        assert(s =~= seq![c]);
    }
}

// ---------------------------------------------------------------------------
// Quoted pattern text
// ---------------------------------------------------------------------------

/// Whether `atoms` is the literal characters of `t`, one atom each.
pub open spec fn literal_of(atoms: Seq<GlobAtom>, t: Seq<char>) -> bool {
    &&& atoms.len() == t.len()
    &&& forall|i: int| 0 <= i < t.len() ==> #[trigger] atoms[i] == GlobAtom::Literal(t[i])
}

proof fn lemma_marked_index(t: Seq<char>, active: bool)
    ensures
        marked(t, active).len() == t.len(),
        forall|i: int| 0 <= i < t.len() ==> #[trigger] marked(t, active)[i] == pattern_char(t[i], active),
    decreases t.len(),
{
    if t.len() > 0 {
        lemma_marked_index(t.drop_last(), active);
    }
}

proof fn lemma_quoted_seq(t: Seq<char>, pos: int, options: GlobOptions)
    requires
        0 <= pos <= t.len(),
    ensures
        glob_seq(marked(t, false), pos, false, options) matches Ok((atoms, end)) && end == t.len()
            && literal_of(atoms, t.skip(pos)),
    decreases t.len() - pos,
{
    lemma_marked_index(t, false);
    if pos < t.len() {
        lemma_quoted_seq(t, pos + 1, options);
        let rest = glob_seq(marked(t, false), pos + 1, false, options)->Ok_0.0;
        let atoms = seq![GlobAtom::Literal(t[pos])] + rest;
        assert(glob_seq(marked(t, false), pos, false, options) == Ok::<(Seq<GlobAtom>, int), GlobFail>(
            (atoms, t.len() as int),
        ));
        assert forall|i: int| 0 <= i < t.skip(pos).len() implies #[trigger] atoms[i] == GlobAtom::Literal(
            t.skip(pos)[i],
        ) by {
            if i > 0 {
                assert(atoms[i] == rest[i - 1]);
                assert(t.skip(pos + 1)[i - 1] == t.skip(pos)[i]);
            }
        }
    }
}

/// `input` and `t` agree on their first `k` characters, and both have them.
pub open spec fn agree_upto(t: Seq<char>, input: Seq<char>, k: int) -> bool {
    &&& k <= input.len()
    &&& k <= t.len()
    &&& forall|j: int| 0 <= j < k ==> input[j] == t[j]
}

proof fn lemma_literal_seq_match(atoms: Seq<GlobAtom>, t: Seq<char>, input: Seq<char>, k: int, e: int)
    requires
        literal_of(atoms, t),
        0 <= k <= t.len(),
    ensures
        seq_match(atoms, k, 0, e, input, false) <==> (e == k && agree_upto(t, input, k)),
    decreases k, 1int, 0int,
{
    if k > 0 {
        lemma_literal_seq_via(atoms, t, input, k, e, input.len() as int);
    }
}

proof fn lemma_literal_seq_via(atoms: Seq<GlobAtom>, t: Seq<char>, input: Seq<char>, k: int, e: int, q: int)
    requires
        literal_of(atoms, t),
        1 <= k <= t.len(),
    ensures
        seq_via(atoms, k, 0, e, q, input, false) <==> (e == k && k - 1 <= q && agree_upto(t, input, k)),
    decreases k, 0int, q + 1,
{
    if q >= 0 {
        lemma_literal_seq_match(atoms, t, input, k - 1, q);
        lemma_literal_seq_via(atoms, t, input, k, e, q - 1);
        assert(atoms[k - 1] == GlobAtom::Literal(t[k - 1]));
        assert(atom_match(atoms[k - 1], q, e, input, false) == (0 <= q < input.len() && e == q + 1
            && input[q] == t[k - 1]));
        assert(seq_via(atoms, k, 0, e, q, input, false) == ((seq_match(atoms, k - 1, 0, q, input, false)
            && atom_match(atoms[k - 1], q, e, input, false)) || seq_via(atoms, k, 0, e, q - 1, input, false)));
        if q == k - 1 && e == k && agree_upto(t, input, k) {
            assert(agree_upto(t, input, k - 1));
        }
        if agree_upto(t, input, k - 1) && q == k - 1 && 0 <= q < input.len() && input[q] == t[k - 1] {
            assert(agree_upto(t, input, k));
        }
    }
}

/// Quoted pattern text matches only itself: a pattern whose characters all
/// come from quoted text compiles to the literal characters it spells, and,
/// matched case-sensitively, accepts exactly that text.
pub proof fn lemma_quoted_pattern_is_literal(t: Seq<char>, input: Seq<char>, options: GlobOptions)
    ensures
        glob_compile(marked(t, false), options) matches Ok(atoms) && literal_of(atoms, t) && (
        glob_matches(atoms, input, false) <==> input == t),
{
    lemma_quoted_seq(t, 0, options);
    assert(t.skip(0) =~= t);
    let atoms = glob_compile(marked(t, false), options)->Ok_0;
    lemma_literal_seq_match(atoms, t, input, t.len() as int, input.len() as int);
    if input.len() == t.len() && agree_upto(t, input, t.len() as int) {
        assert(input =~= t);
    }
}

// ---------------------------------------------------------------------------
// Compiled patterns in memory
// ---------------------------------------------------------------------------

enum Atom {
    Literal(char),
    AnyChar,
    AnyString,
    Class(CompiledRegex),
    Extglob { kind: ExtglobKind, alternatives: Vec<Vec<Atom>> },
}

spec fn atom_view(a: Atom) -> GlobAtom
    decreases a,
{
    match a {
        Atom::Literal(c) => GlobAtom::Literal(c),
        Atom::AnyChar => GlobAtom::AnyChar,
        Atom::AnyString => GlobAtom::AnyString,
        Atom::Class(re) => GlobAtom::Class(re.source(), re.nocase()),
        Atom::Extglob { kind, alternatives } => GlobAtom::Extglob(kind, alts_view(alternatives@)),
    }
}

spec fn atoms_view(s: Seq<Atom>) -> Seq<GlobAtom>
    decreases s,
{
    if s.len() == 0 {
        Seq::empty()
    } else {
        atoms_view(s.drop_last()).push(atom_view(s.last()))
    }
}

spec fn alts_view(s: Seq<Vec<Atom>>) -> Seq<Seq<GlobAtom>>
    decreases s,
{
    if s.len() == 0 {
        Seq::empty()
    } else {
        alts_view(s.drop_last()).push(atoms_view(s.last()@))
    }
}

proof fn lemma_atoms_view(s: Seq<Atom>)
    ensures
        atoms_view(s).len() == s.len(),
        forall|k: int| 0 <= k < s.len() ==> #[trigger] atoms_view(s)[k] == atom_view(s[k]),
    decreases s.len(),
{
    if s.len() > 0 {
        lemma_atoms_view(s.drop_last());
    }
}

proof fn lemma_alts_view(s: Seq<Vec<Atom>>)
    ensures
        alts_view(s).len() == s.len(),
        forall|k: int| 0 <= k < s.len() ==> #[trigger] alts_view(s)[k] == atoms_view(s[k]@),
    decreases s.len(),
{
    if s.len() > 0 {
        lemma_alts_view(s.drop_last());
    }
}

/// A row of `n + 1` booleans, all false.
fn empty_row(n: usize) -> (r: Vec<bool>)
    ensures
        r@.len() == n + 1,
        forall|e: int| 0 <= e <= n ==> !#[trigger] r@[e],
{
    let mut r: Vec<bool> = Vec::new();
    let mut i: usize = 0;
    while i < n
        invariant
            i <= n,
            r@.len() == i,
            forall|e: int| 0 <= e < i ==> !#[trigger] r@[e],
        decreases n - i,
    {
        r.push(false);
        i = i + 1;
    }
    r.push(false);
    r
}

/// `dst[e] |= src[e]` for every `e > after` (for every `e` when `after` is
/// `None`).
fn or_into(dst: &mut Vec<bool>, src: &Vec<bool>, above: Option<usize>)
    requires
        old(dst)@.len() == src@.len(),
    ensures
        final(dst)@.len() == old(dst)@.len(),
        forall|e: int|
            0 <= e < src@.len() ==> #[trigger] final(dst)@[e] == (old(dst)@[e] || (src@[e] && match above {
                Some(a) => e > a,
                None => true,
            })),
{
    let mut i: usize = 0;
    while i < src.len()
        invariant
            i <= src@.len(),
            dst@.len() == src@.len(),
            forall|e: int|
                0 <= e < i ==> #[trigger] dst@[e] == (old(dst)@[e] || (src@[e] && match above {
                    Some(a) => e > a,
                    None => true,
                })),
            forall|e: int| i <= e < src@.len() ==> #[trigger] dst@[e] == old(dst)@[e],
        decreases src@.len() - i,
    {
        let take = match above {
            Some(a) => i > a,
            None => true,
        };
        if take && src[i] {
            dst.set(i, true);
        }
        i = i + 1;
    }
}

// ---------------------------------------------------------------------------
// Matching: for a start position, the set of end positions
// ---------------------------------------------------------------------------

/// The ends `e` at which `atoms` matches `input[p..e]`.
fn seq_row(atoms: &Vec<Atom>, p: usize, input: &[char], ci: bool) -> (r: Vec<bool>)
    requires
        p <= input@.len() < usize::MAX,
    ensures
        r@.len() == input@.len() + 1,
        forall|e: int|
            0 <= e <= input@.len() ==> #[trigger] r@[e] == seq_match(
                atoms_view(atoms@),
                atoms@.len() as int,
                p as int,
                e,
                input@,
                ci,
            ),
    decreases atoms@, 0int,
{
    let n = input.len();
    let ghost v = atoms_view(atoms@);
    proof {
        lemma_atoms_view(atoms@);
    }
    let mut cur = empty_row(n);
    cur.set(p, true);
    let mut k: usize = 0;
    while k < atoms.len()
        invariant
            n == input@.len() < usize::MAX,
            p <= n,
            k <= atoms@.len(),
            v == atoms_view(atoms@),
            v.len() == atoms@.len(),
            forall|j: int| 0 <= j < atoms@.len() ==> #[trigger] v[j] == atom_view(atoms@[j]),
            cur@.len() == n + 1,
            forall|e: int| 0 <= e <= n ==> #[trigger] cur@[e] == seq_match(v, k as int, p as int, e, input@, ci),
        decreases atoms@.len() - k,
    {
        let mut nxt = empty_row(n);
        let mut q: usize = 0;
        while q <= n
            invariant
                n == input@.len() < usize::MAX,
                p <= n,
                k < atoms@.len(),
                v.len() == atoms@.len(),
                v[k as int] == atom_view(atoms@[k as int]),
                q <= n + 1,
                cur@.len() == n + 1,
                forall|e: int| 0 <= e <= n ==> #[trigger] cur@[e] == seq_match(v, k as int, p as int, e, input@, ci),
                nxt@.len() == n + 1,
                forall|e: int|
                    0 <= e <= n ==> #[trigger] nxt@[e] == seq_via(v, k + 1, p as int, e, q - 1, input@, ci),
            decreases n + 1 - q,
        {
            if cur[q] {
                proof {
                    assert(decreases_to!(atoms@ => atoms@[k as int]));
                }
                let row = atom_row(&atoms[k], q, input, ci);
                or_into(&mut nxt, &row, None);
            }
            q = q + 1;
        }
        cur = nxt;
        k = k + 1;
    }
    cur
}

/// The ends `e` at which one of `alts` matches `input[p..e]`.
fn alt_row(alts: &Vec<Vec<Atom>>, p: usize, input: &[char], ci: bool) -> (r: Vec<bool>)
    requires
        p <= input@.len() < usize::MAX,
    ensures
        r@.len() == input@.len() + 1,
        forall|e: int|
            0 <= e <= input@.len() ==> #[trigger] r@[e] == alt_match(
                alts_view(alts@),
                alts@.len() as int,
                p as int,
                e,
                input@,
                ci,
            ),
    decreases alts@, 0int,
{
    let n = input.len();
    let ghost v = alts_view(alts@);
    proof {
        lemma_alts_view(alts@);
    }
    let mut res = empty_row(n);
    let mut i: usize = 0;
    while i < alts.len()
        invariant
            n == input@.len() < usize::MAX,
            p <= n,
            i <= alts@.len(),
            v == alts_view(alts@),
            v.len() == alts@.len(),
            forall|j: int| 0 <= j < alts@.len() ==> #[trigger] v[j] == atoms_view(alts@[j]@),
            res@.len() == n + 1,
            forall|e: int| 0 <= e <= n ==> #[trigger] res@[e] == alt_match(v, i as int, p as int, e, input@, ci),
        decreases alts@.len() - i,
    {
        proof {
            assert(decreases_to!(alts@ => alts@[i as int]));
            assert(decreases_to!(alts@[i as int] => alts@[i as int]@));
            lemma_atoms_view(alts@[i as int]@);
        }
        let row = seq_row(&alts[i], p, input, ci);
        or_into(&mut res, &row, None);
        i = i + 1;
    }
    res
}

/// The ends `e` at which zero or more of `alts` in a row match `input[p..e]`.
fn star_row(alts: &Vec<Vec<Atom>>, p: usize, input: &[char], ci: bool) -> (r: Vec<bool>)
    requires
        p <= input@.len() < usize::MAX,
    ensures
        r@.len() == input@.len() + 1,
        forall|e: int|
            0 <= e <= input@.len() ==> #[trigger] r@[e] == star_match(
                alts_view(alts@),
                p as int,
                e,
                input@,
                ci,
            ),
    decreases alts@, 1int,
{
    let n = input.len();
    let ghost v = alts_view(alts@);
    proof {
        lemma_alts_view(alts@);
    }
    let mut reach = empty_row(n);
    reach.set(p, true);
    let mut r: usize = p;
    while r <= n
        invariant
            n == input@.len() < usize::MAX,
            p <= r <= n + 1,
            v == alts_view(alts@),
            v.len() == alts@.len(),
            reach@.len() == n + 1,
            forall|e: int|
                0 <= e <= n ==> #[trigger] reach@[e] == (e == p || star_via(v, p as int, e, r - 1, input@, ci)),
        decreases n + 1 - r,
    {
        if reach[r] {
            let row = alt_row(alts, r, input, ci);
            assert(star_match(v, p as int, r as int, input@, ci));
            or_into(&mut reach, &row, Some(r));
            assert forall|e: int| 0 <= e <= n implies #[trigger] reach@[e] == (e == p || star_via(
                v,
                p as int,
                e,
                r as int,
                input@,
                ci,
            )) by {
                if e > r {
                } else if e > p {
                    assert(star_via(v, p as int, e, r as int, input@, ci) == star_via(v, p as int, e, e - 1, input@, ci));
                }
            }
        } else {
            assert forall|e: int| 0 <= e <= n implies #[trigger] reach@[e] == (e == p || star_via(
                v,
                p as int,
                e,
                r as int,
                input@,
                ci,
            )) by {
                if e > r {
                    assert(!star_match(v, p as int, r as int, input@, ci));
                } else if e > p {
                    assert(star_via(v, p as int, e, r as int, input@, ci) == star_via(v, p as int, e, e - 1, input@, ci));
                }
            }
        }
        r = r + 1;
    }
    assert forall|e: int| 0 <= e <= n implies #[trigger] reach@[e] == star_match(v, p as int, e, input@, ci) by {
        if e > p {
            assert(star_via(v, p as int, e, n as int, input@, ci) == star_via(v, p as int, e, e - 1, input@, ci));
        }
    }
    reach
}

/// The ends `e` at which one or more of `alts` in a row match `input[p..e]`.
fn plus_row(alts: &Vec<Vec<Atom>>, p: usize, input: &[char], ci: bool) -> (r: Vec<bool>)
    requires
        p <= input@.len() < usize::MAX,
    ensures
        r@.len() == input@.len() + 1,
        forall|e: int|
            0 <= e <= input@.len() ==> #[trigger] r@[e] == plus_via(
                alts_view(alts@),
                p as int,
                e,
                input@.len() as int,
                input@,
                ci,
            ),
    decreases alts@, 2int,
{
    let n = input.len();
    let ghost v = alts_view(alts@);
    proof {
        lemma_alts_view(alts@);
    }
    let first = alt_row(alts, p, input, ci);
    let mut res = empty_row(n);
    let mut q: usize = p;
    while q <= n
        invariant
            n == input@.len() < usize::MAX,
            p <= q <= n + 1,
            v == alts_view(alts@),
            first@.len() == n + 1,
            forall|e: int| 0 <= e <= n ==> #[trigger] first@[e] == alt_match(v, v.len() as int, p as int, e, input@, ci),
            res@.len() == n + 1,
            forall|e: int| 0 <= e <= n ==> #[trigger] res@[e] == plus_via(v, p as int, e, q - 1, input@, ci),
        decreases n + 1 - q,
    {
        if first[q] {
            let row = star_row(alts, q, input, ci);
            or_into(&mut res, &row, None);
        }
        q = q + 1;
    }
    res
}

/// The ends `e` at which the atom `a` matches `input[p..e]`.
fn atom_row(a: &Atom, p: usize, input: &[char], ci: bool) -> (r: Vec<bool>)
    requires
        p <= input@.len() < usize::MAX,
    ensures
        r@.len() == input@.len() + 1,
        forall|e: int|
            0 <= e <= input@.len() ==> #[trigger] r@[e] == atom_match(atom_view(*a), p as int, e, input@, ci),
    decreases *a, 0int,
{
    let n = input.len();
    let mut row = empty_row(n);
    match a {
        Atom::Literal(c) => {
            if p < n && chars_equal(input[p], *c, ci) {
                row.set(p + 1, true);
            }
        },
        Atom::AnyChar => {
            if p < n {
                row.set(p + 1, true);
            }
        },
        Atom::AnyString => {
            let mut e: usize = p;
            while e <= n
                invariant
                    n == input@.len() < usize::MAX,
                    p <= e <= n + 1,
                    row@.len() == n + 1,
                    forall|j: int| 0 <= j <= n ==> #[trigger] row@[j] == (p <= j < e),
                decreases n + 1 - e,
            {
                row.set(e, true);
                e = e + 1;
            }
        },
        Atom::Class(re) => {
            if p < n {
                let mut one = String::new();
                crate::text::push_char(&mut one, input[p]);
                assert(one@ =~= seq![input@[p as int]]);
                if re.is_match(one.as_str()) {
                    row.set(p + 1, true);
                }
            }
        },
        Atom::Extglob { kind, alternatives } => {
            proof {
                lemma_alts_view(alternatives@);
                assert(decreases_to!(*a => *alternatives));
            }
            match kind {
                ExtglobKind::ExactlyOne => {
                    row = alt_row(alternatives, p, input, ci);
                },
                ExtglobKind::ZeroOrOne => {
                    row = alt_row(alternatives, p, input, ci);
                    row.set(p, true);
                },
                ExtglobKind::ZeroOrMore => {
                    row = star_row(alternatives, p, input, ci);
                },
                ExtglobKind::OneOrMore => {
                    row = plus_row(alternatives, p, input, ci);
                },
                ExtglobKind::Negate => {
                    let alt = alt_row(alternatives, p, input, ci);
                    let mut e: usize = p;
                    while e <= n
                        invariant
                            n == input@.len() < usize::MAX,
                            p <= e <= n + 1,
                            row@.len() == n + 1,
                            alt@.len() == n + 1,
                            forall|j: int| 0 <= j <= n ==> #[trigger] row@[j] == (p <= j < e && !alt@[j]),
                        decreases n + 1 - e,
                    {
                        if !alt[e] {
                            row.set(e, true);
                        }
                        e = e + 1;
                    }
                },
            }
        },
    }
    row
}

// ---------------------------------------------------------------------------
// Compiling bracket expressions
// ---------------------------------------------------------------------------

fn is_act(chars: &[PatternChar], i: usize, c: char) -> (r: bool)
    ensures
        r == act(chars@, i as int, c),
{
    i < chars.len() && chars[i].active && chars[i].ch == c
}

fn colon_close_exec(chars: &[PatternChar], k: usize, limit: usize) -> (r: usize)
    requires
        k <= limit <= chars@.len(),
    ensures
        r == colon_close(chars@, k as int, limit as int),
{
    let ghost k0 = k as int;
    let mut k = k;
    while limit > 0 && k < limit - 1 && !(is_act(chars, k, ':') && is_act(chars, k + 1, ']'))
        invariant
            k <= limit <= chars@.len(),
            colon_close(chars@, k as int, limit as int) == colon_close(chars@, k0, limit as int),
        decreases limit - k,
    {
        k = k + 1;
    }
    k
}

/// The closing `]` of a bracket expression, scanning from `end`.
fn class_close_exec(chars: &[PatternChar], from: usize) -> (r: Option<usize>)
    ensures
        r matches Some(k) ==> class_close(chars@, from as int) == Some(k as int),
        r is None ==> class_close(chars@, from as int) is None,
{
    let n = chars.len();
    let mut end = from;
    loop
        invariant
            n == chars@.len(),
            class_close(chars@, end as int) == class_close(chars@, from as int),
        decreases n - end,
    {
        if end >= n {
            return None;
        }
        if is_act(chars, end, '\\') && end < n - 1 {
            end = end + 2;
            continue;
        }
        if is_act(chars, end, '[') && is_act(chars, end + 1, ':') {
            let k = colon_close_exec(chars, end + 2, n);
            proof {
                lemma_colon_close(chars@, end + 2, n as int);
            }
            if k < n - 1 {
                end = k + 2;
                continue;
            }
            if k >= n {
                return None;
            }
            if is_act(chars, k, ']') {
                return Some(k);
            }
            end = k + 1;
            continue;
        }
        if is_act(chars, end, ']') {
            return Some(end);
        }
        end = end + 1;
    }
}

/// Appends the characters of `chars[from..to]` to `out`.
fn push_pattern_text(out: &mut String, chars: &[PatternChar], from: usize, to: usize)
    requires
        from <= to <= chars@.len(),
    ensures
        final(out)@ == old(out)@ + pattern_text(chars@.subrange(from as int, to as int)),
{
    let ghost base = out@;
    let mut j: usize = from;
    assert(chars@.subrange(from as int, from as int) =~= Seq::<PatternChar>::empty());
    assert(out@ =~= base + pattern_text(chars@.subrange(from as int, j as int)));
    while j < to
        invariant
            from <= j <= to <= chars@.len(),
            out@ == base + pattern_text(chars@.subrange(from as int, j as int)),
        decreases to - j,
    {
        crate::text::push_char(out, chars[j].ch);
        j = j + 1;
        assert(chars@.subrange(from as int, j as int).drop_last() =~= chars@.subrange(
            from as int,
            j - 1,
        ));
        assert(out@ =~= base + pattern_text(chars@.subrange(from as int, j as int)));
    }
}

/// Appends the regex text for the bracket members `chars[i..end]`.
fn push_class_body(out: &mut String, chars: &[PatternChar], i: usize, end: usize)
    requires
        i <= end <= chars@.len(),
    ensures
        final(out)@ == old(out)@ + class_body(chars@, i as int, end as int),
{
    let ghost base = out@;
    let ghost i0 = i as int;
    let mut i = i;
    while i < end
        invariant
            i0 <= i <= end <= chars@.len(),
            out@ + class_body(chars@, i as int, end as int) == base + class_body(chars@, i0, end as int),
        decreases end - i,
    {
        let ghost before = out@;
        let current = chars[i];
        if current.active && current.ch == '\\' && i < end - 1 {
            let mut one = String::new();
            crate::text::push_char(&mut one, chars[i + 1].ch);
            assert(one@ =~= seq![chars@[i + 1].ch]);
            let escaped = regex_escape(one.as_str());
            push_str(out, escaped.as_str());
            i = i + 2;
            assert(out@ + class_body(chars@, i as int, end as int) =~= before + class_body(
                chars@,
                i - 2,
                end as int,
            ));
            continue;
        }
        if i < end - 1 && is_act(chars, i, '[') && is_act(chars, i + 1, ':') {
            let class_end = colon_close_exec(chars, i + 2, end);
            proof {
                lemma_colon_close(chars@, i + 2, end as int);
            }
            if class_end < end - 1 {
                crate::text::push_char(out, '[');
                crate::text::push_char(out, ':');
                push_pattern_text(out, chars, i + 2, class_end);
                crate::text::push_char(out, ':');
                crate::text::push_char(out, ']');
                let ghost old_i = i as int;
                i = class_end + 2;
                assert(out@ + class_body(chars@, i as int, end as int) =~= before + class_body(
                    chars@,
                    old_i,
                    end as int,
                ));
                continue;
            }
        }
        if !current.active || current.ch == '[' || current.ch == ']' || current.ch == '\\'
            || current.ch == '^' || current.ch == '-' {
            crate::text::push_char(out, '\\');
        }
        crate::text::push_char(out, current.ch);
        i = i + 1;
        assert(out@ + class_body(chars@, i as int, end as int) =~= before + class_body(
            chars@,
            i - 1,
            end as int,
        ));
    }
}

/// Spots a bracket expression at `start` and compiles it to an anchored
/// one-character regex; `None` when the bracket is not closed.
fn compile_class(chars: &[PatternChar], start: usize, options: GlobOptions) -> (r: Result<
    Option<(CompiledRegex, usize)>,
    PatternError,
>)
    requires
        start < chars@.len(),
    ensures
        match class_end(chars@, start as int) {
            None => r matches Ok(None),
            Some(end) => {
                let source = class_source(chars@, start as int, end);
                match r {
                    Ok(Some((re, next))) => regex_build_error(source, options.case_insensitive) is None
                        && re.source() == source && re.nocase() == options.case_insensitive && next
                        == end + 1,
                    Err(PatternError::Regex(e)) => regex_build_error(source, options.case_insensitive)
                        == Some(e),
                    _ => false,
                }
            },
        },
{
    let n = chars.len();
    let negated = is_act(chars, start + 1, '!') || is_act(chars, start + 1, '^');
    let mut scan = if negated {
        start + 2
    } else {
        start + 1
    };
    if is_act(chars, scan, ']') {
        scan = scan + 1;
    }
    let found = class_close_exec(chars, scan);
    let end = match found {
        None => {
            return Ok(None);
        },
        Some(end) => end,
    };
    proof {
        lemma_class_close(chars@, scan as int);
    }
    let mut source = String::new();
    crate::text::push_char(&mut source, '^');
    crate::text::push_char(&mut source, '[');
    let first = if negated {
        crate::text::push_char(&mut source, '^');
        start + 2
    } else {
        start + 1
    };
    push_class_body(&mut source, chars, first, end);
    crate::text::push_char(&mut source, ']');
    crate::text::push_char(&mut source, '$');
    assert(source@ =~= class_source(chars@, start as int, end as int));
    match CompiledRegex::new(source.as_str(), options.case_insensitive) {
        Ok(re) => Ok(Some((re, end + 1))),
        Err(e) => Err(PatternError::Regex(e)),
    }
}

// ---------------------------------------------------------------------------
// Parsing a pattern into atoms
// ---------------------------------------------------------------------------

pub open spec fn prefix_atoms(pre: Seq<GlobAtom>, r: Result<(Seq<GlobAtom>, int), GlobFail>) -> Result<
    (Seq<GlobAtom>, int),
    GlobFail,
> {
    match r {
        Ok((s, e)) => Ok((pre + s, e)),
        Err(f) => Err(f),
    }
}

pub open spec fn prefix_alts(pre: Seq<Seq<GlobAtom>>, r: Result<(Seq<Seq<GlobAtom>>, int), GlobFail>) -> Result<
    (Seq<Seq<GlobAtom>>, int),
    GlobFail,
> {
    match r {
        Ok((s, e)) => Ok((pre + s, e)),
        Err(f) => Err(f),
    }
}

/// Whether the error `e` reports the compile failure `f`.
pub open spec fn pattern_error_is(e: PatternError, f: GlobFail, ci: bool) -> bool {
    match f {
        GlobFail::Unterminated => e is UnterminatedExtglob,
        GlobFail::BadClass(source) => e matches PatternError::Regex(x) && regex_build_error(source, ci)
            == Some(x),
    }
}

proof fn lemma_prefix_atoms_step(pre: Seq<GlobAtom>, a: GlobAtom, r: Result<(Seq<GlobAtom>, int), GlobFail>)
    ensures
        prefix_atoms(pre, cons_atom(a, r)) == prefix_atoms(pre.push(a), r),
{
    match r {
        Ok((s, e)) => {
            assert(pre + (seq![a] + s) =~= pre.push(a) + s);
        },
        Err(_) => {},
    }
}

proof fn lemma_prefix_alts_step(pre: Seq<Seq<GlobAtom>>, a: Seq<GlobAtom>, r: Result<(Seq<Seq<GlobAtom>>, int), GlobFail>)
    ensures
        prefix_alts(pre, cons_alt(a, r)) == prefix_alts(pre.push(a), r),
{
    match r {
        Ok((s, e)) => {
            assert(pre + (seq![a] + s) =~= pre.push(a) + s);
        },
        Err(_) => {},
    }
}

proof fn lemma_atoms_view_push(s: Seq<Atom>, x: Atom)
    ensures
        atoms_view(s.push(x)) == atoms_view(s).push(atom_view(x)),
{
    assert(s.push(x).drop_last() =~= s);
}

proof fn lemma_alts_view_push(s: Seq<Vec<Atom>>, x: Vec<Atom>)
    ensures
        alts_view(s.push(x)) == alts_view(s).push(atoms_view(x@)),
{
    assert(s.push(x).drop_last() =~= s);
}

fn extglob_kind_exec(c: char) -> (r: Option<ExtglobKind>)
    ensures
        r == extglob_kind(c),
{
    if c == '?' {
        Some(ExtglobKind::ZeroOrOne)
    } else if c == '*' {
        Some(ExtglobKind::ZeroOrMore)
    } else if c == '+' {
        Some(ExtglobKind::OneOrMore)
    } else if c == '@' {
        Some(ExtglobKind::ExactlyOne)
    } else if c == '!' {
        Some(ExtglobKind::Negate)
    } else {
        None
    }
}

/// Parses atoms from `start` until the end of the pattern or, `inside` an
/// extended glob, until an active `|` or `)`.
fn parse_sequence(chars: &[PatternChar], start: usize, inside: bool, options: GlobOptions) -> (r: Result<
    (Vec<Atom>, usize),
    PatternError,
>)
    requires
        start <= chars@.len(),
    ensures
        match r {
            Ok((v, end)) => glob_seq(chars@, start as int, inside, options) == Ok::<
                (Seq<GlobAtom>, int),
                GlobFail,
            >((atoms_view(v@), end as int)) && start <= end <= chars@.len(),
            Err(e) => glob_seq(chars@, start as int, inside, options) matches Err(f)
                && pattern_error_is(e, f, options.case_insensitive),
        },
    decreases chars@.len() - start, 0int,
{
    let n = chars.len();
    let mut out: Vec<Atom> = Vec::new();
    let mut pos = start;
    let ghost target = glob_seq(chars@, start as int, inside, options);
    assert(target == prefix_atoms(atoms_view(out@), glob_seq(chars@, pos as int, inside, options))) by {
        match target {
            Ok((s, e)) => {
                assert(Seq::<GlobAtom>::empty() + s =~= s);
            },
            Err(_) => {},
        }
    }
    loop
        invariant
            n == chars@.len(),
            start <= pos <= n,
            target == glob_seq(chars@, start as int, inside, options),
            target == prefix_atoms(atoms_view(out@), glob_seq(chars@, pos as int, inside, options)),
        decreases n - pos,
    {
        let ghost before = out@;
        if pos >= n {
            assert(atoms_view(out@) + Seq::<GlobAtom>::empty() =~= atoms_view(out@));
            return Ok((out, pos));
        }
        let current = chars[pos];
        if inside && current.active && (current.ch == '|' || current.ch == ')') {
            assert(atoms_view(out@) + Seq::<GlobAtom>::empty() =~= atoms_view(out@));
            return Ok((out, pos));
        }
        let kind = extglob_kind_exec(current.ch);
        if options.extglob && current.active && kind.is_some() && is_act(chars, pos + 1, '(') {
            let (alternatives, next) = match parse_alternatives(chars, pos + 2, options) {
                Ok(parsed) => parsed,
                Err(e) => {
                    return Err(e);
                },
            };
            let atom = Atom::Extglob { kind: kind.unwrap(), alternatives };
            proof {
                lemma_prefix_atoms_step(
                    atoms_view(before),
                    atom_view(atom),
                    glob_seq(chars@, next as int, inside, options),
                );
                lemma_atoms_view_push(before, atom);
            }
            out.push(atom);
            pos = next;
            continue;
        }
        let atom;
        let next;
        if current.active && current.ch == '\\' && pos < n - 1 {
            atom = Atom::Literal(chars[pos + 1].ch);
            next = pos + 2;
        } else if current.active && current.ch == '*' {
            atom = Atom::AnyString;
            next = pos + 1;
        } else if current.active && current.ch == '?' {
            atom = Atom::AnyChar;
            next = pos + 1;
        } else if current.active && current.ch == '[' {
            match compile_class(chars, pos, options) {
                Ok(Some((re, end))) => {
                    proof {
                        lemma_class_close(chars@, class_scan_start(chars@, pos as int));
                    }
                    atom = Atom::Class(re);
                    next = end;
                },
                Ok(None) => {
                    atom = Atom::Literal('[');
                    next = pos + 1;
                },
                Err(e) => {
                    return Err(e);
                },
            }
        } else {
            atom = Atom::Literal(current.ch);
            next = pos + 1;
        }
        proof {
            lemma_prefix_atoms_step(
                atoms_view(before),
                atom_view(atom),
                glob_seq(chars@, next as int, inside, options),
            );
            lemma_atoms_view_push(before, atom);
        }
        out.push(atom);
        pos = next;
    }
}

/// Parses the alternatives of an extended glob from `start` (just after
/// its `(`) through the closing `)`.
fn parse_alternatives(chars: &[PatternChar], start: usize, options: GlobOptions) -> (r: Result<
    (Vec<Vec<Atom>>, usize),
    PatternError,
>)
    requires
        start <= chars@.len(),
    ensures
        match r {
            Ok((v, end)) => glob_alts(chars@, start as int, options) == Ok::<
                (Seq<Seq<GlobAtom>>, int),
                GlobFail,
            >((alts_view(v@), end as int)) && start < end <= chars@.len(),
            Err(e) => glob_alts(chars@, start as int, options) matches Err(f) && pattern_error_is(
                e,
                f,
                options.case_insensitive,
            ),
        },
    decreases chars@.len() - start, 1int,
{
    let n = chars.len();
    let mut alts: Vec<Vec<Atom>> = Vec::new();
    let mut pos = start;
    let ghost target = glob_alts(chars@, start as int, options);
    assert(target == prefix_alts(alts_view(alts@), glob_alts(chars@, pos as int, options))) by {
        match target {
            Ok((s, e)) => {
                assert(Seq::<Seq<GlobAtom>>::empty() + s =~= s);
            },
            Err(_) => {},
        }
    }
    loop
        invariant
            n == chars@.len(),
            start <= pos <= n,
            target == glob_alts(chars@, start as int, options),
            target == prefix_alts(alts_view(alts@), glob_alts(chars@, pos as int, options)),
        decreases n - pos,
    {
        let ghost before = alts@;
        let (alt, q) = match parse_sequence(chars, pos, true, options) {
            Ok(parsed) => parsed,
            Err(e) => {
                return Err(e);
            },
        };
        proof {
            lemma_prefix_alts_step(
                alts_view(before),
                atoms_view(alt@),
                glob_alts(chars@, q + 1, options),
            );
            lemma_alts_view_push(before, alt);
        }
        if is_act(chars, q, '|') {
            alts.push(alt);
            pos = q + 1;
            continue;
        }
        if is_act(chars, q, ')') {
            alts.push(alt);
            assert(alts_view(alts@) =~= alts_view(before) + seq![atoms_view(alt@)]);
            return Ok((alts, q + 1));
        }
        return Err(PatternError::UnterminatedExtglob);
    }
}

// ---------------------------------------------------------------------------
// The public interface
// ---------------------------------------------------------------------------

/// Whether `value` is a value that the variable expander `f` returns for
/// the variable `name`.
pub open spec fn expands_to<F: Fn(&str) -> String>(f: F, name: Seq<char>, value: Seq<char>) -> bool {
    exists|s: &str, out: String| s@ == name && #[trigger] f.ensures((s,), out) && out@ == value
}

/// Whether `value` can stand for `part` when the word is expanded by `f`
/// (only variable references take values from `f`).
pub open spec fn part_value<F: Fn(&str) -> String>(f: F, part: WordPart, value: Seq<char>) -> bool {
    match part {
        WordPart::Var(name) => expands_to(f, name@, value),
        WordPart::QuotedVar(name) => expands_to(f, name@, value),
        _ => true,
    }
}

/// Whether `values` holds, for each part of a word, a value `f` returns for it.
pub open spec fn var_values<F: Fn(&str) -> String>(f: F, parts: Seq<WordPart>, values: Seq<Seq<char>>) -> bool {
    values.len() == parts.len() && forall|i: int|
        0 <= i < parts.len() ==> part_value(f, #[trigger] parts[i], values[i])
}

proof fn lemma_word_pattern_chars_values(parts: Seq<WordPart>, v1: Seq<Seq<char>>, v2: Seq<Seq<char>>)
    requires
        forall|j: int| 0 <= j < parts.len() ==> v1[j] == v2[j],
    ensures
        word_pattern_chars(parts, v1) == word_pattern_chars(parts, v2),
    decreases parts.len(),
{
    if parts.len() > 0 {
        lemma_word_pattern_chars_values(parts.drop_last(), v1, v2);
    }
}

pub struct CompiledGlob {
    sequence: Vec<Atom>,
    options: GlobOptions,
}

impl CompiledGlob {
    /// The compiled atoms.
    pub closed spec fn atoms(&self) -> Seq<GlobAtom> {
        atoms_view(self.sequence@)
    }

    /// The options the pattern was compiled with.
    pub closed spec fn options(&self) -> GlobOptions {
        self.options
    }

    /// Whether the pattern matches all of `input`.
    pub fn is_match(&self, input: &str) -> (r: bool)
        ensures
            r == glob_matches(self.atoms(), input@, self.options().case_insensitive),
    {
        let chars = chars_of(input);
        let n = chars.len();
        let probe = empty_row(n);
        assert(probe@.len() == probe.len());
        proof {
            lemma_atoms_view(self.sequence@);
        }
        let row = seq_row(&self.sequence, 0, chars.as_slice(), self.options.case_insensitive);
        row[n]
    }
}

/// What compiling the pattern characters `chars` gives: the compiled atoms,
/// or the error for the first failure.
pub open spec fn glob_outcome(r: Result<CompiledGlob, PatternError>, chars: Seq<PatternChar>, options: GlobOptions) -> bool {
    match glob_compile(chars, options) {
        Ok(atoms) => r matches Ok(g) && g.atoms() == atoms && g.options() == options,
        Err(f) => r matches Err(e) && pattern_error_is(e, f, options.case_insensitive),
    }
}

fn compile_chars(chars: &[PatternChar], options: GlobOptions) -> (r: Result<CompiledGlob, PatternError>)
    ensures
        glob_outcome(r, chars@, options),
{
    match parse_sequence(chars, 0, false, options) {
        Ok((sequence, _)) => Ok(CompiledGlob { sequence, options }),
        Err(e) => Err(e),
    }
}

/// Compile a shell pattern. Variable references are expanded by `expand_var`;
/// structured parameter expansions must already have been evaluated.
pub fn compile_glob<F: Fn(&str) -> String>(rhs: &Word, options: GlobOptions, expand_var: F) -> (r: Result<
    CompiledGlob,
    PatternError,
>)
    requires
        forall|s: &str| expand_var.requires((s,)),
    ensures
        !no_expansion(rhs.parts@) ==> r matches Err(PatternError::UnexpandedParameter),
        no_expansion(rhs.parts@) ==> exists|values: Seq<Seq<char>>|
            var_values(expand_var, rhs.parts@, values) && glob_outcome(
                r,
                #[trigger] word_pattern_chars(rhs.parts@, values),
                options,
            ),
{
    let parts = &rhs.parts;
    let mut chars: Vec<PatternChar> = Vec::new();
    let ghost mut values: Seq<Seq<char>> = Seq::empty();
    let mut i: usize = 0;
    while i < parts.len()
        invariant
            parts == &rhs.parts,
            i <= parts@.len(),
            values.len() == i,
            forall|s: &str| expand_var.requires((s,)),
            forall|j: int| 0 <= j < i ==> part_value(expand_var, #[trigger] parts@[j], values[j]),
            forall|j: int| 0 <= j < i ==> !(#[trigger] parts@[j] is Expansion),
            chars@ == word_pattern_chars(parts@.take(i as int), values),
        decreases parts@.len() - i,
    {
        let ghost before = values;
        let ghost mut value: Seq<char> = Seq::empty();
        match &parts[i] {
            WordPart::Literal(text) => {
                push_marked(&mut chars, text.as_str(), true);
                proof {
                    value = text@;
                }
            },
            WordPart::Quoted(text) => {
                push_marked(&mut chars, text.as_str(), false);
                proof {
                    value = text@;
                }
            },
            WordPart::Var(name) => {
                let s: &str = name.as_str();
                let v = expand_var(s);
                assert(expands_to(expand_var, name@, v@));
                push_marked(&mut chars, v.as_str(), true);
                proof {
                    value = v@;
                }
            },
            WordPart::QuotedVar(name) => {
                let s: &str = name.as_str();
                let v = expand_var(s);
                assert(expands_to(expand_var, name@, v@));
                push_marked(&mut chars, v.as_str(), false);
                proof {
                    value = v@;
                }
            },
            WordPart::Expansion { .. } => {
                return Err(PatternError::UnexpandedParameter);
            },
        }
        proof {
            values = values.push(value);
            assert(parts@.take(i + 1).drop_last() =~= parts@.take(i as int));
            lemma_word_pattern_chars_values(parts@.take(i as int), before, values);
        }
        i = i + 1;
    }
    assert(parts@.take(i as int) =~= parts@);
    let r = compile_chars(chars.as_slice(), options);
    assert(var_values(expand_var, rhs.parts@, values));
    r
}

/// Whether a compiled pattern matches all of `input`.
pub fn matches_glob(pattern: &CompiledGlob, input: &str) -> (r: bool)
    ensures
        r == glob_matches(pattern.atoms(), input@, pattern.options().case_insensitive),
{
    pattern.is_match(input)
}

/// The regex source of an expanded `=~` right-hand side: unquoted text is
/// regex syntax, quoted text and quoted variable values are escaped.
pub open spec fn regex_word_text(parts: Seq<WordPart>, values: Seq<Seq<char>>) -> Seq<char>
    decreases parts.len(),
{
    if parts.len() == 0 {
        Seq::empty()
    } else {
        let i = parts.len() - 1;
        regex_word_text(parts.drop_last(), values) + match parts[i] {
            WordPart::Literal(t) => t@,
            WordPart::Quoted(t) => regex_escape_spec(t@),
            WordPart::Var(_) => values[i],
            WordPart::QuotedVar(_) => regex_escape_spec(values[i]),
            WordPart::Expansion { .. } => Seq::empty(),
        }
    }
}

proof fn lemma_regex_word_text_values(parts: Seq<WordPart>, v1: Seq<Seq<char>>, v2: Seq<Seq<char>>)
    requires
        forall|j: int| 0 <= j < parts.len() ==> v1[j] == v2[j],
    ensures
        regex_word_text(parts, v1) == regex_word_text(parts, v2),
    decreases parts.len(),
{
    if parts.len() > 0 {
        lemma_regex_word_text_values(parts.drop_last(), v1, v2);
    }
}

/// What compiling the regex source `text` gives.
pub open spec fn regex_outcome(r: Result<CompiledRegex, PatternError>, text: Seq<char>, nocase: bool) -> bool {
    match r {
        Ok(re) => regex_build_error(text, nocase) is None && re.source() == text && re.nocase()
            == nocase,
        Err(e) => e matches PatternError::Regex(x) && regex_build_error(text, nocase) == Some(x),
    }
}

/// Compile the RHS of `=~` into a regular expression.
pub fn compile_regex<F: Fn(&str) -> String>(rhs: &Word, nocase: bool, expand_var: F) -> (r: Result<
    CompiledRegex,
    PatternError,
>)
    requires
        forall|s: &str| expand_var.requires((s,)),
    ensures
        !no_expansion(rhs.parts@) ==> r matches Err(PatternError::UnexpandedParameter),
        no_expansion(rhs.parts@) ==> exists|values: Seq<Seq<char>>|
            var_values(expand_var, rhs.parts@, values) && regex_outcome(
                r,
                #[trigger] regex_word_text(rhs.parts@, values),
                nocase,
            ),
{
    let parts = &rhs.parts;
    let mut pattern = String::new();
    let ghost mut values: Seq<Seq<char>> = Seq::empty();
    let mut i: usize = 0;
    while i < parts.len()
        invariant
            parts == &rhs.parts,
            i <= parts@.len(),
            values.len() == i,
            forall|s: &str| expand_var.requires((s,)),
            forall|j: int| 0 <= j < i ==> part_value(expand_var, #[trigger] parts@[j], values[j]),
            forall|j: int| 0 <= j < i ==> !(#[trigger] parts@[j] is Expansion),
            pattern@ == regex_word_text(parts@.take(i as int), values),
        decreases parts@.len() - i,
    {
        let ghost before = values;
        let ghost mut value: Seq<char> = Seq::empty();
        match &parts[i] {
            WordPart::Literal(text) => {
                push_str(&mut pattern, text.as_str());
                proof {
                    value = text@;
                }
            },
            WordPart::Quoted(text) => {
                let escaped = regex_escape(text.as_str());
                push_str(&mut pattern, escaped.as_str());
                proof {
                    value = text@;
                }
            },
            WordPart::Var(name) => {
                let s: &str = name.as_str();
                let v = expand_var(s);
                assert(expands_to(expand_var, name@, v@));
                push_str(&mut pattern, v.as_str());
                proof {
                    value = v@;
                }
            },
            WordPart::QuotedVar(name) => {
                let s: &str = name.as_str();
                let v = expand_var(s);
                assert(expands_to(expand_var, name@, v@));
                let escaped = regex_escape(v.as_str());
                push_str(&mut pattern, escaped.as_str());
                proof {
                    value = v@;
                }
            },
            WordPart::Expansion { .. } => {
                return Err(PatternError::UnexpandedParameter);
            },
        }
        proof {
            values = values.push(value);
            assert(parts@.take(i + 1).drop_last() =~= parts@.take(i as int));
            lemma_regex_word_text_values(parts@.take(i as int), before, values);
        }
        i = i + 1;
    }
    assert(parts@.take(i as int) =~= parts@);
    assert(var_values(expand_var, rhs.parts@, values));
    match CompiledRegex::new(pattern.as_str(), nocase) {
        Ok(re) => Ok(re),
        Err(e) => Err(PatternError::Regex(e)),
    }
}

} // verus!
