//! What evaluating a conditional expression means: the value of words and
//! parameter expansions, and the truth of each primary, as mathematical
//! functions of the environment and the file system.

use vstd::prelude::*;

use crate::arith::{arith_eval, asks_host, decimal_text};
use crate::ast::{
    BinaryOp, CaseModifyKind, Expr, ParameterExpansion, ParameterOp, Primary, RemoveKind,
    ReplaceKind, UnaryOp, Word, WordPart,
};
use crate::env::EnvModel;
use crate::error::EvalErrorView;
use crate::fs_abs::{AccessMode, FileKind, FileStat, FsModel};
use crate::pattern::{
    GlobAtom, GlobFail, GlobOptions, PatternChar, PatternError, char_lower, char_upper,
    chars_equal_spec, glob_compile, glob_matches, marked, regex_build_error, regex_captures,
    regex_escape_spec,
};

verus! {

/// A result together with the environment after computing it.
pub type Ev<T> = (Result<T, EvalErrorView>, EnvModel);

/// An expanded piece of a pattern word: its text and whether it was quoted.
pub type Piece = (Seq<char>, bool);

/// Whether shell option `name` is on: the host's explicit value, else bash's
/// default (`patsub_replacement` on, everything else off).
pub open spec fn opt_on(m: EnvModel, name: Seq<char>) -> bool {
    option_value(name, m.option(name))
}

/// Whether shell option `name` is on, given the host's answer: an explicit
/// value is used as it is, and `None` takes bash's default
/// (`patsub_replacement` on, every other option off).
pub open spec fn option_value(name: Seq<char>, answer: Option<bool>) -> bool {
    match answer {
        Some(b) => b,
        None => name == "patsub_replacement"@,
    }
}

// ---------------------------------------------------------------------------
// Words
// ---------------------------------------------------------------------------

/// The string a word expands to.
pub open spec fn word_value(w: Word, m: EnvModel) -> Ev<Seq<char>>
    decreases w, 0int,
{
    parts_value(w.parts@, w.parts@.len() as int, m)
}

/// The expansion of the first `i` parts.
pub open spec fn parts_value(parts: Seq<WordPart>, i: int, m: EnvModel) -> Ev<Seq<char>>
    decreases parts, i,
{
    if i <= 0 || i > parts.len() {
        (Ok(Seq::empty()), m)
    } else {
        match parts_value(parts, i - 1, m) {
            (Ok(s), m1) => match part_value(parts[i - 1], m1) {
                (Ok(t), m2) => (Ok(s + t), m2),
                (Err(e), m2) => (Err(e), m2),
            },
            (Err(e), m1) => (Err(e), m1),
        }
    }
}

/// The expansion of one part.
pub open spec fn part_value(p: WordPart, m: EnvModel) -> Ev<Seq<char>>
    decreases p, 0int,
{
    match p {
        WordPart::Literal(t) => (Ok(t@), m),
        WordPart::Quoted(t) => (Ok(t@), m),
        WordPart::Var(n) => (Ok(m.value_or_empty(n@)), m),
        WordPart::QuotedVar(n) => (Ok(m.value_or_empty(n@)), m),
        WordPart::Expansion { expansion, .. } => expansion_value(expansion, m),
    }
}

/// Whether the default-value form takes its word: the parameter is unset,
/// or null when `test_null`.
pub open spec fn takes_default(value: Option<Seq<char>>, test_null: bool) -> bool {
    value is None || (test_null && value == Some(Seq::<char>::empty()))
}

/// Whether the alternate-value form takes its word: the parameter is set,
/// and non-null when `test_null`.
pub open spec fn takes_alternate(value: Option<Seq<char>>, test_null: bool) -> bool {
    value is Some && (!test_null || value != Some(Seq::<char>::empty()))
}

/// The string a parameter expansion gives.
pub open spec fn expansion_value(x: ParameterExpansion, m: EnvModel) -> Ev<Seq<char>>
    decreases x, 0int,
{
    let value = m.lookup(x.name@);
    let v = m.value_or_empty(x.name@);
    match x.op {
        ParameterOp::Length => (Ok(decimal_text(v.len() as int)), m),
        ParameterOp::DefaultValue { test_null, word } => if takes_default(value, test_null) {
            word_value(word, m)
        } else {
            (Ok(v), m)
        },
        ParameterOp::AlternateValue { test_null, word } => if takes_alternate(value, test_null) {
            word_value(word, m)
        } else {
            (Ok(Seq::empty()), m)
        },
        ParameterOp::Remove { kind, pattern } => match word_pieces(pattern, m) {
            (Ok(ps), m1) => (remove_outcome(v, kind, ps, opt_on(m1, "extglob"@)), m1),
            (Err(e), m1) => (Err(e), m1),
        },
        ParameterOp::Replace { kind, pattern, replacement } => match word_pieces(pattern, m) {
            (Ok(ps), m1) => match word_pieces(replacement, m1) {
                (Ok(rs), m2) => (
                    replace_outcome(
                        v,
                        kind,
                        ps,
                        rs,
                        opt_on(m2, "patsub_replacement"@),
                        opt_on(m2, "nocasematch"@),
                        opt_on(m2, "extglob"@),
                    ),
                    m2,
                ),
                (Err(e), m2) => (Err(e), m2),
            },
            (Err(e), m1) => (Err(e), m1),
        },
        ParameterOp::Substring { offset, length } => match word_value(offset, m) {
            (Ok(ot), m1) => match arith_eval(m1, ot, 0, ot) {
                (Ok(o), m2) => match length {
                    None => (substring_outcome(v, o as int, None), m2),
                    Some(lw) => match word_value(lw, m2) {
                        (Ok(lt), m3) => match arith_eval(m3, lt, 0, lt) {
                            (Ok(l), m4) => (substring_outcome(v, o as int, Some(l as int)), m4),
                            (Err(e), m4) => (Err(e), m4),
                        },
                        (Err(e), m3) => (Err(e), m3),
                    },
                },
                (Err(e), m2) => (Err(e), m2),
            },
            (Err(e), m1) => (Err(e), m1),
        },
        ParameterOp::CaseModify { kind, pattern } => match pattern {
            None => (case_outcome(v, kind, seq![(seq!['?'], false)]), m),
            Some(pw) => match word_pieces(pw, m) {
                (Ok(ps), m1) => (case_outcome(v, kind, case_pattern(ps)), m1),
                (Err(e), m1) => (Err(e), m1),
            },
        },
    }
}

/// A word expanded with its quoting kept: each piece is literal text or
/// quoted text.
pub open spec fn word_pieces(w: Word, m: EnvModel) -> Ev<Seq<Piece>>
    decreases w, 0int,
{
    parts_pieces(w.parts@, w.parts@.len() as int, m)
}

pub open spec fn parts_pieces(parts: Seq<WordPart>, i: int, m: EnvModel) -> Ev<Seq<Piece>>
    decreases parts, i,
{
    if i <= 0 || i > parts.len() {
        (Ok(Seq::empty()), m)
    } else {
        match parts_pieces(parts, i - 1, m) {
            (Ok(s), m1) => match part_pieces(parts[i - 1], m1) {
                (Ok(t), m2) => (Ok(s + t), m2),
                (Err(e), m2) => (Err(e), m2),
            },
            (Err(e), m1) => (Err(e), m1),
        }
    }
}

pub open spec fn part_pieces(p: WordPart, m: EnvModel) -> Ev<Seq<Piece>>
    decreases p, 0int,
{
    match p {
        WordPart::Literal(t) => (Ok(seq![(t@, false)]), m),
        WordPart::Quoted(t) => (Ok(seq![(t@, true)]), m),
        WordPart::Var(n) => (Ok(seq![(m.value_or_empty(n@), false)]), m),
        WordPart::QuotedVar(n) => (Ok(seq![(m.value_or_empty(n@), true)]), m),
        WordPart::Expansion { expansion, quoted } => match expansion_pieces(expansion, m) {
            (Ok(ps), m1) => if quoted {
                (Ok(seq![(pieces_text(ps), true)]), m1)
            } else {
                (Ok(ps), m1)
            },
            (Err(e), m1) => (Err(e), m1),
        },
    }
}

/// A parameter expansion with quoting kept: the default and alternate
/// forms keep their word's pieces; every other form is one literal piece.
pub open spec fn expansion_pieces(x: ParameterExpansion, m: EnvModel) -> Ev<Seq<Piece>>
    decreases x, 1int,
{
    let value = m.lookup(x.name@);
    match x.op {
        ParameterOp::DefaultValue { test_null, word } => if takes_default(value, test_null) {
            word_pieces(word, m)
        } else {
            (Ok(seq![(m.value_or_empty(x.name@), false)]), m)
        },
        ParameterOp::AlternateValue { test_null, word } => if takes_alternate(value, test_null) {
            word_pieces(word, m)
        } else {
            (Ok(Seq::empty()), m)
        },
        _ => match expansion_value(x, m) {
            (Ok(s), m1) => (Ok(seq![(s, false)]), m1),
            (Err(e), m1) => (Err(e), m1),
        },
    }
}

/// The text of pieces, quoting dropped.
pub open spec fn pieces_text(ps: Seq<Piece>) -> Seq<char>
    decreases ps.len(),
{
    if ps.len() == 0 {
        Seq::empty()
    } else {
        pieces_text(ps.drop_last()) + ps.last().0
    }
}

/// Whether any piece is quoted.
pub open spec fn pieces_quoted(ps: Seq<Piece>) -> bool {
    exists|i: int| 0 <= i < ps.len() && #[trigger] ps[i].1
}

/// The pattern characters of pieces: quoted text is inactive.
pub open spec fn pieces_chars(ps: Seq<Piece>) -> Seq<PatternChar>
    decreases ps.len(),
{
    if ps.len() == 0 {
        Seq::empty()
    } else {
        pieces_chars(ps.drop_last()) + marked(ps.last().0, !ps.last().1)
    }
}

/// The regex source of pieces: quoted text is escaped.
pub open spec fn pieces_regex(ps: Seq<Piece>) -> Seq<char>
    decreases ps.len(),
{
    if ps.len() == 0 {
        Seq::empty()
    } else {
        pieces_regex(ps.drop_last()) + if ps.last().1 {
            regex_escape_spec(ps.last().0)
        } else {
            ps.last().0
        }
    }
}

/// The error a failed pattern compile reports.
pub open spec fn fail_error(f: GlobFail, ci: bool) -> PatternError {
    match f {
        GlobFail::Unterminated => PatternError::UnterminatedExtglob,
        GlobFail::BadClass(source) => PatternError::Regex(regex_build_error(source, ci).unwrap()),
    }
}

// ---------------------------------------------------------------------------
// Pattern removal
// ---------------------------------------------------------------------------

/// Whether the pattern matches `v[..i]` (or `v[i..]` for a suffix).
pub open spec fn cut_matches(atoms: Seq<GlobAtom>, ci: bool, v: Seq<char>, i: int, suffix: bool) -> bool {
    if suffix {
        glob_matches(atoms, v.skip(i), ci)
    } else {
        glob_matches(atoms, v.take(i), ci)
    }
}

/// The least `i` in `from..=v.len()` at which the cut matches.
pub open spec fn first_cut_up(atoms: Seq<GlobAtom>, ci: bool, v: Seq<char>, from: int, suffix: bool) -> Option<int>
    decreases v.len() + 1 - from,
{
    if from < 0 || from > v.len() {
        None
    } else if cut_matches(atoms, ci, v, from, suffix) {
        Some(from)
    } else {
        first_cut_up(atoms, ci, v, from + 1, suffix)
    }
}

/// The greatest `i` in `0..=from` at which the cut matches.
pub open spec fn first_cut_down(atoms: Seq<GlobAtom>, ci: bool, v: Seq<char>, from: int, suffix: bool) -> Option<int>
    decreases from + 1,
{
    if from < 0 || from > v.len() {
        None
    } else if cut_matches(atoms, ci, v, from, suffix) {
        Some(from)
    } else {
        first_cut_down(atoms, ci, v, from - 1, suffix)
    }
}

/// `v` with the shortest or longest matching prefix or suffix removed.
pub open spec fn remove_result(v: Seq<char>, kind: RemoveKind, atoms: Seq<GlobAtom>, ci: bool) -> Seq<char> {
    let n = v.len() as int;
    match kind {
        RemoveKind::ShortestPrefix => match first_cut_up(atoms, ci, v, 0, false) {
            Some(i) => v.skip(i),
            None => v,
        },
        RemoveKind::LongestPrefix => match first_cut_down(atoms, ci, v, n, false) {
            Some(i) => v.skip(i),
            None => v,
        },
        RemoveKind::ShortestSuffix => match first_cut_down(atoms, ci, v, n, true) {
            Some(i) => v.take(i),
            None => v,
        },
        RemoveKind::LongestSuffix => match first_cut_up(atoms, ci, v, 0, true) {
            Some(i) => v.take(i),
            None => v,
        },
    }
}

proof fn lemma_cut_up(atoms: Seq<GlobAtom>, ci: bool, v: Seq<char>, from: int, suffix: bool)
    requires
        0 <= from,
    ensures
        match first_cut_up(atoms, ci, v, from, suffix) {
            Some(i) => from <= i <= v.len() && cut_matches(atoms, ci, v, i, suffix) && forall|j: int|
                from <= j < i ==> !#[trigger] cut_matches(atoms, ci, v, j, suffix),
            None => forall|j: int| from <= j <= v.len() ==> !#[trigger] cut_matches(atoms, ci, v, j, suffix),
        },
    decreases v.len() + 1 - from,
{
    if from <= v.len() && !cut_matches(atoms, ci, v, from, suffix) {
        lemma_cut_up(atoms, ci, v, from + 1, suffix);
    }
}

proof fn lemma_cut_down(atoms: Seq<GlobAtom>, ci: bool, v: Seq<char>, from: int, suffix: bool)
    requires
        from <= v.len(),
    ensures
        match first_cut_down(atoms, ci, v, from, suffix) {
            Some(i) => 0 <= i <= from && cut_matches(atoms, ci, v, i, suffix) && forall|j: int|
                i < j <= from ==> !#[trigger] cut_matches(atoms, ci, v, j, suffix),
            None => forall|j: int| 0 <= j <= from ==> !#[trigger] cut_matches(atoms, ci, v, j, suffix),
        },
    decreases from + 1,
{
    if from >= 0 && !cut_matches(atoms, ci, v, from, suffix) {
        lemma_cut_down(atoms, ci, v, from - 1, suffix);
    }
}

/// Prefix removal: `${v#p}` and `${v##p}` leave a suffix of `v`. What
/// `${v#p}` cut off is the shortest prefix the pattern matches, and what
/// `${v##p}` cut off the longest: no shorter (resp. longer) prefix
/// matches, so the longest removal never leaves more than the shortest.
/// When no prefix matches, `v` is left whole.
pub proof fn lemma_remove_prefix(v: Seq<char>, atoms: Seq<GlobAtom>, ci: bool)
    ensures
        ({
            let s = remove_result(v, RemoveKind::ShortestPrefix, atoms, ci);
            let l = remove_result(v, RemoveKind::LongestPrefix, atoms, ci);
            let cs = v.len() - s.len();
            let cl = v.len() - l.len();
            &&& 0 <= cl && cl >= cs && cs >= 0
            &&& s == v.skip(cs) && l == v.skip(cl)
            &&& forall|j: int| 0 <= j < cs ==> !glob_matches(atoms, #[trigger] v.take(j), ci)
            &&& forall|j: int| cl < j <= v.len() ==> !glob_matches(atoms, #[trigger] v.take(j), ci)
            &&& cs > 0 ==> glob_matches(atoms, v.take(cs), ci)
            &&& cl > 0 ==> glob_matches(atoms, v.take(cl), ci)
            &&& (forall|j: int| 0 <= j <= v.len() ==> !glob_matches(atoms, #[trigger] v.take(j), ci)) ==> s == v
                && l == v
        }),
{
    let n = v.len() as int;
    lemma_cut_up(atoms, ci, v, 0, false);
    lemma_cut_down(atoms, ci, v, n, false);
    assert(v.skip(0) =~= v);
    let cs: int = match first_cut_up(atoms, ci, v, 0, false) {
        Some(i) => i,
        None => 0,
    };
    let cl: int = match first_cut_down(atoms, ci, v, n, false) {
        Some(k) => k,
        None => 0,
    };
    let s = remove_result(v, RemoveKind::ShortestPrefix, atoms, ci);
    let l = remove_result(v, RemoveKind::LongestPrefix, atoms, ci);
    assert(s == v.skip(cs) && s.len() == n - cs);
    assert(l == v.skip(cl) && l.len() == n - cl);
    if let Some(i) = first_cut_up(atoms, ci, v, 0, false) {
        assert(cut_matches(atoms, ci, v, i, false));
        assert(first_cut_down(atoms, ci, v, n, false) is Some);
        assert(cl >= cs);
    } else {
        assert(!cut_matches(atoms, ci, v, n, false));
        assert forall|j: int| 0 <= j <= n implies !cut_matches(atoms, ci, v, j, false) by {}
        assert(first_cut_down(atoms, ci, v, n, false) is None);
    }
    assert forall|j: int| 0 <= j < cs implies !glob_matches(atoms, #[trigger] v.take(j), ci) by {
        assert(!cut_matches(atoms, ci, v, j, false));
    }
    assert forall|j: int| cl < j <= n implies !glob_matches(atoms, #[trigger] v.take(j), ci) by {
        assert(!cut_matches(atoms, ci, v, j, false));
    }
    if forall|j: int| 0 <= j <= n ==> !glob_matches(atoms, #[trigger] v.take(j), ci) {
        assert(!glob_matches(atoms, v.take(cs), ci));
        assert(!glob_matches(atoms, v.take(cl), ci));
        assert(!glob_matches(atoms, v.take(0), ci));
    }
}

/// Suffix removal: `${v%p}` and `${v%%p}` leave a prefix of `v`. What
/// `${v%p}` cut off is the shortest suffix the pattern matches, and what
/// `${v%%p}` cut off the longest: no shorter (resp. longer) suffix matches,
/// so the longest removal never leaves more than the shortest. When no
/// suffix matches, `v` is left whole.
pub proof fn lemma_remove_suffix(v: Seq<char>, atoms: Seq<GlobAtom>, ci: bool)
    ensures
        ({
            let s = remove_result(v, RemoveKind::ShortestSuffix, atoms, ci);
            let l = remove_result(v, RemoveKind::LongestSuffix, atoms, ci);
            &&& 0 <= l.len() <= s.len() <= v.len()
            &&& s == v.take(s.len() as int) && l == v.take(l.len() as int)
            &&& forall|j: int| s.len() < j <= v.len() ==> !glob_matches(atoms, #[trigger] v.skip(j), ci)
            &&& forall|j: int| 0 <= j < l.len() ==> !glob_matches(atoms, #[trigger] v.skip(j), ci)
            &&& s.len() < v.len() ==> glob_matches(atoms, v.skip(s.len() as int), ci)
            &&& l.len() < v.len() ==> glob_matches(atoms, v.skip(l.len() as int), ci)
            &&& (forall|j: int| 0 <= j <= v.len() ==> !glob_matches(atoms, #[trigger] v.skip(j), ci)) ==> s == v
                && l == v
        }),
{
    let n = v.len() as int;
    lemma_cut_up(atoms, ci, v, 0, true);
    lemma_cut_down(atoms, ci, v, n, true);
    assert(v.take(n) =~= v);
    let ks: int = match first_cut_down(atoms, ci, v, n, true) {
        Some(i) => i,
        None => n,
    };
    let kl: int = match first_cut_up(atoms, ci, v, 0, true) {
        Some(i) => i,
        None => n,
    };
    let s = remove_result(v, RemoveKind::ShortestSuffix, atoms, ci);
    let l = remove_result(v, RemoveKind::LongestSuffix, atoms, ci);
    assert(s == v.take(ks) && s.len() == ks);
    assert(l == v.take(kl) && l.len() == kl);
    if let Some(i) = first_cut_down(atoms, ci, v, n, true) {
        assert(cut_matches(atoms, ci, v, i, true));
        assert(first_cut_up(atoms, ci, v, 0, true) is Some);
        assert(kl <= ks);
    } else {
        assert(!cut_matches(atoms, ci, v, 0, true));
        assert(first_cut_up(atoms, ci, v, 0, true) is None);
    }
    assert forall|j: int| ks < j <= n implies !glob_matches(atoms, #[trigger] v.skip(j), ci) by {
        assert(!cut_matches(atoms, ci, v, j, true));
    }
    assert forall|j: int| 0 <= j < kl implies !glob_matches(atoms, #[trigger] v.skip(j), ci) by {
        assert(!cut_matches(atoms, ci, v, j, true));
    }
    if forall|j: int| 0 <= j <= n ==> !glob_matches(atoms, #[trigger] v.skip(j), ci) {
        assert(!glob_matches(atoms, v.skip(ks), ci));
        assert(!glob_matches(atoms, v.skip(kl), ci));
    }
}

/// `${name#pattern}` and friends, once the pattern is expanded: patterns
/// follow the host's `extglob` option and are case-sensitive.
pub open spec fn remove_outcome(v: Seq<char>, kind: RemoveKind, ps: Seq<Piece>, extglob: bool) -> Result<Seq<char>, EvalErrorView> {
    let options = GlobOptions { case_insensitive: false, extglob: extglob };
    match glob_compile(pieces_chars(ps), options) {
        Ok(atoms) => Ok(remove_result(v, kind, atoms, false)),
        Err(f) => Err(EvalErrorView::BadPattern(fail_error(f, false))),
    }
}

// ---------------------------------------------------------------------------
// Pattern replacement
// ---------------------------------------------------------------------------

/// `text` with every `&` replaced by `matched`.
pub open spec fn amp_subst(text: Seq<char>, matched: Seq<char>) -> Seq<char>
    decreases text.len(),
{
    if text.len() == 0 {
        Seq::empty()
    } else {
        amp_subst(text.drop_last(), matched) + if text.last() == '&' {
            matched
        } else {
            seq![text.last()]
        }
    }
}

/// The replacement text for one match: with `patsub_replacement` on, an
/// unquoted `&` stands for the matched text.
pub open spec fn render(rep: Seq<Piece>, matched: Seq<char>, patsub: bool) -> Seq<char>
    decreases rep.len(),
{
    if rep.len() == 0 {
        Seq::empty()
    } else {
        render(rep.drop_last(), matched, patsub) + if !rep.last().1 && patsub {
            amp_subst(rep.last().0, matched)
        } else {
            rep.last().0
        }
    }
}

/// The greatest `e` in `start..=end` such that the pattern matches
/// `v[start..e]`.
pub open spec fn longest_from(atoms: Seq<GlobAtom>, ci: bool, v: Seq<char>, start: int, end: int) -> Option<int>
    decreases end + 1 - start,
{
    if end < start || start < 0 || end > v.len() {
        None
    } else if glob_matches(atoms, v.subrange(start, end), ci) {
        Some(end)
    } else {
        longest_from(atoms, ci, v, start, end - 1)
    }
}

pub proof fn lemma_replace_all_step(
    atoms: Seq<GlobAtom>,
    ci: bool,
    v: Seq<char>,
    rep: Seq<Piece>,
    patsub: bool,
    pos: int,
    s: int,
    e: int,
)
    requires
        0 <= pos < v.len(),
        leftmost_longest(atoms, ci, v, pos) == Some((s, e)),
    ensures
        replace_all(atoms, ci, v, rep, patsub, pos) == v.subrange(pos, s) + render(
            rep,
            v.subrange(s, e),
            patsub,
        ) + if s == e {
            v.subrange(e, e + 1) + replace_all(atoms, ci, v, rep, patsub, e + 1)
        } else {
            replace_all(atoms, ci, v, rep, patsub, e)
        },
{
}

/// The leftmost start at or after `from` (before the end of `v`) where the
/// pattern matches, with the longest match from there.
pub open spec fn leftmost_longest(atoms: Seq<GlobAtom>, ci: bool, v: Seq<char>, from: int) -> Option<(int, int)>
    decreases v.len() - from,
{
    if from < 0 || from >= v.len() {
        None
    } else {
        match longest_from(atoms, ci, v, from, v.len() as int) {
            Some(e) => Some((from, e)),
            None => leftmost_longest(atoms, ci, v, from + 1),
        }
    }
}

pub proof fn lemma_longest_from(atoms: Seq<GlobAtom>, ci: bool, v: Seq<char>, start: int, end: int)
    ensures
        longest_from(atoms, ci, v, start, end) matches Some(e) ==> start <= e <= end,
    decreases end + 1 - start,
{
    if !(end < start || start < 0 || end > v.len()) && !glob_matches(atoms, v.subrange(start, end), ci) {
        lemma_longest_from(atoms, ci, v, start, end - 1);
    }
}

pub proof fn lemma_leftmost_longest(atoms: Seq<GlobAtom>, ci: bool, v: Seq<char>, from: int)
    ensures
        leftmost_longest(atoms, ci, v, from) matches Some((s, e)) ==> from <= s <= e <= v.len() && s < v.len(),
    decreases v.len() - from,
{
    if !(from < 0 || from >= v.len()) {
        lemma_longest_from(atoms, ci, v, from, v.len() as int);
        lemma_leftmost_longest(atoms, ci, v, from + 1);
    }
}

/// Every match from `pos` on replaced, leftmost first, each as long as
/// possible; after an empty match one character is copied before the
/// search goes on.
pub open spec fn replace_all(atoms: Seq<GlobAtom>, ci: bool, v: Seq<char>, rep: Seq<Piece>, patsub: bool, pos: int) -> Seq<char>
    decreases v.len() - pos,
{
    if pos < 0 || pos >= v.len() {
        Seq::empty()
    } else {
        match leftmost_longest(atoms, ci, v, pos) {
            None => v.skip(pos),
            Some((s, e)) => {
                proof {
                    lemma_leftmost_longest(atoms, ci, v, pos);
                }
                v.subrange(pos, s) + render(rep, v.subrange(s, e), patsub) + if s == e {
                    v.subrange(e, e + 1) + replace_all(atoms, ci, v, rep, patsub, e + 1)
                } else {
                    replace_all(atoms, ci, v, rep, patsub, e)
                }
            },
        }
    }
}

proof fn lemma_longest_from_laws(atoms: Seq<GlobAtom>, ci: bool, v: Seq<char>, start: int, end: int)
    requires
        0 <= start,
        end <= v.len(),
    ensures
        match longest_from(atoms, ci, v, start, end) {
            Some(e) => start <= e <= end && glob_matches(atoms, v.subrange(start, e), ci) && forall|k: int|
                e < k <= end ==> !glob_matches(atoms, #[trigger] v.subrange(start, k), ci),
            None => forall|k: int| start <= k <= end ==> !glob_matches(atoms, #[trigger] v.subrange(start, k), ci),
        },
    decreases end + 1 - start,
{
    if !(end < start) && !glob_matches(atoms, v.subrange(start, end), ci) {
        lemma_longest_from_laws(atoms, ci, v, start, end - 1);
    }
}

/// The match `${v/p/r}` replaces is the leftmost-longest one: it matches,
/// no match starts earlier, and none starting at the same place is longer;
/// when nothing from `from` on matches, there is none.
pub proof fn lemma_leftmost_longest_laws(atoms: Seq<GlobAtom>, ci: bool, v: Seq<char>, from: int)
    requires
        0 <= from,
    ensures
        match leftmost_longest(atoms, ci, v, from) {
            Some((s, e)) => from <= s < v.len() && s <= e <= v.len() && glob_matches(atoms, v.subrange(s, e), ci)
                && (forall|j: int, k: int|
                from <= j < s && j <= k <= v.len() ==> !glob_matches(atoms, #[trigger] v.subrange(j, k), ci))
                && (forall|k: int| e < k <= v.len() ==> !glob_matches(atoms, #[trigger] v.subrange(s, k), ci)),
            None => forall|j: int, k: int|
                from <= j < v.len() && j <= k <= v.len() ==> !glob_matches(atoms, #[trigger] v.subrange(j, k), ci),
        },
    decreases v.len() - from,
{
    if from < v.len() {
        lemma_longest_from_laws(atoms, ci, v, from, v.len() as int);
        if longest_from(atoms, ci, v, from, v.len() as int) is None {
            lemma_leftmost_longest_laws(atoms, ci, v, from + 1);
        }
    }
}

/// `${v/p/r}` replaces the leftmost-longest match of `p` and leaves the rest
/// of `v` around it; when `p` matches nowhere, `${v/p/r}` and `${v//p/r}`
/// leave `v` as it is.
pub proof fn lemma_replace_first(
    v: Seq<char>,
    ps: Seq<Piece>,
    rs: Seq<Piece>,
    patsub: bool,
    ci: bool,
    extglob: bool,
    atoms: Seq<GlobAtom>,
    s: int,
    e: int,
)
    requires
        pieces_text(ps).len() > 0,
        glob_compile(pieces_chars(ps), GlobOptions { case_insensitive: ci, extglob: extglob }) == Ok::<
            Seq<GlobAtom>,
            crate::pattern::GlobFail,
        >(atoms),
    ensures
        0 <= s < v.len() && s <= e <= v.len() && glob_matches(atoms, v.subrange(s, e), ci) && (forall|
            j: int,
            k: int,
        | 0 <= j < s && j <= k <= v.len() ==> !glob_matches(atoms, #[trigger] v.subrange(j, k), ci)) && (forall|
            k: int,
        | e < k <= v.len() ==> !glob_matches(atoms, #[trigger] v.subrange(s, k), ci)) ==> replace_outcome(
            v,
            ReplaceKind::First,
            ps,
            rs,
            patsub,
            ci,
            extglob,
        ) == Ok::<Seq<char>, EvalErrorView>(v.take(s) + render(rs, v.subrange(s, e), patsub) + v.skip(e)),
        (forall|j: int, k: int|
            0 <= j < v.len() && j <= k <= v.len() ==> !glob_matches(atoms, #[trigger] v.subrange(j, k), ci))
            ==> replace_outcome(v, ReplaceKind::First, ps, rs, patsub, ci, extglob) == Ok::<
            Seq<char>,
            EvalErrorView,
        >(v) && replace_outcome(v, ReplaceKind::All, ps, rs, patsub, ci, extglob) == Ok::<
            Seq<char>,
            EvalErrorView,
        >(v),
{
    lemma_leftmost_longest_laws(atoms, ci, v, 0);
    match leftmost_longest(atoms, ci, v, 0) {
        Some((s1, e1)) => {
            if 0 <= s < v.len() && s <= e <= v.len() && glob_matches(atoms, v.subrange(s, e), ci) && (forall|
                j: int,
                k: int,
            | 0 <= j < s && j <= k <= v.len() ==> !glob_matches(atoms, #[trigger] v.subrange(j, k), ci)) && (
            forall|k: int| e < k <= v.len() ==> !glob_matches(atoms, #[trigger] v.subrange(s, k), ci)) {
                if s1 < s {
                    assert(!glob_matches(atoms, v.subrange(s1, e1), ci));
                }
                if s < s1 {
                    assert(!glob_matches(atoms, v.subrange(s, e), ci));
                }
                assert(s1 == s);
                if e1 > e {
                    assert(!glob_matches(atoms, v.subrange(s, e1), ci));
                }
                if e > e1 {
                    assert(!glob_matches(atoms, v.subrange(s1, e), ci));
                }
            }
            if forall|j: int, k: int|
                0 <= j < v.len() && j <= k <= v.len() ==> !glob_matches(atoms, #[trigger] v.subrange(j, k), ci) {
                assert(!glob_matches(atoms, v.subrange(s1, e1), ci));
            }
        },
        None => {
            if v.len() > 0 {
                assert(v.skip(0) =~= v);
            } else {
                assert(v =~= Seq::<char>::empty());
            }
        },
    }
    if v.len() == 0 {
        assert(v =~= Seq::<char>::empty());
    }
}

/// `${name/pattern/replacement}` and friends, once pattern and replacement
/// are expanded, under the host's `patsub_replacement`, `nocasematch` and
/// `extglob` options. An empty pattern replaces nothing, except that the
/// anchored forms still insert the replacement at their edge.
pub open spec fn replace_outcome(
    v: Seq<char>,
    kind: ReplaceKind,
    ps: Seq<Piece>,
    rs: Seq<Piece>,
    patsub: bool,
    ci: bool,
    extglob: bool,
) -> Result<Seq<char>, EvalErrorView> {
    let options = GlobOptions { case_insensitive: ci, extglob: extglob };
    let n = v.len() as int;
    if pieces_text(ps).len() == 0 {
        Ok(
            match kind {
                ReplaceKind::Prefix => render(rs, Seq::empty(), patsub) + v,
                ReplaceKind::Suffix => v + render(rs, Seq::empty(), patsub),
                _ => v,
            },
        )
    } else {
        match glob_compile(pieces_chars(ps), options) {
            Err(f) => Err(EvalErrorView::BadPattern(fail_error(f, ci))),
            Ok(atoms) => Ok(
                match kind {
                    ReplaceKind::Prefix => if n == 0 {
                        v
                    } else {
                        match longest_from(atoms, ci, v, 0, n) {
                            Some(e) => render(rs, v.take(e), patsub) + v.skip(e),
                            None => v,
                        }
                    },
                    ReplaceKind::Suffix => match first_cut_up(atoms, ci, v, 0, true) {
                        Some(s) => v.take(s) + render(rs, v.skip(s), patsub),
                        None => v,
                    },
                    ReplaceKind::First => match leftmost_longest(atoms, ci, v, 0) {
                        Some((s, e)) => v.take(s) + render(rs, v.subrange(s, e), patsub) + v.skip(
                            e,
                        ),
                        None => v,
                    },
                    ReplaceKind::All => replace_all(atoms, ci, v, rs, patsub, 0),
                },
            ),
        }
    }
}

// ---------------------------------------------------------------------------
// Substrings and case modification
// ---------------------------------------------------------------------------

/// `${name:offset[:length]}` once offset and length are evaluated: a
/// negative offset counts from the end, a negative length stops that far
/// from the end.
pub open spec fn substring_outcome(v: Seq<char>, offset: int, length: Option<int>) -> Result<Seq<char>, EvalErrorView> {
    let count = v.len() as int;
    let start = if offset < 0 {
        count + offset
    } else {
        offset
    };
    if start < 0 || start > count {
        Ok(Seq::empty())
    } else {
        let end = match length {
            None => count,
            Some(l) => if l >= 0 {
                if start + l < count {
                    start + l
                } else {
                    count
                }
            } else {
                count + l
            },
        };
        if end < start {
            Err(EvalErrorView::InvalidArith("substring expression < 0"@))
        } else {
            Ok(v.subrange(start, end))
        }
    }
}

/// The pattern a case modification uses: an unquoted empty pattern means
/// `?`, every character.
pub open spec fn case_pattern(ps: Seq<Piece>) -> Seq<Piece> {
    if pieces_text(ps).len() == 0 && !pieces_quoted(ps) {
        seq![(seq!['?'], false)]
    } else {
        ps
    }
}

/// The first `k` characters of `v` with case modified where the pattern
/// matches (every character when `all`, else only the first).
pub open spec fn case_chars(v: Seq<char>, k: int, atoms: Seq<GlobAtom>, all: bool, upper: bool) -> Seq<char>
    decreases k,
{
    if k <= 0 || k > v.len() {
        Seq::empty()
    } else {
        let c = v[k - 1];
        case_chars(v, k - 1, atoms, all, upper) + if (all || k - 1 == 0) && glob_matches(
            atoms,
            seq![c],
            false,
        ) {
            if upper {
                char_upper(c)
            } else {
                char_lower(c)
            }
        } else {
            seq![c]
        }
    }
}

/// `${name^pattern}` and friends: patterns always allow extended globs and
/// are case-sensitive.
pub open spec fn case_outcome(v: Seq<char>, kind: CaseModifyKind, ps: Seq<Piece>) -> Result<Seq<char>, EvalErrorView> {
    let options = GlobOptions { case_insensitive: false, extglob: true };
    let all = kind == CaseModifyKind::UpperAll || kind == CaseModifyKind::LowerAll;
    let upper = kind == CaseModifyKind::UpperFirst || kind == CaseModifyKind::UpperAll;
    match glob_compile(pieces_chars(ps), options) {
        Ok(atoms) => Ok(case_chars(v, v.len() as int, atoms, all, upper)),
        Err(f) => Err(EvalErrorView::BadPattern(fail_error(f, false))),
    }
}

proof fn lemma_case_chars_first(v: Seq<char>, k: int, atoms: Seq<GlobAtom>, upper: bool)
    requires
        1 <= k <= v.len(),
    ensures
        case_chars(v, k, atoms, false, upper) == case_chars(v, 1, atoms, false, upper) + v.subrange(1, k),
    decreases k,
{
    if k > 1 {
        lemma_case_chars_first(v, k - 1, atoms, upper);
        assert(v.subrange(1, k) =~= v.subrange(1, k - 1) + seq![v[k - 1]]);
        assert(case_chars(v, 1, atoms, false, upper) + v.subrange(1, k) =~= case_chars(v, 1, atoms, false, upper)
            + v.subrange(1, k - 1) + seq![v[k - 1]]);
    } else {
        assert(v.subrange(1, 1) =~= Seq::<char>::empty());
        assert(case_chars(v, 1, atoms, false, upper) + Seq::<char>::empty() =~= case_chars(v, 1, atoms, false, upper));
    }
}

/// `${v^pattern}` and `${v,pattern}` change at most the first character:
/// whatever the pattern, the value after its first character follows
/// unchanged.
pub proof fn lemma_case_first_only(v: Seq<char>, kind: CaseModifyKind, ps: Seq<Piece>)
    requires
        v.len() >= 1,
        kind == CaseModifyKind::UpperFirst || kind == CaseModifyKind::LowerFirst,
    ensures
        case_outcome(v, kind, ps) matches Ok(t) ==> t.len() >= v.len() - 1 && t.subrange(
            t.len() - (v.len() - 1),
            t.len() as int,
        ) == v.subrange(1, v.len() as int),
{
    let options = GlobOptions { case_insensitive: false, extglob: true };
    if let Ok(atoms) = glob_compile(pieces_chars(ps), options) {
        let upper = kind == CaseModifyKind::UpperFirst;
        lemma_case_chars_first(v, v.len() as int, atoms, upper);
        let h = case_chars(v, 1, atoms, false, upper);
        let t = h + v.subrange(1, v.len() as int);
        assert(t.subrange(t.len() - (v.len() - 1), t.len() as int) =~= v.subrange(1, v.len() as int));
    }
}

/// `${v:offset}` and `${v:offset:length}` count characters from 0: a
/// non-negative offset within the value skips that many characters, and a
/// non-negative length keeps at most that many after them; a negative
/// offset counts back from the end, exactly like the offset that many
/// characters before the end; an offset past either end gives nothing.
pub proof fn lemma_substring_laws(v: Seq<char>, offset: int, length: Option<int>, l: int, k: int)
    ensures
        0 <= offset <= v.len() ==> substring_outcome(v, offset, None) == Ok::<Seq<char>, EvalErrorView>(
            v.skip(offset),
        ),
        0 <= offset <= v.len() && l >= 0 ==> (substring_outcome(v, offset, Some(l)) matches Ok(t)
            && t.len() == (if l < v.len() - offset { l } else { v.len() - offset }) && t == v.skip(
            offset,
        ).take(t.len() as int)),
        1 <= k <= v.len() ==> substring_outcome(v, -k, length) == substring_outcome(v, v.len() - k, length),
        offset > v.len() ==> substring_outcome(v, offset, length) == Ok::<Seq<char>, EvalErrorView>(
            Seq::empty(),
        ),
        k > v.len() ==> substring_outcome(v, -k, length) == Ok::<Seq<char>, EvalErrorView>(Seq::empty()),
{
    if 0 <= offset <= v.len() {
        assert(v.subrange(offset, v.len() as int) =~= v.skip(offset));
        if l >= 0 {
            let end = if offset + l < v.len() { offset + l } else { v.len() as int };
            assert(v.subrange(offset, end) =~= v.skip(offset).take(end - offset));
        }
    }
}

proof fn lemma_case_chars_all(v: Seq<char>, w: Seq<char>, k: int, atoms: Seq<GlobAtom>, upper: bool)
    requires
        0 <= k <= w.len(),
    ensures
        case_chars(v + w, v.len() + k, atoms, true, upper) == case_chars(v, v.len() as int, atoms, true, upper)
            + case_chars(w, k, atoms, true, upper),
    decreases k,
{
    if k == 0 {
        lemma_case_chars_prefix(v, w, v.len() as int, atoms, upper);
        assert(case_chars(v, v.len() as int, atoms, true, upper) + Seq::<char>::empty() =~= case_chars(
            v,
            v.len() as int,
            atoms,
            true,
            upper,
        ));
    } else {
        lemma_case_chars_all(v, w, k - 1, atoms, upper);
        assert((v + w)[v.len() + k - 1] == w[k - 1]);
        assert(case_chars(v, v.len() as int, atoms, true, upper) + case_chars(w, k, atoms, true, upper)
            =~= case_chars(v, v.len() as int, atoms, true, upper) + case_chars(w, k - 1, atoms, true, upper)
            + (if glob_matches(atoms, seq![w[k - 1]], false) {
            if upper {
                char_upper(w[k - 1])
            } else {
                char_lower(w[k - 1])
            }
        } else {
            seq![w[k - 1]]
        }));
    }
}

proof fn lemma_case_chars_prefix(v: Seq<char>, w: Seq<char>, k: int, atoms: Seq<GlobAtom>, upper: bool)
    requires
        0 <= k <= v.len(),
    ensures
        case_chars(v + w, k, atoms, true, upper) == case_chars(v, k, atoms, true, upper),
    decreases k,
{
    if k > 0 {
        lemma_case_chars_prefix(v, w, k - 1, atoms, upper);
        assert((v + w)[k - 1] == v[k - 1]);
    }
}

/// `${v^^pattern}` and `${v,,pattern}` work character by character: the
/// result for a value made of two parts is the results for the parts, one
/// after the other.
pub proof fn lemma_case_all_by_characters(v: Seq<char>, w: Seq<char>, kind: CaseModifyKind, ps: Seq<Piece>)
    requires
        kind == CaseModifyKind::UpperAll || kind == CaseModifyKind::LowerAll,
    ensures
        case_outcome(v + w, kind, ps) matches Ok(t) ==> case_outcome(v, kind, ps) matches Ok(a)
            && case_outcome(w, kind, ps) matches Ok(b) && t == a + b,
{
    let options = GlobOptions { case_insensitive: false, extglob: true };
    if let Ok(atoms) = glob_compile(pieces_chars(ps), options) {
        lemma_case_chars_all(v, w, w.len() as int, atoms, kind == CaseModifyKind::UpperAll);
    }
}

// ---------------------------------------------------------------------------
// Primaries
// ---------------------------------------------------------------------------

/// The status of a path following symlinks; an empty path never exists.
pub open spec fn stat_of(f: FsModel, path: Seq<char>) -> Option<FileStat> {
    if path.len() == 0 {
        None
    } else {
        (f.stat)(path)
    }
}

/// The status of a path without following symlinks.
pub open spec fn lstat_of(f: FsModel, path: Seq<char>) -> Option<FileStat> {
    if path.len() == 0 {
        None
    } else {
        (f.lstat)(path)
    }
}

/// Whether the time `a` (seconds, nanoseconds) is after `b`.
pub open spec fn time_after(a: (i64, i64), b: (i64, i64)) -> bool {
    a.0 > b.0 || (a.0 == b.0 && a.1 > b.1)
}

proof fn lemma_nat_digits_value(k: nat)
    ensures
        crate::arith::nat_digits(k).len() >= 1,
        all_digits(crate::arith::nat_digits(k)),
        digits_value(crate::arith::nat_digits(k)) == k,
        '0' <= crate::arith::nat_digits(k)[0] <= '9',
    decreases k,
{
    let d = crate::arith::nat_digits(k);
    if k < 10 {
        assert(((48 + k) as char) as int == 48 + k);
        assert('0' as int == 48);
        assert(d.drop_last() =~= Seq::<char>::empty());
        assert(digits_value(d) == digits_value(d.drop_last()) * 10 + (d.last() as int - '0' as int));
    } else {
        let q = k / 10;
        let r = k % 10;
        lemma_nat_digits_value(q);
        let dq = crate::arith::nat_digits(q);
        assert(((48 + r) as char) as int == 48 + r);
        assert('0' as int == 48);
        assert(d.drop_last() =~= dq);
        assert(d.last() == (48 + r) as char);
        assert(k == q * 10 + r);
        assert(digits_value(d) == digits_value(d.drop_last()) * 10 + (d.last() as int - '0' as int));
        assert(d[0] == dq[0]);
        assert forall|i: int| 0 <= i < d.len() implies '0' <= #[trigger] d[i] <= '9' by {
            if i < dq.len() {
                assert(d[i] == dq[i]);
            }
        }
    }
}

/// Reading the decimal text of a number back gives the number: `-t` reads
/// a descriptor written the way `${#x}` and arithmetic assignment write
/// numbers, with or without a leading `+` on a non-negative one.
pub proof fn lemma_decimal_round_trip(n: i32)
    ensures
        parse_i32(crate::arith::decimal_text(n as int)) == Some(n),
        n >= 0 ==> parse_i32(seq!['+'] + crate::arith::decimal_text(n as int)) == Some(n),
{
    if n < 0 {
        let k = (-n) as nat;
        lemma_nat_digits_value(k);
        let t = crate::arith::decimal_text(n as int);
        assert(t.skip(1) =~= crate::arith::nat_digits(k));
    } else {
        let k = n as nat;
        lemma_nat_digits_value(k);
        let t = crate::arith::decimal_text(n as int);
        assert((seq!['+'] + t).skip(1) =~= t);
    }
}

/// `${#name}` is the number of characters of the value (0 when unset),
/// written in decimal: reading its text back gives that count.
pub proof fn lemma_length_expansion(x: ParameterExpansion, m: EnvModel)
    requires
        x.op is Length,
    ensures
        expansion_value(x, m).1 == m,
        expansion_value(x, m).0 matches Ok(t) && all_digits(t) && t.len() >= 1 && digits_value(t)
            == m.value_or_empty(x.name@).len(),
{
    lemma_nat_digits_value(m.value_or_empty(x.name@).len());
}

/// Whether a stat succeeded and found the given file type.
pub open spec fn kind_is(s: Option<FileStat>, k: FileKind) -> bool {
    s matches Some(st) && st.kind == k
}

/// Whether a stat succeeded and has a mode bit of `mask` set.
pub open spec fn mode_bit(s: Option<FileStat>, mask: u32) -> bool {
    s matches Some(st) && st.mode & mask != 0
}

/// Whether every character is an ASCII digit.
pub open spec fn all_digits(s: Seq<char>) -> bool {
    forall|i: int| 0 <= i < s.len() ==> '0' <= #[trigger] s[i] <= '9'
}

/// The number written by decimal digits.
pub open spec fn digits_value(s: Seq<char>) -> int
    decreases s.len(),
{
    if s.len() == 0 {
        0
    } else {
        digits_value(s.drop_last()) * 10 + (s.last() as int - '0' as int)
    }
}

/// A number's text after its optional sign.
pub open spec fn unsigned_part(s: Seq<char>) -> Seq<char> {
    if s.len() > 0 && (s[0] == '-' || s[0] == '+') {
        s.skip(1)
    } else {
        s
    }
}

/// The `i32` a string denotes (`str::parse::<i32>`): an optional sign, then
/// one or more decimal digits, in range.
pub open spec fn parse_i32(s: Seq<char>) -> Option<i32> {
    let neg = s.len() > 0 && s[0] == '-';
    let body = unsigned_part(s);
    let v = if neg {
        -digits_value(body)
    } else {
        digits_value(body)
    };
    if body.len() == 0 || !all_digits(body) || v < i32::MIN || v > i32::MAX {
        None
    } else {
        Some(v as i32)
    }
}

/// The first index at or after `i` where `c` occurs in `s`.
pub open spec fn index_of_from(s: Seq<char>, c: char, i: int) -> Option<int>
    decreases s.len() - i,
{
    if i < 0 || i >= s.len() {
        None
    } else if s[i] == c {
        Some(i)
    } else {
        index_of_from(s, c, i + 1)
    }
}

proof fn lemma_index_of_from(s: Seq<char>, c: char, i: int, k: int)
    requires
        0 <= i <= k <= s.len(),
        forall|j: int| i <= j < k ==> #[trigger] s[j] != c,
    ensures
        k < s.len() && s[k] == c ==> index_of_from(s, c, i) == Some(k),
        k == s.len() ==> index_of_from(s, c, i) is None,
    decreases k - i,
{
    if i < k {
        lemma_index_of_from(s, c, i + 1, k);
    }
}

/// `-v name[subscript]` asks the host about element `subscript` of `name`
/// (split at the first `[`, so the subscript may itself hold brackets), and
/// `-v name` without a `[` about the scalar `name`.
pub proof fn lemma_var_target(name: Seq<char>, sub: Seq<char>)
    requires
        !name.contains('['),
    ensures
        var_target(name + seq!['['] + sub + seq![']']) == Some((name, sub)),
        var_target(name) is None,
{
    let raw = name + seq!['['] + sub + seq![']'];
    assert forall|j: int| 0 <= j < name.len() implies #[trigger] raw[j] != '[' by {
        assert(raw[j] == name[j]);
    }
    lemma_index_of_from(raw, '[', 0, name.len() as int);
    assert(raw[name.len() as int] == '[');
    assert(raw.take(name.len() as int) =~= name);
    assert(raw.subrange(name.len() + 1int, raw.len() - 1int) =~= sub);
    lemma_index_of_from(name, '[', 0, name.len() as int);
}

/// `-v`: `name[subscript]` asks for an array element; a bare name is set
/// when it is a set scalar or its element `0` is set.
pub open spec fn var_set(m: EnvModel, raw: Seq<char>) -> bool {
    match var_target(raw) {
        Some((name, subscript)) => m.element_set(name, subscript),
        None => m.lookup(raw) is Some || m.element_set(raw, seq!['0']),
    }
}

/// The array element `-v raw` asks the host about, when `raw` has the form
/// `name[subscript]`; otherwise the host is asked for the scalar `raw` and
/// its element `0`.
pub open spec fn var_target(raw: Seq<char>) -> Option<(Seq<char>, Seq<char>)> {
    match index_of_from(raw, '[', 0) {
        Some(open) => if raw.len() > 0 && raw.last() == ']' {
            Some((raw.take(open), raw.subrange(open + 1, raw.len() - 1)))
        } else {
            None
        },
        None => None,
    }
}

/// The truth of a unary primary on the expanded argument.
pub open spec fn unary_outcome(op: UnaryOp, arg: Seq<char>, m: EnvModel, f: FsModel) -> Result<bool, EvalErrorView> {
    let st = stat_of(f, arg);
    match op {
        UnaryOp::FileExists => Ok(st is Some),
        UnaryOp::FileRegular => Ok(kind_is(st, FileKind::Regular)),
        UnaryOp::FileDir => Ok(kind_is(st, FileKind::Directory)),
        UnaryOp::FileBlock => Ok(kind_is(st, FileKind::BlockDevice)),
        UnaryOp::FileChar => Ok(kind_is(st, FileKind::CharDevice)),
        UnaryOp::FileSymlink => Ok(kind_is(lstat_of(f, arg), FileKind::Symlink)),
        UnaryOp::FileNamedPipe => Ok(kind_is(st, FileKind::NamedPipe)),
        UnaryOp::FileSocket => Ok(kind_is(st, FileKind::Socket)),
        UnaryOp::FileReadable => Ok(arg.len() > 0 && (f.access)(arg, AccessMode::Read)),
        UnaryOp::FileWritable => Ok(arg.len() > 0 && (f.access)(arg, AccessMode::Write)),
        UnaryOp::FileExecutable => Ok(arg.len() > 0 && (f.access)(arg, AccessMode::Execute)),
        UnaryOp::FileNonEmpty => Ok(st matches Some(s) && s.size > 0),
        UnaryOp::FileSetUid => Ok(mode_bit(st, 0o4000u32)),
        UnaryOp::FileSetGid => Ok(mode_bit(st, 0o2000u32)),
        UnaryOp::FileSticky => Ok(mode_bit(st, 0o1000u32)),
        UnaryOp::FileOwnedByUid => Ok(st matches Some(s) && s.uid == f.euid),
        UnaryOp::FileOwnedByGid => Ok(st matches Some(s) && s.gid == f.egid),
        UnaryOp::FileNewerThanAccess => Ok(st matches Some(s) && time_after(s.mtime, s.atime)),
        UnaryOp::FdIsTty => match parse_i32(arg) {
            Some(fd) => Ok((f.tty)(fd)),
            None => Err(EvalErrorView::InvalidFd(arg)),
        },
        UnaryOp::StringEmpty => Ok(arg.len() == 0),
        UnaryOp::StringNonEmpty => Ok(arg.len() > 0),
        UnaryOp::VarSet => Ok(var_set(m, arg)),
        UnaryOp::VarIsNameRef => Ok((m.namerefs)(arg)),
        UnaryOp::ShellOptSet => Ok(opt_on(m, arg)),
    }
}

/// Whether a unary operator consults the file system.
pub open spec fn unary_uses_fs(op: UnaryOp) -> bool {
    !(op == UnaryOp::StringEmpty || op == UnaryOp::StringNonEmpty || op == UnaryOp::VarSet || op
        == UnaryOp::VarIsNameRef || op == UnaryOp::ShellOptSet)
}

/// Whether a binary operator consults the file system.
pub open spec fn binary_uses_fs(op: BinaryOp) -> bool {
    op == BinaryOp::FileSameInode || op == BinaryOp::FileNewer || op == BinaryOp::FileOlder
}

/// Lexicographic order of character sequences by code point, which is the
/// byte order of their UTF-8 encodings.
pub open spec fn text_less(a: Seq<char>, b: Seq<char>) -> bool
    decreases a.len(),
{
    if b.len() == 0 {
        false
    } else if a.len() == 0 {
        true
    } else if a[0] != b[0] {
        (a[0] as u32) < (b[0] as u32)
    } else {
        text_less(a.skip(1), b.skip(1))
    }
}

/// `<` on strings is a strict total order that puts a proper prefix first:
/// no string is before itself, of two different strings exactly one comes
/// first, and a string comes before every longer string that starts with it.
pub proof fn lemma_text_order(a: Seq<char>, b: Seq<char>)
    ensures
        !text_less(a, a),
        a != b ==> (text_less(a, b) != text_less(b, a)),
        !(text_less(a, b) && text_less(b, a)),
        b.len() > 0 ==> text_less(a, a + b),
        b.len() > 0 ==> !text_less(a + b, a),
    decreases a.len(),
{
    if a.len() > 0 {
        lemma_text_order(a.skip(1), a.skip(1));
        if b.len() > 0 {
            if a[0] == b[0] {
                lemma_text_order(a.skip(1), b.skip(1));
                if a != b {
                    assert(a.skip(1) != b.skip(1)) by {
                        if a.skip(1) == b.skip(1) {
                            assert(a =~= seq![a[0]] + a.skip(1));
                            assert(b =~= seq![b[0]] + b.skip(1));
                        }
                    }
                }
            } else {
                vstd::utf8::char_u32_cast(a[0], a[0] as u32);
                vstd::utf8::char_u32_cast(b[0], b[0] as u32);
                assert((a[0] as u32) != (b[0] as u32));
            }
            assert((a + b).skip(1) =~= a.skip(1) + b);
            assert((a + b)[0] == a[0]);
            lemma_text_order(a.skip(1), b);
        }
    } else {
        if b.len() > 0 {
            assert(a + b =~= b);
        }
        if a != b {
            assert(b.len() > 0) by {
                if b.len() == 0 {
                    assert(a =~= b);
                }
            }
        }
    }
}

/// The result of comparing two integers with an arithmetic operator.
pub open spec fn arith_compare(op: BinaryOp, a: i64, b: i64) -> bool {
    match op {
        BinaryOp::ArithEq => a == b,
        BinaryOp::ArithNe => a != b,
        BinaryOp::ArithLt => a < b,
        BinaryOp::ArithLe => a <= b,
        BinaryOp::ArithGt => a > b,
        _ => a >= b,
    }
}

/// The truth of a binary primary.
pub open spec fn binary_outcome(op: BinaryOp, lhs: Word, rhs: Word, m: EnvModel, f: FsModel) -> Ev<bool> {
    match word_value(lhs, m) {
        (Err(e), m1) => (Err(e), m1),
        (Ok(l), m1) => match op {
            BinaryOp::GlobMatch | BinaryOp::GlobNotMatch => match word_pieces(rhs, m1) {
                (Err(e), m2) => (Err(e), m2),
                (Ok(ps), m2) => {
                    let ci = opt_on(m2, "nocasematch"@);
                    match glob_compile(pieces_chars(ps), GlobOptions { case_insensitive: ci, extglob: true }) {
                        Err(g) => (Err(EvalErrorView::BadPattern(fail_error(g, ci))), m2),
                        Ok(atoms) => (
                            Ok(
                                if op == BinaryOp::GlobMatch {
                                    glob_matches(atoms, l, ci)
                                } else {
                                    !glob_matches(atoms, l, ci)
                                },
                            ),
                            m2,
                        ),
                    }
                },
            },
            BinaryOp::RegexMatch => match word_pieces(rhs, m1) {
                (Err(e), m2) => (Err(e), m2),
                (Ok(ps), m2) => {
                    let nocase = opt_on(m2, "nocasematch"@);
                    let source = pieces_regex(ps);
                    match regex_build_error(source, nocase) {
                        Some(x) => (Err(EvalErrorView::BadRegex(x)), m2),
                        None => match regex_captures(source, nocase, l) {
                            Some(g) => (Ok(true), m2.rematched(g)),
                            None => (Ok(false), m2),
                        },
                    }
                },
            },
            BinaryOp::ArithEq | BinaryOp::ArithNe | BinaryOp::ArithLt | BinaryOp::ArithLe
            | BinaryOp::ArithGt | BinaryOp::ArithGe => match arith_eval(m1, l, 0, l) {
                (Err(e), m2) => (Err(e), m2),
                (Ok(a), m2) => match word_value(rhs, m2) {
                    (Err(e), m3) => (Err(e), m3),
                    (Ok(r), m3) => match arith_eval(m3, r, 0, r) {
                        (Err(e), m4) => (Err(e), m4),
                        (Ok(b), m4) => (Ok(arith_compare(op, a, b)), m4),
                    },
                },
            },
            _ => match word_value(rhs, m1) {
                (Err(e), m2) => (Err(e), m2),
                (Ok(r), m2) => (
                    Ok(
                        match op {
                            BinaryOp::FileSameInode | BinaryOp::FileNewer | BinaryOp::FileOlder =>
                                file_compare(op, stat_of(f, l), stat_of(f, r)),
                            BinaryOp::StrLt => text_less(l, r),
                            _ => text_less(r, l),
                        },
                    ),
                    m2,
                ),
            },
        },
    }
}

/// The truth of a primary.
pub open spec fn primary_outcome(p: Primary, m: EnvModel, f: FsModel) -> Ev<bool> {
    match p {
        Primary::Unary { op, arg } => match word_value(arg, m) {
            (Ok(a), m1) => (unary_outcome(op, a, m1, f), m1),
            (Err(e), m1) => (Err(e), m1),
        },
        Primary::Binary { op, lhs, rhs } => binary_outcome(op, lhs, rhs, m, f),
        Primary::StringNonEmpty(w) => match word_value(w, m) {
            (Ok(a), m1) => (Ok(a.len() > 0), m1),
            (Err(e), m1) => (Err(e), m1),
        },
    }
}

/// The truth of an expression; `&&` and `||` evaluate their right side
/// only when the left side does not decide.
pub open spec fn expr_outcome(e: Expr, m: EnvModel, f: FsModel) -> Ev<bool>
    decreases e,
{
    match e {
        Expr::And(l, r) => match expr_outcome(*l, m, f) {
            (Ok(true), m1) => expr_outcome(*r, m1, f),
            other => other,
        },
        Expr::Or(l, r) => match expr_outcome(*l, m, f) {
            (Ok(false), m1) => expr_outcome(*r, m1, f),
            other => other,
        },
        Expr::Not(x) => match expr_outcome(*x, m, f) {
            (Ok(b), m1) => (Ok(!b), m1),
            other => other,
        },
        Expr::Primary(p) => primary_outcome(p, m, f),
    }
}

/// Whether an expression holds a primary that consults the file system.
pub open spec fn uses_fs(e: Expr) -> bool
    decreases e,
{
    match e {
        Expr::And(l, r) => uses_fs(*l) || uses_fs(*r),
        Expr::Or(l, r) => uses_fs(*l) || uses_fs(*r),
        Expr::Not(x) => uses_fs(*x),
        Expr::Primary(p) => match p {
            Primary::Unary { op, .. } => unary_uses_fs(op),
            Primary::Binary { op, .. } => binary_uses_fs(op),
            Primary::StringNonEmpty(_) => false,
        },
    }
}

// ---------------------------------------------------------------------------
// Meaning under any file system
// ---------------------------------------------------------------------------

/// What a file system answered for one primary: the status of the (left)
/// operand (without following a symlink, for `-h`), the status of the right
/// operand of a file comparison, the access check, the effective user or
/// group id, and the terminal check.
pub struct FsAnswers {
    pub stat: Option<FileStat>,
    pub other: Option<FileStat>,
    pub access: bool,
    pub id: u32,
    pub tty: bool,
}

/// The status a file primary sees for `path`: none for an empty path
/// (the file system is not asked), else what it answered.
pub open spec fn seen(path: Seq<char>, answer: Option<FileStat>) -> Option<FileStat> {
    if path.len() == 0 {
        None
    } else {
        answer
    }
}

/// A unary test on `arg`, with the file system's answers `w`.
pub open spec fn unary_outcome_obs(op: UnaryOp, arg: Seq<char>, m: EnvModel, w: FsAnswers) -> Result<
    bool,
    EvalErrorView,
> {
    let st = seen(arg, w.stat);
    match op {
        UnaryOp::FileExists => Ok(st is Some),
        UnaryOp::FileRegular => Ok(kind_is(st, FileKind::Regular)),
        UnaryOp::FileDir => Ok(kind_is(st, FileKind::Directory)),
        UnaryOp::FileBlock => Ok(kind_is(st, FileKind::BlockDevice)),
        UnaryOp::FileChar => Ok(kind_is(st, FileKind::CharDevice)),
        UnaryOp::FileSymlink => Ok(kind_is(st, FileKind::Symlink)),
        UnaryOp::FileNamedPipe => Ok(kind_is(st, FileKind::NamedPipe)),
        UnaryOp::FileSocket => Ok(kind_is(st, FileKind::Socket)),
        UnaryOp::FileReadable => Ok(arg.len() > 0 && w.access),
        UnaryOp::FileWritable => Ok(arg.len() > 0 && w.access),
        UnaryOp::FileExecutable => Ok(arg.len() > 0 && w.access),
        UnaryOp::FileNonEmpty => Ok(st matches Some(s) && s.size > 0),
        UnaryOp::FileSetUid => Ok(mode_bit(st, 0o4000u32)),
        UnaryOp::FileSetGid => Ok(mode_bit(st, 0o2000u32)),
        UnaryOp::FileSticky => Ok(mode_bit(st, 0o1000u32)),
        UnaryOp::FileOwnedByUid => Ok(st matches Some(s) && s.uid == w.id),
        UnaryOp::FileOwnedByGid => Ok(st matches Some(s) && s.gid == w.id),
        UnaryOp::FileNewerThanAccess => Ok(st matches Some(s) && time_after(s.mtime, s.atime)),
        UnaryOp::FdIsTty => match parse_i32(arg) {
            Some(_) => Ok(w.tty),
            None => Err(EvalErrorView::InvalidFd(arg)),
        },
        UnaryOp::StringEmpty => Ok(arg.len() == 0),
        UnaryOp::StringNonEmpty => Ok(arg.len() > 0),
        UnaryOp::VarSet => Ok(var_set(m, arg)),
        UnaryOp::VarIsNameRef => Ok((m.namerefs)(arg)),
        UnaryOp::ShellOptSet => Ok(opt_on(m, arg)),
    }
}

/// The truth of a file comparison between statuses `a` and `b`.
pub open spec fn file_compare(op: BinaryOp, a: Option<FileStat>, b: Option<FileStat>) -> bool {
    match op {
        BinaryOp::FileSameInode => a matches Some(x) && b matches Some(y) && x.dev == y.dev && x.ino
            == y.ino,
        BinaryOp::FileNewer => match (a, b) {
            (Some(_), None) => true,
            (Some(x), Some(y)) => time_after(x.mtime, y.mtime),
            _ => false,
        },
        _ => match (a, b) {
            (None, Some(_)) => true,
            (Some(x), Some(y)) => time_after(y.mtime, x.mtime),
            _ => false,
        },
    }
}

/// A file system that has nothing: the file system a primary that does not
/// consult one is evaluated against.
pub open spec fn no_fs() -> FsModel {
    FsModel {
        stat: |p: Seq<char>| None,
        lstat: |p: Seq<char>| None,
        access: |p: Seq<char>, a: AccessMode| false,
        tty: |fd: i32| false,
        euid: 0,
        egid: 0,
    }
}

/// A binary test, with the file system's answers `w`.
pub open spec fn binary_outcome_obs(op: BinaryOp, lhs: Word, rhs: Word, m: EnvModel, w: FsAnswers) -> Ev<
    bool,
> {
    if binary_uses_fs(op) {
        match word_value(lhs, m) {
            (Err(e), m1) => (Err(e), m1),
            (Ok(l), m1) => match word_value(rhs, m1) {
                (Err(e), m2) => (Err(e), m2),
                (Ok(r), m2) => (Ok(file_compare(op, seen(l, w.stat), seen(r, w.other))), m2),
            },
        }
    } else {
        binary_outcome(op, lhs, rhs, m, no_fs())
    }
}

/// A primary, with the file system's answers `w`.
pub open spec fn primary_outcome_obs(p: Primary, m: EnvModel, w: FsAnswers) -> Ev<bool> {
    match p {
        Primary::Unary { op, arg } => match word_value(arg, m) {
            (Ok(a), m1) => (unary_outcome_obs(op, a, m1, w), m1),
            (Err(e), m1) => (Err(e), m1),
        },
        Primary::Binary { op, lhs, rhs } => binary_outcome_obs(op, lhs, rhs, m, w),
        Primary::StringNonEmpty(w0) => match word_value(w0, m) {
            (Ok(a), m1) => (Ok(a.len() > 0), m1),
            (Err(e), m1) => (Err(e), m1),
        },
    }
}

/// The answers for the primaries below child `k` of an expression node:
/// each primary is named by its path from the root.
pub open spec fn child(o: spec_fn(Seq<int>) -> FsAnswers, k: int) -> spec_fn(Seq<int>) -> FsAnswers {
    |p: Seq<int>| o(seq![k] + p)
}

/// The truth of an expression under any file system: `o` gives, for each
/// primary by its path, what the file system answered there. Everything
/// but those answers — expansion, errors, the environment left behind,
/// short-circuiting, and file tests on empty paths — is fixed.
pub open spec fn expr_outcome_obs(e: Expr, m: EnvModel, o: spec_fn(Seq<int>) -> FsAnswers) -> Ev<bool>
    decreases e,
{
    match e {
        Expr::And(l, r) => match expr_outcome_obs(*l, m, child(o, 0)) {
            (Ok(true), m1) => expr_outcome_obs(*r, m1, child(o, 1)),
            other => other,
        },
        Expr::Or(l, r) => match expr_outcome_obs(*l, m, child(o, 0)) {
            (Ok(false), m1) => expr_outcome_obs(*r, m1, child(o, 1)),
            other => other,
        },
        Expr::Not(x) => match expr_outcome_obs(*x, m, child(o, 0)) {
            (Ok(b), m1) => (Ok(!b), m1),
            other => other,
        },
        Expr::Primary(p) => primary_outcome_obs(p, m, o(Seq::empty())),
    }
}

/// Answers for an `&&`/`||` node made of the answers of its two sides.
pub open spec fn join(l: spec_fn(Seq<int>) -> FsAnswers, r: spec_fn(Seq<int>) -> FsAnswers) -> spec_fn(
    Seq<int>,
) -> FsAnswers {
    |p: Seq<int>| if p.len() > 0 && p[0] == 0 {
        l(p.drop_first())
    } else {
        r(p.drop_first())
    }
}

pub proof fn lemma_join(l: spec_fn(Seq<int>) -> FsAnswers, r: spec_fn(Seq<int>) -> FsAnswers)
    ensures
        child(join(l, r), 0) == l,
        child(join(l, r), 1) == r,
{
    assert forall|p: Seq<int>| #[trigger] child(join(l, r), 0)(p) == l(p) by {
        assert((seq![0int] + p).drop_first() =~= p);
    }
    assert forall|p: Seq<int>| #[trigger] child(join(l, r), 1)(p) == r(p) by {
        assert((seq![1int] + p).drop_first() =~= p);
    }
    assert(child(join(l, r), 0) =~= l);
    assert(child(join(l, r), 1) =~= r);
}

/// A binary test that does not consult the file system means the same
/// whatever the file system.
pub proof fn lemma_binary_fs_free(op: BinaryOp, lhs: Word, rhs: Word, m: EnvModel, f: FsModel, g: FsModel)
    requires
        !binary_uses_fs(op),
    ensures
        binary_outcome(op, lhs, rhs, m, f) == binary_outcome(op, lhs, rhs, m, g),
{
}

/// `&&` short-circuits whatever the file system answers.
pub proof fn lemma_and_short_circuits_any_fs(l: Expr, r: Expr, m: EnvModel, o: spec_fn(Seq<int>) -> FsAnswers)
    requires
        !(expr_outcome_obs(l, m, child(o, 0)).0 matches Ok(true)),
    ensures
        expr_outcome_obs(Expr::And(Box::new(l), Box::new(r)), m, o) == expr_outcome_obs(l, m, child(o, 0)),
{
}

/// `||` short-circuits whatever the file system answers.
pub proof fn lemma_or_short_circuits_any_fs(l: Expr, r: Expr, m: EnvModel, o: spec_fn(Seq<int>) -> FsAnswers)
    requires
        !(expr_outcome_obs(l, m, child(o, 0)).0 matches Ok(false)),
    ensures
        expr_outcome_obs(Expr::Or(Box::new(l), Box::new(r)), m, o) == expr_outcome_obs(l, m, child(o, 0)),
{
}

/// `!` negates the result and keeps the effects, whatever the file system
/// answers; so `! ! e` means `e`.
pub proof fn lemma_not_negates_any_fs(e: Expr, m: EnvModel, o: spec_fn(Seq<int>) -> FsAnswers)
    ensures
        expr_outcome_obs(Expr::Not(Box::new(e)), m, o) == (match expr_outcome_obs(e, m, child(o, 0)) {
            (Ok(b), m1) => (Ok::<bool, EvalErrorView>(!b), m1),
            other => other,
        }),
        expr_outcome_obs(Expr::Not(Box::new(Expr::Not(Box::new(e)))), m, o) == expr_outcome_obs(
            e,
            m,
            child(child(o, 0), 0),
        ),
{
    let inner = Expr::Not(Box::new(e));
    assert(expr_outcome_obs(inner, m, child(o, 0)) == (match expr_outcome_obs(e, m, child(child(o, 0), 0)) {
        (Ok(b), m1) => (Ok::<bool, EvalErrorView>(!b), m1),
        other => other,
    }));
}

/// File tests on an empty path are false, whatever the file system: it is
/// not asked.
pub proof fn lemma_empty_path_file_tests(op: UnaryOp, m: EnvModel, w: FsAnswers)
    requires
        unary_uses_fs(op),
        op != UnaryOp::FdIsTty,
    ensures
        unary_outcome_obs(op, Seq::empty(), m, w) == Ok::<bool, EvalErrorView>(false),
{
}

// ---------------------------------------------------------------------------
// Meaning under any host
// ---------------------------------------------------------------------------

/// An environment with shell option `name` explicitly set to `b`.
pub open spec fn with_option(m: EnvModel, name: Seq<char>, b: bool) -> EnvModel {
    EnvModel { options: m.options.insert(name, b), ..m }
}

/// A word made only of literal and quoted text expands to the same text
/// under every environment and leaves the environment as it was: no host
/// is asked.
pub proof fn lemma_plain_parts(parts: Seq<WordPart>, i: int, m: EnvModel)
    requires
        crate::pattern::fully_expanded(parts),
        0 <= i <= parts.len(),
    ensures
        parts_value(parts, i, m) == (parts_value(parts, i, arbitrary()).0, m),
        parts_value(parts, i, m).0 is Ok,
        parts_pieces(parts, i, m) == (parts_pieces(parts, i, arbitrary()).0, m),
        parts_pieces(parts, i, m).0 is Ok,
    decreases i,
{
    if i > 0 {
        lemma_plain_parts(parts, i - 1, m);
        lemma_plain_parts(parts, i - 1, arbitrary());
        assert(parts[i - 1] is Literal || parts[i - 1] is Quoted);
        let a: EnvModel = arbitrary();
        assert(part_value(parts[i - 1], m).1 == m && part_value(parts[i - 1], m).0 is Ok);
        assert(part_value(parts[i - 1], a).1 == a);
        assert(part_value(parts[i - 1], m).0 == part_value(parts[i - 1], a).0);
        assert(part_pieces(parts[i - 1], m).1 == m && part_pieces(parts[i - 1], m).0 is Ok);
        assert(part_pieces(parts[i - 1], a).1 == a);
        assert(part_pieces(parts[i - 1], m).0 == part_pieces(parts[i - 1], a).0);
    }
}

/// A word of plain text expands, under any environment, to the text it
/// expands to under every other, and leaves the environment as it was.
pub proof fn lemma_plain_word(w: Word)
    requires
        crate::pattern::fully_expanded(w.parts@),
    ensures
        forall|m: EnvModel| #[trigger] word_value(w, m) == (word_value(w, arbitrary()).0, m),
        forall|m: EnvModel| (#[trigger] word_value(w, m)).0 is Ok,
        forall|m: EnvModel| #[trigger] word_pieces(w, m) == (word_pieces(w, arbitrary()).0, m),
        forall|m: EnvModel| (#[trigger] word_pieces(w, m)).0 is Ok,
{
    assert forall|m: EnvModel| #[trigger] word_value(w, m) == (word_value(w, arbitrary()).0, m)
        && word_value(w, m).0 is Ok by {
        lemma_plain_parts(w.parts@, w.parts@.len() as int, m);
    }
    assert forall|m: EnvModel| #[trigger] word_pieces(w, m) == (word_pieces(w, arbitrary()).0, m)
        && word_pieces(w, m).0 is Ok by {
        lemma_plain_parts(w.parts@, w.parts@.len() as int, m);
    }
}

/// The text a word of plain text expands to.
pub open spec fn plain_text(w: Word) -> Seq<char> {
    match word_value(w, arbitrary()).0 {
        Ok(t) => t,
        Err(_) => Seq::empty(),
    }
}

/// Which unary tests ask the environment for their answer.
pub open spec fn env_unary(op: UnaryOp) -> bool {
    op == UnaryOp::VarSet || op == UnaryOp::VarIsNameRef || op == UnaryOp::ShellOptSet
}

/// Which binary tests read their operands as arithmetic.
pub open spec fn arith_binary(op: BinaryOp) -> bool {
    op == BinaryOp::ArithEq || op == BinaryOp::ArithNe || op == BinaryOp::ArithLt || op
        == BinaryOp::ArithLe || op == BinaryOp::ArithGt || op == BinaryOp::ArithGe
}

/// Whether the operands of a binary primary are plain text, and, for an
/// arithmetic comparison, text that names no variable: the primary then
/// asks the host nothing for its operands.
pub open spec fn plain_operands(op: BinaryOp, lhs: Word, rhs: Word) -> bool {
    crate::pattern::fully_expanded(lhs.parts@) && crate::pattern::fully_expanded(rhs.parts@) && (
    arith_binary(op) ==> !asks_host(plain_text(lhs)) && !asks_host(plain_text(rhs)))
}

/// What a primary may evaluate to under any host, environment and file
/// system alike. For operands of plain text (no variable or expansion, so
/// the environment is not read for them) the primary means what
/// [`primary_outcome_obs`] says for some shell options and some file-system
/// answers: string tests, `-t`, file tests (false on an empty path), file
/// comparisons, byte-wise `<`/`>`, `==`/`!=` (extended globs always on),
/// `=~`, and arithmetic comparisons whose operands name no variable are
/// all fixed but for those answers. `-v`, `-R` and `-o` on plain
/// text succeed with the host's answer.
pub open spec fn possible_primary(p: Primary, res: Result<bool, EvalErrorView>) -> bool {
    match p {
        Primary::StringNonEmpty(w) => crate::pattern::fully_expanded(w.parts@) ==> res
            == primary_outcome_obs(p, arbitrary(), arbitrary()).0,
        Primary::Unary { op, arg } => crate::pattern::fully_expanded(arg.parts@) ==> if env_unary(op) {
            res is Ok
        } else {
            exists|w: FsAnswers| res == #[trigger] primary_outcome_obs(p, arbitrary(), w).0
        },
        Primary::Binary { op, lhs, rhs } => plain_operands(op, lhs, rhs) ==> exists|
            m: EnvModel,
            w: FsAnswers,
        | res == #[trigger] primary_outcome_obs(p, m, w).0,
    }
}

/// The answers below child `k` of an expression node.
pub open spec fn below<A>(o: spec_fn(Seq<int>) -> A, k: int) -> spec_fn(Seq<int>) -> A {
    |p: Seq<int>| o(seq![k] + p)
}

/// Answers for a node made of the answers of its two children.
pub open spec fn join2<A>(l: spec_fn(Seq<int>) -> A, r: spec_fn(Seq<int>) -> A) -> spec_fn(Seq<int>) -> A {
    |p: Seq<int>| if p.len() > 0 && p[0] == 0 {
        l(p.drop_first())
    } else {
        r(p.drop_first())
    }
}

pub proof fn lemma_join2<A>(l: spec_fn(Seq<int>) -> A, r: spec_fn(Seq<int>) -> A)
    ensures
        below(join2(l, r), 0) == l,
        below(join2(l, r), 1) == r,
{
    assert forall|p: Seq<int>| #[trigger] below(join2(l, r), 0)(p) == l(p) by {
        assert((seq![0int] + p).drop_first() =~= p);
    }
    assert forall|p: Seq<int>| #[trigger] below(join2(l, r), 1)(p) == r(p) by {
        assert((seq![1int] + p).drop_first() =~= p);
    }
    assert(below(join2(l, r), 0) =~= l);
    assert(below(join2(l, r), 1) =~= r);
}

/// The truth of an expression whose primaries, by path, gave `o`:
/// `&&` and `||` consult their right side only when the left does not
/// decide, and `!` negates.
pub open spec fn tree_outcome(e: Expr, o: spec_fn(Seq<int>) -> Result<bool, EvalErrorView>) -> Result<
    bool,
    EvalErrorView,
>
    decreases e,
{
    match e {
        Expr::And(l, r) => match tree_outcome(*l, below(o, 0)) {
            Ok(true) => tree_outcome(*r, below(o, 1)),
            other => other,
        },
        Expr::Or(l, r) => match tree_outcome(*l, below(o, 0)) {
            Ok(false) => tree_outcome(*r, below(o, 1)),
            other => other,
        },
        Expr::Not(x) => match tree_outcome(*x, below(o, 0)) {
            Ok(b) => Ok(!b),
            other => other,
        },
        Expr::Primary(_) => o(Seq::empty()),
    }
}

/// Every primary that the evaluation reaches gave a possible result.
pub open spec fn tree_possible(e: Expr, o: spec_fn(Seq<int>) -> Result<bool, EvalErrorView>) -> bool
    decreases e,
{
    match e {
        Expr::And(l, r) => tree_possible(*l, below(o, 0)) && (tree_outcome(*l, below(o, 0)) == Ok::<
            bool,
            EvalErrorView,
        >(true) ==> tree_possible(*r, below(o, 1))),
        Expr::Or(l, r) => tree_possible(*l, below(o, 0)) && (tree_outcome(*l, below(o, 0)) == Ok::<
            bool,
            EvalErrorView,
        >(false) ==> tree_possible(*r, below(o, 1))),
        Expr::Not(x) => tree_possible(*x, below(o, 0)),
        Expr::Primary(p) => possible_primary(p, o(Seq::empty())),
    }
}

/// Whether a primary asks the host nothing: its operands are plain text
/// and it is a string test, a byte-wise comparison, or an arithmetic
/// comparison of text that names no variable.
pub open spec fn host_free_primary(p: Primary) -> bool {
    match p {
        Primary::StringNonEmpty(w) => crate::pattern::fully_expanded(w.parts@),
        Primary::Unary { op, arg } => crate::pattern::fully_expanded(arg.parts@) && (op
            == UnaryOp::StringEmpty || op == UnaryOp::StringNonEmpty),
        Primary::Binary { op, lhs, rhs } => crate::pattern::fully_expanded(lhs.parts@)
            && crate::pattern::fully_expanded(rhs.parts@) && (op == BinaryOp::StrLt || op
            == BinaryOp::StrGt || (arith_binary(op) && !asks_host(plain_text(lhs)) && !asks_host(
            plain_text(rhs),
        ))),
    }
}

/// Whether an expression asks the host nothing: every primary in it does not.
pub open spec fn host_free(e: Expr) -> bool
    decreases e,
{
    match e {
        Expr::And(l, r) => host_free(*l) && host_free(*r),
        Expr::Or(l, r) => host_free(*l) && host_free(*r),
        Expr::Not(x) => host_free(*x),
        Expr::Primary(p) => host_free_primary(p),
    }
}

/// A primary that asks the host nothing has one possible outcome: its
/// outcome under every environment and file system, which it leaves as
/// they were.
pub proof fn lemma_host_free_primary(p: Primary, res: Result<bool, EvalErrorView>, m: EnvModel, f: FsModel)
    requires
        host_free_primary(p),
        possible_primary(p, res),
    ensures
        primary_outcome(p, m, f) == (res, m),
{
    match p {
        Primary::StringNonEmpty(w) => {
            lemma_plain_word(w);
        },
        Primary::Unary { op, arg } => {
            lemma_plain_word(arg);
            let w = choose|w: FsAnswers| res == #[trigger] primary_outcome_obs(p, arbitrary(), w).0;
            assert(res == primary_outcome_obs(p, arbitrary(), w).0);
        },
        Primary::Binary { op, lhs, rhs } => {
            lemma_plain_word(lhs);
            lemma_plain_word(rhs);
            let (m1, w) = choose|m1: EnvModel, w: FsAnswers| res == #[trigger] primary_outcome_obs(p, m1, w).0;
            assert(res == primary_outcome_obs(p, m1, w).0);
            if arith_binary(op) {
                let l = plain_text(lhs);
                let r = plain_text(rhs);
                crate::arith::lemma_host_free(m, l);
                crate::arith::lemma_host_free(m1, l);
                crate::arith::lemma_host_free(m, r);
                crate::arith::lemma_host_free(m1, r);
            }
        },
    }
}

/// An expression that asks the host nothing means what [`expr_outcome`]
/// says under every environment and file system, whatever answers were
/// possible at its primaries.
pub proof fn lemma_host_free_expr(e: Expr, o: spec_fn(Seq<int>) -> Result<bool, EvalErrorView>, m: EnvModel, f: FsModel)
    requires
        host_free(e),
        tree_possible(e, o),
    ensures
        expr_outcome(e, m, f) == (tree_outcome(e, o), m),
    decreases e,
{
    match e {
        Expr::And(l, r) => {
            lemma_host_free_expr(*l, below(o, 0), m, f);
            if tree_outcome(*l, below(o, 0)) == Ok::<bool, EvalErrorView>(true) {
                lemma_host_free_expr(*r, below(o, 1), m, f);
            }
        },
        Expr::Or(l, r) => {
            lemma_host_free_expr(*l, below(o, 0), m, f);
            if tree_outcome(*l, below(o, 0)) == Ok::<bool, EvalErrorView>(false) {
                lemma_host_free_expr(*r, below(o, 1), m, f);
            }
        },
        Expr::Not(x) => {
            lemma_host_free_expr(*x, below(o, 0), m, f);
        },
        Expr::Primary(p) => {
            lemma_host_free_primary(p, o(Seq::empty()), m, f);
        },
    }
}

/// `&&` short-circuits under any host.
pub proof fn lemma_and_short_circuits_any_host(
    l: Expr,
    r: Expr,
    o: spec_fn(Seq<int>) -> Result<bool, EvalErrorView>,
)
    requires
        tree_outcome(l, below(o, 0)) != Ok::<bool, EvalErrorView>(true),
    ensures
        tree_outcome(Expr::And(Box::new(l), Box::new(r)), o) == tree_outcome(l, below(o, 0)),
        tree_possible(Expr::And(Box::new(l), Box::new(r)), o) == tree_possible(l, below(o, 0)),
{
}

/// `||` short-circuits under any host.
pub proof fn lemma_or_short_circuits_any_host(
    l: Expr,
    r: Expr,
    o: spec_fn(Seq<int>) -> Result<bool, EvalErrorView>,
)
    requires
        tree_outcome(l, below(o, 0)) != Ok::<bool, EvalErrorView>(false),
    ensures
        tree_outcome(Expr::Or(Box::new(l), Box::new(r)), o) == tree_outcome(l, below(o, 0)),
        tree_possible(Expr::Or(Box::new(l), Box::new(r)), o) == tree_possible(l, below(o, 0)),
{
}

/// `!` negates under any host; `! ! e` means `e`.
pub proof fn lemma_not_negates_any_host(e: Expr, o: spec_fn(Seq<int>) -> Result<bool, EvalErrorView>)
    ensures
        tree_outcome(Expr::Not(Box::new(Expr::Not(Box::new(e)))), o) == tree_outcome(e, below(below(o, 0), 0)),
{
    let inner = Expr::Not(Box::new(e));
    assert(tree_outcome(inner, below(o, 0)) == (match tree_outcome(e, below(below(o, 0), 0)) {
        Ok(b) => Ok::<bool, EvalErrorView>(!b),
        other => other,
    }));
}

/// Whether the time `a` (seconds, nanoseconds) is strictly later than `b`.
pub open spec fn strictly_later(a: (i64, i64), b: (i64, i64)) -> bool {
    a.0 > b.0 || (a.0 == b.0 && a.1 > b.1)
}

/// `-N path` is true exactly when `path` can be stat'ed and the file was
/// modified strictly after it was last read; a file read after (or at the
/// same instant as) its last change is not new. The same holds whatever the
/// file system answered.
pub proof fn lemma_newer_than_access(arg: Seq<char>, m: EnvModel, f: FsModel, w: FsAnswers)
    ensures
        unary_outcome(UnaryOp::FileNewerThanAccess, arg, m, f) == Ok::<bool, EvalErrorView>(
            match stat_of(f, arg) {
                Some(s) => strictly_later(s.mtime, s.atime),
                None => false,
            },
        ),
        unary_outcome_obs(UnaryOp::FileNewerThanAccess, arg, m, w) == Ok::<bool, EvalErrorView>(
            match seen(arg, w.stat) {
                Some(s) => strictly_later(s.mtime, s.atime),
                None => false,
            },
        ),
        stat_of(f, arg) matches Some(s) && !strictly_later(s.mtime, s.atime) ==> unary_outcome(
            UnaryOp::FileNewerThanAccess,
            arg,
            m,
            f,
        ) == Ok::<bool, EvalErrorView>(false),
{
}

/// The file comparisons: `a -ot b` is `b -nt a`; `-ef` is symmetric; a file
/// that exists is newer than one that does not; of two existing files the
/// one modified strictly later is newer, and neither is newer than the other
/// when they were modified at the same instant.
pub proof fn lemma_file_comparisons(a: Option<FileStat>, b: Option<FileStat>)
    ensures
        file_compare(BinaryOp::FileOlder, a, b) == file_compare(BinaryOp::FileNewer, b, a),
        file_compare(BinaryOp::FileSameInode, a, b) == file_compare(BinaryOp::FileSameInode, b, a),
        a is Some && b is None ==> file_compare(BinaryOp::FileNewer, a, b),
        a is None ==> !file_compare(BinaryOp::FileNewer, a, b) && !file_compare(BinaryOp::FileSameInode, a, b),
        a is Some && b is Some ==> (file_compare(BinaryOp::FileNewer, a, b) == strictly_later(
            a->0.mtime,
            b->0.mtime,
        )),
        a is Some && b is Some && a->0.mtime == b->0.mtime ==> !file_compare(BinaryOp::FileNewer, a, b)
            && !file_compare(BinaryOp::FileOlder, a, b),
        a is Some ==> file_compare(BinaryOp::FileSameInode, a, a),
{
}

/// The default-value and alternate-value forms split every parameter
/// between them: `${x-w}` takes its word exactly when `${x+w}` does not
/// (and likewise for `:-` and `:+`); an unset parameter always takes the
/// default, a set non-empty one always the alternate, and a set empty one
/// takes the default only when null counts (the `:` forms).
pub proof fn lemma_default_alternate_split(value: Option<Seq<char>>, test_null: bool)
    ensures
        takes_alternate(value, test_null) == !takes_default(value, test_null),
        value is None ==> takes_default(value, test_null),
        value matches Some(v) && v.len() > 0 ==> takes_alternate(value, test_null),
        value == Some(Seq::<char>::empty()) ==> (takes_default(value, test_null) == test_null),
{
    if let Some(v) = value {
        if v.len() > 0 {
            assert(v != Seq::<char>::empty());
        }
    }
}

/// The arithmetic comparisons of `[[ ]]`: `-gt` is `-lt` with its operands
/// swapped, `-ge` is `-le` swapped, `-ne` is the negation of `-eq`, `-ge`
/// of `-lt`, and `-le` is `-lt` or `-eq`.
pub proof fn lemma_arith_comparisons(a: i64, b: i64)
    ensures
        arith_compare(BinaryOp::ArithGt, a, b) == arith_compare(BinaryOp::ArithLt, b, a),
        arith_compare(BinaryOp::ArithGe, a, b) == arith_compare(BinaryOp::ArithLe, b, a),
        arith_compare(BinaryOp::ArithNe, a, b) == !arith_compare(BinaryOp::ArithEq, a, b),
        arith_compare(BinaryOp::ArithGe, a, b) == !arith_compare(BinaryOp::ArithLt, a, b),
        arith_compare(BinaryOp::ArithLe, a, b) == (arith_compare(BinaryOp::ArithLt, a, b)
            || arith_compare(BinaryOp::ArithEq, a, b)),
        arith_compare(BinaryOp::ArithEq, a, b) == (a == b),
        arith_compare(BinaryOp::ArithLt, a, b) == (a < b),
{
}

/// The file tests, over what a stat of the path found: `-e` that it exists;
/// `-f`, `-d`, `-b`, `-c`, `-p`, `-S` its type; `-s` a size above zero; `-u`,
/// `-g`, `-k` the set-user-id (4000), set-group-id (2000) and sticky (1000)
/// mode bits; `-O`, `-G` ownership by the effective user or group; `-r`,
/// `-w`, `-x` the access answer for a non-empty path; `-z` and `-n` are
/// each other's negation. Every file test of an empty path is false.
pub proof fn lemma_file_tests(arg: Seq<char>, m: EnvModel, f: FsModel)
    ensures
        unary_outcome(UnaryOp::FileExists, arg, m, f) == Ok::<bool, EvalErrorView>(stat_of(f, arg) is Some),
        unary_outcome(UnaryOp::FileRegular, arg, m, f) == Ok::<bool, EvalErrorView>(
            stat_of(f, arg) matches Some(s) && s.kind == FileKind::Regular,
        ),
        unary_outcome(UnaryOp::FileDir, arg, m, f) == Ok::<bool, EvalErrorView>(
            stat_of(f, arg) matches Some(s) && s.kind == FileKind::Directory,
        ),
        unary_outcome(UnaryOp::FileSymlink, arg, m, f) == Ok::<bool, EvalErrorView>(
            arg.len() > 0 && ((f.lstat)(arg) matches Some(s) && s.kind == FileKind::Symlink),
        ),
        unary_outcome(UnaryOp::FileNonEmpty, arg, m, f) == Ok::<bool, EvalErrorView>(
            stat_of(f, arg) matches Some(s) && s.size >= 1,
        ),
        unary_outcome(UnaryOp::FileSetUid, arg, m, f) == Ok::<bool, EvalErrorView>(
            stat_of(f, arg) matches Some(s) && (s.mode / 2048) % 2 == 1,
        ),
        unary_outcome(UnaryOp::FileSetGid, arg, m, f) == Ok::<bool, EvalErrorView>(
            stat_of(f, arg) matches Some(s) && (s.mode / 1024) % 2 == 1,
        ),
        unary_outcome(UnaryOp::FileSticky, arg, m, f) == Ok::<bool, EvalErrorView>(
            stat_of(f, arg) matches Some(s) && (s.mode / 512) % 2 == 1,
        ),
        unary_outcome(UnaryOp::FileOwnedByUid, arg, m, f) == Ok::<bool, EvalErrorView>(
            stat_of(f, arg) matches Some(s) && s.uid == f.euid,
        ),
        unary_outcome(UnaryOp::FileOwnedByGid, arg, m, f) == Ok::<bool, EvalErrorView>(
            stat_of(f, arg) matches Some(s) && s.gid == f.egid,
        ),
        unary_outcome(UnaryOp::FileReadable, arg, m, f) == Ok::<bool, EvalErrorView>(
            arg.len() > 0 && (f.access)(arg, AccessMode::Read),
        ),
        unary_outcome(UnaryOp::FileWritable, arg, m, f) == Ok::<bool, EvalErrorView>(
            arg.len() > 0 && (f.access)(arg, AccessMode::Write),
        ),
        unary_outcome(UnaryOp::FileExecutable, arg, m, f) == Ok::<bool, EvalErrorView>(
            arg.len() > 0 && (f.access)(arg, AccessMode::Execute),
        ),
        unary_outcome(UnaryOp::StringEmpty, arg, m, f) == Ok::<bool, EvalErrorView>(arg.len() == 0),
        unary_outcome(UnaryOp::StringNonEmpty, arg, m, f) == Ok::<bool, EvalErrorView>(arg.len() != 0),
{
    if let Some(s) = stat_of(f, arg) {
        let md = s.mode;
        assert((md & 0o4000u32 != 0) == ((md / 2048) % 2 == 1)) by (bit_vector);
        assert((md & 0o2000u32 != 0) == ((md / 1024) % 2 == 1)) by (bit_vector);
        assert((md & 0o1000u32 != 0) == ((md / 512) % 2 == 1)) by (bit_vector);
    }
}

// ---------------------------------------------------------------------------
// Laws of evaluation
// ---------------------------------------------------------------------------

/// `&&` short-circuits: when its left side does not evaluate to true, the
/// right side is never evaluated — the outcome, environment included, is
/// the left side's.
pub proof fn lemma_and_short_circuits(l: Expr, r: Expr, m: EnvModel, f: FsModel)
    requires
        !(expr_outcome(l, m, f).0 matches Ok(true)),
    ensures
        expr_outcome(Expr::And(Box::new(l), Box::new(r)), m, f) == expr_outcome(l, m, f),
{
}

/// `||` short-circuits: when its left side does not evaluate to false, the
/// right side is never evaluated — the outcome, environment included, is
/// the left side's.
pub proof fn lemma_or_short_circuits(l: Expr, r: Expr, m: EnvModel, f: FsModel)
    requires
        !(expr_outcome(l, m, f).0 matches Ok(false)),
    ensures
        expr_outcome(Expr::Or(Box::new(l), Box::new(r)), m, f) == expr_outcome(l, m, f),
{
}

/// A bare word means `-n word`: both test that the expanded word is
/// non-empty, with the same effects on the environment.
pub proof fn lemma_bare_word_means_nonempty(w: Word, m: EnvModel, f: FsModel)
    ensures
        expr_outcome(Expr::Primary(Primary::StringNonEmpty(w)), m, f) == expr_outcome(
            Expr::Primary(Primary::Unary { op: UnaryOp::StringNonEmpty, arg: w }),
            m,
            f,
        ),
{
}

/// Shell options: an explicit host value is used as it is; an option the
/// host leaves unset takes bash's default — `patsub_replacement` on,
/// `extglob` and `nocasematch` off.
pub proof fn lemma_option_defaults(name: Seq<char>, answer: Option<bool>)
    ensures
        answer matches Some(b) ==> option_value(name, answer) == b,
        option_value("patsub_replacement"@, None),
        !option_value("extglob"@, None),
        !option_value("nocasematch"@, None),
{
    reveal_strlit("patsub_replacement");
    reveal_strlit("extglob");
    reveal_strlit("nocasematch");
    assert("extglob"@ != "patsub_replacement"@) by {
        assert("extglob"@.len() != "patsub_replacement"@.len());
    }
    assert("nocasematch"@ != "patsub_replacement"@) by {
        assert("nocasematch"@.len() != "patsub_replacement"@.len());
    }
}

/// `!=` is the negation of `==`: the same expansion, the same pattern (with
/// extended globs always on), the same errors, the opposite answer.
pub proof fn lemma_not_match_negates_match(lhs: Word, rhs: Word, m: EnvModel, f: FsModel)
    ensures
        binary_outcome(BinaryOp::GlobNotMatch, lhs, rhs, m, f) == (match binary_outcome(
            BinaryOp::GlobMatch,
            lhs,
            rhs,
            m,
            f,
        ) {
            (Ok(b), m1) => (Ok::<bool, EvalErrorView>(!b), m1),
            other => other,
        }),
{
}

/// An expression without file tests means the same whatever the file
/// system: its outcome under any answers is its outcome under any model.
pub proof fn lemma_fs_free_expr(e: Expr, m: EnvModel, o: spec_fn(Seq<int>) -> FsAnswers, f: FsModel)
    requires
        !uses_fs(e),
    ensures
        expr_outcome_obs(e, m, o) == expr_outcome(e, m, f),
    decreases e,
{
    match e {
        Expr::And(l, r) => {
            lemma_fs_free_expr(*l, m, child(o, 0), f);
            let m1 = expr_outcome(*l, m, f).1;
            lemma_fs_free_expr(*r, m1, child(o, 1), f);
        },
        Expr::Or(l, r) => {
            lemma_fs_free_expr(*l, m, child(o, 0), f);
            let m1 = expr_outcome(*l, m, f).1;
            lemma_fs_free_expr(*r, m1, child(o, 1), f);
        },
        Expr::Not(x) => {
            lemma_fs_free_expr(*x, m, child(o, 0), f);
        },
        Expr::Primary(p) => match p {
            Primary::Binary { op, lhs, rhs } => {
                lemma_binary_fs_free(op, lhs, rhs, m, f, no_fs());
            },
            _ => {},
        },
    }
}

} // verus!
