//! Evaluator for parsed conditional expressions.
//!
//! Combinators (`&&`, `||`, `!`) live in this module too; glob and regex
//! matching for `==`/`!=`/`=~` are compiled by [`crate::pattern`] and applied
//! here. Every function's contract is stated against [`crate::semantics`].

use vstd::prelude::*;

use crate::ast::{
    BinaryOp, CaseModifyKind, Expr, ParameterExpansion, ParameterOp, Primary, RemoveKind,
    ReplaceKind, UnaryOp, Word, WordPart,
};
use crate::env::{Env, EnvModel};
use crate::error::{EvalError, EvalErrorView, result_view};
use crate::fs_abs::{AccessMode, FileKind, FileStat, FileSystem, FsModel};
use crate::pattern::{
    CompiledGlob, GlobAtom, GlobOptions, PatternChar, PatternError, char_lower, char_upper,
    compile_glob, compile_regex, fully_expanded, glob_compile, glob_matches, glob_outcome,
    lowercase, marked, pattern_error_is, regex_build_error, regex_captures, regex_word_text, uppercase,
    word_pattern_chars,
};
use crate::semantics::{
    Ev, FsAnswers, below, join2, lemma_join2, tree_outcome, tree_possible, Piece, binary_outcome_obs, expr_outcome_obs, primary_outcome_obs, unary_outcome_obs, child, join, lemma_join, lemma_binary_fs_free, no_fs, binary_outcome, case_chars, cut_matches, case_outcome, case_pattern, expansion_pieces,
    expansion_value, expr_outcome, fail_error, first_cut_down, first_cut_up, leftmost_longest,
    longest_from, opt_on, part_pieces, part_value, parts_pieces, parts_value, pieces_chars,
    pieces_quoted, pieces_regex, pieces_text, primary_outcome, remove_outcome, remove_result,
    render, replace_all, replace_outcome, stat_of, substring_outcome, unary_outcome, uses_fs,
    word_pieces, word_value,
};
use crate::text::{chars_of, owned, push_char, push_str, string_of_range};

verus! {

// ---------------------------------------------------------------------------
// Expanded words
// ---------------------------------------------------------------------------

/// The pieces of a fully expanded word.
pub open spec fn pieces_of(parts: Seq<WordPart>) -> Seq<Piece>
    decreases parts.len(),
{
    if parts.len() == 0 {
        Seq::empty()
    } else {
        pieces_of(parts.drop_last()) + match parts.last() {
            WordPart::Literal(t) => seq![(t@, false)],
            WordPart::Quoted(t) => seq![(t@, true)],
            _ => Seq::empty(),
        }
    }
}

/// The view of a string result.
pub open spec fn str_result(r: Result<String, EvalError>) -> Result<Seq<char>, EvalErrorView> {
    match r {
        Ok(s) => Ok(s@),
        Err(e) => Err(e@),
    }
}

/// The view of an expanded-word result.
pub open spec fn word_result(r: Result<Word, EvalError>) -> Result<Seq<Piece>, EvalErrorView> {
    match r {
        Ok(w) => Ok(pieces_of(w.parts@)),
        Err(e) => Err(e@),
    }
}

/// Whether a result holds a fully expanded word (or an error).
pub open spec fn plain_result(r: Result<Word, EvalError>) -> bool {
    r matches Ok(w) ==> fully_expanded(w.parts@)
}

proof fn lemma_pieces_of_push(parts: Seq<WordPart>, p: WordPart)
    ensures
        pieces_of(parts.push(p)) == pieces_of(parts) + match p {
            WordPart::Literal(t) => seq![(t@, false)],
            WordPart::Quoted(t) => seq![(t@, true)],
            _ => Seq::<Piece>::empty(),
        },
{
    assert(parts.push(p).drop_last() =~= parts);
}

proof fn lemma_plain_pattern_chars(parts: Seq<WordPart>, values: Seq<Seq<char>>)
    requires
        fully_expanded(parts),
    ensures
        word_pattern_chars(parts, values) == pieces_chars(pieces_of(parts)),
    decreases parts.len(),
{
    if parts.len() > 0 {
        let init = parts.drop_last();
        assert(fully_expanded(init)) by {
            assert forall|i: int| 0 <= i < init.len() implies (#[trigger] init[i] is Literal
                || init[i] is Quoted) by {
                assert(init[i] == parts[i]);
            }
        }
        lemma_plain_pattern_chars(init, values);
        let ps = pieces_of(parts);
        assert(parts[parts.len() - 1] is Literal || parts[parts.len() - 1] is Quoted);
        assert(ps.drop_last() =~= pieces_of(init));
    }
}

proof fn lemma_plain_regex_text(parts: Seq<WordPart>, values: Seq<Seq<char>>)
    requires
        fully_expanded(parts),
    ensures
        regex_word_text(parts, values) == pieces_regex(pieces_of(parts)),
    decreases parts.len(),
{
    if parts.len() > 0 {
        let init = parts.drop_last();
        assert(fully_expanded(init)) by {
            assert forall|i: int| 0 <= i < init.len() implies (#[trigger] init[i] is Literal
                || init[i] is Quoted) by {
                assert(init[i] == parts[i]);
            }
        }
        lemma_plain_regex_text(init, values);
        let ps = pieces_of(parts);
        assert(parts[parts.len() - 1] is Literal || parts[parts.len() - 1] is Quoted);
        assert(ps.drop_last() =~= pieces_of(init));
    }
}

proof fn lemma_pattern_error(e: PatternError, f: crate::pattern::GlobFail, ci: bool)
    requires
        pattern_error_is(e, f, ci),
    ensures
        e == fail_error(f, ci),
{
}

/// The text of a fully expanded word, quoting dropped.
fn flatten_expanded_word(word: &Word) -> (r: String)
    requires
        fully_expanded(word.parts@),
    ensures
        r@ == pieces_text(pieces_of(word.parts@)),
{
    let mut out = String::new();
    let mut i: usize = 0;
    while i < word.parts.len()
        invariant
            i <= word.parts@.len(),
            fully_expanded(word.parts@),
            out@ == pieces_text(pieces_of(word.parts@.take(i as int))),
        decreases word.parts@.len() - i,
    {
        proof {
            assert(word.parts@.take(i + 1) =~= word.parts@.take(i as int).push(word.parts@[i as int]));
            lemma_pieces_of_push(word.parts@.take(i as int), word.parts@[i as int]);
        }
        match &word.parts[i] {
            WordPart::Literal(text) => {
                push_str(&mut out, text.as_str());
            },
            WordPart::Quoted(text) => {
                push_str(&mut out, text.as_str());
            },
            _ => {
                assert(false);
            },
        }
        i = i + 1;
        let ghost ps = pieces_of(word.parts@.take(i as int));
        assert(ps.drop_last() =~= pieces_of(word.parts@.take(i - 1)));
    }
    assert(word.parts@.take(i as int) =~= word.parts@);
    out
}

/// Whether any part of a fully expanded word is quoted.
fn any_quoted_piece(word: &Word) -> (r: bool)
    requires
        fully_expanded(word.parts@),
    ensures
        r == pieces_quoted(pieces_of(word.parts@)),
{
    let mut i: usize = 0;
    while i < word.parts.len()
        invariant
            i <= word.parts@.len(),
            fully_expanded(word.parts@),
            forall|j: int| 0 <= j < i ==> !(#[trigger] word.parts@[j] is Quoted),
        decreases word.parts@.len() - i,
    {
        if let WordPart::Quoted(_) = &word.parts[i] {
            proof {
                lemma_pieces_of_prefix(word.parts@, i as int + 1);
                assert(word.parts@.take(i + 1).drop_last() =~= word.parts@.take(i as int));
                let ps = pieces_of(word.parts@);
                let k = pieces_of(word.parts@.take(i as int)).len();
                assert(ps[k as int].1);
            }
            return true;
        }
        i = i + 1;
    }
    proof {
        lemma_pieces_unquoted(word.parts@);
    }
    false
}

proof fn lemma_pieces_of_prefix(parts: Seq<WordPart>, k: int)
    requires
        0 <= k <= parts.len(),
        fully_expanded(parts),
    ensures
        pieces_of(parts).len() == parts.len(),
        pieces_of(parts.take(k)) =~= pieces_of(parts).take(k),
        forall|j: int| 0 <= j < parts.len() ==> #[trigger] pieces_of(parts)[j].1 == (parts[j] is Quoted),
    decreases parts.len(),
{
    if parts.len() > 0 {
        let init = parts.drop_last();
        assert(fully_expanded(init)) by {
            assert forall|i: int| 0 <= i < init.len() implies (#[trigger] init[i] is Literal
                || init[i] is Quoted) by {
                assert(init[i] == parts[i]);
            }
        }
        if k == parts.len() {
            lemma_pieces_of_prefix(init, k - 1);
            assert(parts.take(k) =~= parts);
        } else {
            lemma_pieces_of_prefix(init, k);
            assert(parts.take(k) =~= init.take(k));
        }
        assert(parts[parts.len() - 1] is Literal || parts[parts.len() - 1] is Quoted);
    }
}

proof fn lemma_pieces_unquoted(parts: Seq<WordPart>)
    requires
        fully_expanded(parts),
        forall|j: int| 0 <= j < parts.len() ==> !(#[trigger] parts[j] is Quoted),
    ensures
        !pieces_quoted(pieces_of(parts)),
{
    lemma_pieces_of_prefix(parts, 0);
}

// ---------------------------------------------------------------------------
// Patterns over expanded words
// ---------------------------------------------------------------------------

/// Compiles a fully expanded pattern word.
fn compile_expanded(word: &Word, options: GlobOptions) -> (r: Result<CompiledGlob, EvalError>)
    requires
        fully_expanded(word.parts@),
    ensures
        match glob_compile(pieces_chars(pieces_of(word.parts@)), options) {
            Ok(atoms) => r matches Ok(g) && g.atoms() == atoms && g.options() == options,
            Err(f) => r matches Err(e) && e@ == EvalErrorView::BadPattern(
                fail_error(f, options.case_insensitive),
            ),
        },
{
    assert(crate::pattern::no_expansion(word.parts@)) by {
        assert forall|i: int| 0 <= i < word.parts@.len() implies !(#[trigger] word.parts@[i] is Expansion) by {
            assert(word.parts@[i] is Literal || word.parts@[i] is Quoted);
        }
    }
    let no_vars = |_s: &str| String::new();
    let r = compile_glob(word, options, no_vars);
    proof {
        let values = choose|values: Seq<Seq<char>>|
            crate::pattern::var_values(no_vars, word.parts@, values) && glob_outcome(
                r,
                #[trigger] word_pattern_chars(word.parts@, values),
                options,
            );
        lemma_plain_pattern_chars(word.parts@, values);
        match glob_compile(pieces_chars(pieces_of(word.parts@)), options) {
            Ok(_) => {},
            Err(f) => {
                if r is Err {
                    lemma_pattern_error(r->Err_0, f, options.case_insensitive);
                }
            },
        }
    }
    match r {
        Ok(g) => Ok(g),
        Err(e) => Err(EvalError::BadPattern(e)),
    }
}

/// Whether the pattern matches `v[..i]` (or `v[i..]` for a suffix).
fn cut_match(g: &CompiledGlob, v: &[char], i: usize, suffix: bool) -> (r: bool)
    requires
        i <= v@.len(),
    ensures
        r == cut_matches(g.atoms(), g.options().case_insensitive, v@, i as int, suffix),
{
    let s = if suffix {
        string_of_range(v, i, v.len())
    } else {
        string_of_range(v, 0, i)
    };
    assert(v@.subrange(i as int, v@.len() as int) =~= v@.skip(i as int));
    assert(v@.subrange(0, i as int) =~= v@.take(i as int));
    g.is_match(s.as_str())
}

/// The least cut from the start at which the pattern matches.
fn first_cut_up_exec(g: &CompiledGlob, v: &[char], suffix: bool) -> (r: Option<usize>)
    ensures
        match first_cut_up(g.atoms(), g.options().case_insensitive, v@, 0, suffix) {
            Some(i) => r == Some(i as usize) && 0 <= i <= v@.len(),
            None => r is None,
        },
{
    let n = v.len();
    let mut i: usize = 0;
    loop
        invariant
            n == v@.len(),
            i <= n,
            first_cut_up(g.atoms(), g.options().case_insensitive, v@, 0, suffix) == first_cut_up(
                g.atoms(),
                g.options().case_insensitive,
                v@,
                i as int,
                suffix,
            ),
        decreases n + 1 - i,
    {
        if cut_match(g, v, i, suffix) {
            return Some(i);
        }
        if i == n {
            assert(first_cut_up(g.atoms(), g.options().case_insensitive, v@, i + 1, suffix) is None);
            return None;
        }
        i = i + 1;
    }
}

/// The greatest cut at which the pattern matches.
fn first_cut_down_exec(g: &CompiledGlob, v: &[char], suffix: bool) -> (r: Option<usize>)
    ensures
        match first_cut_down(g.atoms(), g.options().case_insensitive, v@, v@.len() as int, suffix) {
            Some(i) => r == Some(i as usize) && 0 <= i <= v@.len(),
            None => r is None,
        },
{
    let n = v.len();
    let mut i: usize = n;
    loop
        invariant
            n == v@.len(),
            i <= n,
            first_cut_down(g.atoms(), g.options().case_insensitive, v@, n as int, suffix)
                == first_cut_down(g.atoms(), g.options().case_insensitive, v@, i as int, suffix),
        decreases i,
    {
        if cut_match(g, v, i, suffix) {
            return Some(i);
        }
        if i == 0 {
            assert(first_cut_down(g.atoms(), g.options().case_insensitive, v@, -1, suffix) is None);
            return None;
        }
        i = i - 1;
    }
}

/// The longest match starting at `start`: its end.
fn longest_match_from(g: &CompiledGlob, v: &[char], start: usize) -> (r: Option<usize>)
    requires
        start <= v@.len(),
    ensures
        match longest_from(g.atoms(), g.options().case_insensitive, v@, start as int, v@.len() as int) {
            Some(e) => r == Some(e as usize) && start <= e <= v@.len(),
            None => r is None,
        },
{
    let n = v.len();
    let mut e: usize = n;
    loop
        invariant
            n == v@.len(),
            start <= e <= n,
            longest_from(g.atoms(), g.options().case_insensitive, v@, start as int, n as int)
                == longest_from(g.atoms(), g.options().case_insensitive, v@, start as int, e as int),
        decreases e,
    {
        let s = string_of_range(v, start, e);
        if g.is_match(s.as_str()) {
            return Some(e);
        }
        if e == start {
            return None;
        }
        e = e - 1;
    }
}

/// The leftmost start at or after `from` where the pattern matches, with
/// the longest match from there.
fn leftmost_longest_exec(g: &CompiledGlob, v: &[char], from: usize) -> (r: Option<(usize, usize)>)
    ensures
        match leftmost_longest(g.atoms(), g.options().case_insensitive, v@, from as int) {
            Some((s, e)) => r == Some((s as usize, e as usize)) && from <= s <= e <= v@.len() && s
                < v@.len(),
            None => r is None,
        },
{
    let n = v.len();
    let mut s: usize = from;
    proof {
        lemma_leftmost_longest_bounds(g.atoms(), g.options().case_insensitive, v@, from as int);
    }
    while s < n
        invariant
            n == v@.len(),
            from <= s,
            leftmost_longest(g.atoms(), g.options().case_insensitive, v@, from as int)
                == leftmost_longest(g.atoms(), g.options().case_insensitive, v@, s as int),
        decreases n - s,
    {
        match longest_match_from(g, v, s) {
            Some(e) => {
                return Some((s, e));
            },
            None => {},
        }
        s = s + 1;
    }
    None
}

proof fn lemma_leftmost_longest_bounds(atoms: Seq<GlobAtom>, ci: bool, v: Seq<char>, from: int)
    ensures
        leftmost_longest(atoms, ci, v, from) matches Some((s, e)) ==> from <= s <= e <= v.len() && s
            < v.len(),
{
    crate::semantics::lemma_leftmost_longest(atoms, ci, v, from);
}

/// `${name#pattern}` and friends on an expanded pattern.
fn remove_pattern(value: &str, kind: RemoveKind, pattern: &Word, extglob: bool) -> (r: Result<String, EvalError>)
    requires
        fully_expanded(pattern.parts@),
    ensures
        str_result(r) == remove_outcome(value@, kind, pieces_of(pattern.parts@), extglob),
{
    let options = GlobOptions { case_insensitive: false, extglob };
    let g = match compile_expanded(pattern, options) {
        Ok(g) => g,
        Err(e) => {
            return Err(e);
        },
    };
    let v = chars_of(value);
    let n = v.len();
    let found = match kind {
        RemoveKind::ShortestPrefix => first_cut_up_exec(&g, v.as_slice(), false),
        RemoveKind::LongestPrefix => first_cut_down_exec(&g, v.as_slice(), false),
        RemoveKind::ShortestSuffix => first_cut_down_exec(&g, v.as_slice(), true),
        RemoveKind::LongestSuffix => first_cut_up_exec(&g, v.as_slice(), true),
    };
    let out = match found {
        None => owned(value),
        Some(i) => match kind {
            RemoveKind::ShortestPrefix | RemoveKind::LongestPrefix => string_of_range(
                v.as_slice(),
                i,
                n,
            ),
            RemoveKind::ShortestSuffix | RemoveKind::LongestSuffix => string_of_range(
                v.as_slice(),
                0,
                i,
            ),
        },
    };
    assert(v@.subrange(0, n as int) =~= v@);
    proof {
        if let Some(i) = found {
            assert(v@.subrange(i as int, n as int) =~= v@.skip(i as int));
            assert(v@.subrange(0, i as int) =~= v@.take(i as int));
        }
    }
    Ok(out)
}

/// Appends `text` to `out` with every `&` replaced by `matched`.
fn push_amp_subst(out: &mut String, text: &str, matched: &[char])
    ensures
        final(out)@ == old(out)@ + amp_subst_of(text@, matched@),
{
    let t = chars_of(text);
    let ghost base = out@;
    let mut i: usize = 0;
    assert(t@.take(0) =~= Seq::<char>::empty());
    assert(out@ =~= base + amp_subst_of(t@.take(0), matched@));
    while i < t.len()
        invariant
            i <= t@.len(),
            t@ == text@,
            out@ == base + amp_subst_of(t@.take(i as int), matched@),
        decreases t@.len() - i,
    {
        if t[i] == '&' {
            crate::text::push_chars(out, matched);
        } else {
            push_char(out, t[i]);
        }
        i = i + 1;
        assert(t@.take(i as int).drop_last() =~= t@.take(i - 1));
        assert(out@ =~= base + amp_subst_of(t@.take(i as int), matched@));
    }
    assert(t@.take(t@.len() as int) =~= t@);
}

pub open spec fn amp_subst_of(text: Seq<char>, matched: Seq<char>) -> Seq<char> {
    crate::semantics::amp_subst(text, matched)
}

/// The replacement text for one match.
fn render_replacement(replacement: &Word, matched: &[char], patsub: bool) -> (r: String)
    requires
        fully_expanded(replacement.parts@),
    ensures
        r@ == render(pieces_of(replacement.parts@), matched@, patsub),
{
    let mut out = String::new();
    let mut i: usize = 0;
    while i < replacement.parts.len()
        invariant
            i <= replacement.parts@.len(),
            fully_expanded(replacement.parts@),
            out@ == render(pieces_of(replacement.parts@.take(i as int)), matched@, patsub),
        decreases replacement.parts@.len() - i,
    {
        proof {
            assert(replacement.parts@.take(i + 1) =~= replacement.parts@.take(i as int).push(
                replacement.parts@[i as int],
            ));
            lemma_pieces_of_push(replacement.parts@.take(i as int), replacement.parts@[i as int]);
        }
        match &replacement.parts[i] {
            WordPart::Literal(text) => {
                if patsub {
                    push_amp_subst(&mut out, text.as_str(), matched);
                } else {
                    push_str(&mut out, text.as_str());
                }
            },
            WordPart::Quoted(text) => {
                push_str(&mut out, text.as_str());
            },
            _ => {
                assert(false);
            },
        }
        i = i + 1;
        let ghost ps = pieces_of(replacement.parts@.take(i as int));
        assert(ps.drop_last() =~= pieces_of(replacement.parts@.take(i - 1)));
    }
    assert(replacement.parts@.take(i as int) =~= replacement.parts@);
    out
}

/// Every match from the start replaced (`${name//pattern/replacement}`).
fn replace_all_exec(g: &CompiledGlob, v: &[char], replacement: &Word, patsub: bool) -> (r: String)
    requires
        fully_expanded(replacement.parts@),
    ensures
        r@ == replace_all(
            g.atoms(),
            g.options().case_insensitive,
            v@,
            pieces_of(replacement.parts@),
            patsub,
            0,
        ),
{
    let ghost atoms = g.atoms();
    let ghost ci = g.options().case_insensitive;
    let ghost rep = pieces_of(replacement.parts@);
    let n = v.len();
    let mut out = String::new();
    let mut pos: usize = 0;
    assert(out@ + replace_all(atoms, ci, v@, rep, patsub, 0) =~= replace_all(atoms, ci, v@, rep, patsub, 0));
    loop
        invariant
            n == v@.len(),
            pos <= n,
            atoms == g.atoms(),
            ci == g.options().case_insensitive,
            rep == pieces_of(replacement.parts@),
            fully_expanded(replacement.parts@),
            out@ + replace_all(atoms, ci, v@, rep, patsub, pos as int) == replace_all(
                atoms,
                ci,
                v@,
                rep,
                patsub,
                0,
            ),
        decreases n - pos,
    {
        let ghost before = out@;
        if pos >= n {
            assert(out@ =~= out@ + Seq::<char>::empty());
            return out;
        }
        match leftmost_longest_exec(g, v, pos) {
            None => {
                let rest = string_of_range(v, pos, n);
                push_str(&mut out, rest.as_str());
                assert(v@.subrange(pos as int, n as int) =~= v@.skip(pos as int));
                return out;
            },
            Some((s, e)) => {
                pos = replace_step(g, v, replacement, patsub, pos, s, e, &mut out);
            },
        }
    }
}

/// Appends the text from `pos` through one match `v[s..e]` (replaced) and
/// returns where the search goes on.
fn replace_step(
    g: &CompiledGlob,
    v: &[char],
    replacement: &Word,
    patsub: bool,
    pos: usize,
    s: usize,
    e: usize,
    out: &mut String,
) -> (next: usize)
    requires
        fully_expanded(replacement.parts@),
        pos < v@.len(),
        leftmost_longest(g.atoms(), g.options().case_insensitive, v@, pos as int) == Some(
            (s as int, e as int),
        ),
    ensures
        pos < next <= v@.len(),
        final(out)@ + replace_all(
            g.atoms(),
            g.options().case_insensitive,
            v@,
            pieces_of(replacement.parts@),
            patsub,
            next as int,
        ) == old(out)@ + replace_all(
            g.atoms(),
            g.options().case_insensitive,
            v@,
            pieces_of(replacement.parts@),
            patsub,
            pos as int,
        ),
{
    let ghost atoms = g.atoms();
    let ghost ci = g.options().case_insensitive;
    let ghost rep = pieces_of(replacement.parts@);
    let n = v.len();
    proof {
        crate::semantics::lemma_leftmost_longest(atoms, ci, v@, pos as int);
        crate::semantics::lemma_replace_all_step(atoms, ci, v@, rep, patsub, pos as int, s as int, e as int);
    }
    let head = string_of_range(v, pos, s);
    push_str(out, head.as_str());
    let matched = string_of_range(v, s, e);
    let mc = chars_of(matched.as_str());
    let rendered = render_replacement(replacement, mc.as_slice(), patsub);
    push_str(out, rendered.as_str());
    let next = if s == e {
        let one = string_of_range(v, e, e + 1);
        push_str(out, one.as_str());
        e + 1
    } else {
        e
    };
    assert(final(out)@ + replace_all(atoms, ci, v@, rep, patsub, next as int) =~= old(out)@
        + replace_all(atoms, ci, v@, rep, patsub, pos as int));
    next
}

/// `${name/pattern/replacement}` and friends on an expanded pattern and
/// replacement.
fn replace_pattern(
    value: &str,
    kind: ReplaceKind,
    pattern: &Word,
    replacement: &Word,
    patsub: bool,
    ci: bool,
    extglob: bool,
) -> (r: Result<String, EvalError>)
    requires
        fully_expanded(pattern.parts@),
        fully_expanded(replacement.parts@),
    ensures
        str_result(r) == replace_outcome(
            value@,
            kind,
            pieces_of(pattern.parts@),
            pieces_of(replacement.parts@),
            patsub,
            ci,
            extglob,
        ),
{
    let v = chars_of(value);
    let n = v.len();
    let flat = flatten_expanded_word(pattern);
    if flat.as_str().is_empty() {
        let nothing: Vec<char> = Vec::new();
        assert(nothing@ =~= Seq::<char>::empty());
        return match kind {
            ReplaceKind::Prefix => {
                let mut out = render_replacement(replacement, nothing.as_slice(), patsub);
                push_str(&mut out, value);
                Ok(out)
            },
            ReplaceKind::Suffix => {
                let mut out = owned(value);
                let rendered = render_replacement(replacement, nothing.as_slice(), patsub);
                push_str(&mut out, rendered.as_str());
                Ok(out)
            },
            _ => Ok(owned(value)),
        };
    }
    let g = match compile_expanded(pattern, GlobOptions { case_insensitive: ci, extglob }) {
        Ok(g) => g,
        Err(e) => {
            return Err(e);
        },
    };
    let out = match kind {
        ReplaceKind::Prefix => {
            if n == 0 {
                owned(value)
            } else {
                match longest_match_from(&g, v.as_slice(), 0) {
                    Some(e) => {
                        let matched = string_of_range(v.as_slice(), 0, e);
                        let mc = chars_of(matched.as_str());
                        let mut out = render_replacement(replacement, mc.as_slice(), patsub);
                        let rest = string_of_range(v.as_slice(), e, n);
                        push_str(&mut out, rest.as_str());
                        assert(v@.subrange(0, e as int) =~= v@.take(e as int));
                        assert(v@.subrange(e as int, n as int) =~= v@.skip(e as int));
                        out
                    },
                    None => owned(value),
                }
            }
        },
        ReplaceKind::Suffix => match first_cut_up_exec(&g, v.as_slice(), true) {
            Some(s) => {
                let mut out = string_of_range(v.as_slice(), 0, s);
                let matched = string_of_range(v.as_slice(), s, n);
                let mc = chars_of(matched.as_str());
                let rendered = render_replacement(replacement, mc.as_slice(), patsub);
                push_str(&mut out, rendered.as_str());
                assert(v@.subrange(0, s as int) =~= v@.take(s as int));
                assert(v@.subrange(s as int, n as int) =~= v@.skip(s as int));
                out
            },
            None => owned(value),
        },
        ReplaceKind::First => match leftmost_longest_exec(&g, v.as_slice(), 0) {
            Some((s, e)) => {
                let mut out = string_of_range(v.as_slice(), 0, s);
                let matched = string_of_range(v.as_slice(), s, e);
                let mc = chars_of(matched.as_str());
                let rendered = render_replacement(replacement, mc.as_slice(), patsub);
                push_str(&mut out, rendered.as_str());
                let rest = string_of_range(v.as_slice(), e, n);
                push_str(&mut out, rest.as_str());
                assert(v@.subrange(0, s as int) =~= v@.take(s as int));
                assert(v@.subrange(e as int, n as int) =~= v@.skip(e as int));
                out
            },
            None => owned(value),
        },
        ReplaceKind::All => replace_all_exec(&g, v.as_slice(), replacement, patsub),
    };
    Ok(out)
}

/// `${name:offset[:length]}` once offset and length are evaluated.
fn substring(value: &str, offset: i64, length: Option<i64>) -> (r: Result<String, EvalError>)
    ensures
        str_result(r) == substring_outcome(
            value@,
            offset as int,
            match length {
                Some(l) => Some(l as int),
                None => None,
            },
        ),
{
    let v = chars_of(value);
    let count = v.len() as i128;
    let start: i128 = if offset < 0 {
        count + offset as i128
    } else {
        offset as i128
    };
    if start < 0 || start > count {
        return Ok(String::new());
    }
    let end: i128 = match length {
        None => count,
        Some(l) => if l >= 0 {
            if start + (l as i128) < count {
                start + l as i128
            } else {
                count
            }
        } else {
            count + l as i128
        },
    };
    if end < start {
        return Err(EvalError::InvalidArith(owned("substring expression < 0")));
    }
    Ok(string_of_range(v.as_slice(), start as usize, end as usize))
}

/// `${name^pattern}` and friends on an expanded pattern (`None` when the
/// expansion has no pattern).
fn modify_case(value: &str, kind: CaseModifyKind, pattern: Option<&Word>) -> (r: Result<String, EvalError>)
    requires
        pattern matches Some(w) ==> fully_expanded(w.parts@),
    ensures
        str_result(r) == case_outcome(
            value@,
            kind,
            match pattern {
                None => seq![(seq!['?'], false)],
                Some(w) => case_pattern(pieces_of(w.parts@)),
            },
        ),
{
    let default_pattern = Word::literal("?");
    proof {
        reveal_strlit("?");
        assert("?"@ =~= seq!['?']);
        lemma_pieces_of_push(Seq::empty(), default_pattern.parts@[0]);
        assert(default_pattern.parts@ =~= Seq::<WordPart>::empty().push(default_pattern.parts@[0]));
        assert(default_pattern.parts@.drop_last() =~= Seq::<WordPart>::empty());
        assert(pieces_of(Seq::<WordPart>::empty()) =~= Seq::<Piece>::empty());
        assert(pieces_of(default_pattern.parts@) =~= seq![(seq!['?'], false)]);
        assert(fully_expanded(default_pattern.parts@));
    }
    let use_default = match pattern {
        None => true,
        Some(w) => {
            let flat = flatten_expanded_word(w);
            flat.as_str().is_empty() && !any_quoted_piece(w)
        },
    };
    let chosen: &Word = if use_default {
        &default_pattern
    } else {
        pattern.unwrap()
    };
    let g = match compile_expanded(chosen, GlobOptions { case_insensitive: false, extglob: true }) {
        Ok(g) => g,
        Err(e) => {
            return Err(e);
        },
    };
    let all = kind == CaseModifyKind::UpperAll || kind == CaseModifyKind::LowerAll;
    let upper = kind == CaseModifyKind::UpperFirst || kind == CaseModifyKind::UpperAll;
    let v = chars_of(value);
    Ok(case_chars_exec(&g, v.as_slice(), all, upper))
}

/// The characters of `v` with case modified where `g` matches them.
fn case_chars_exec(g: &CompiledGlob, v: &[char], all: bool, upper: bool) -> (r: String)
    requires
        !g.options().case_insensitive,
    ensures
        r@ == case_chars(v@, v@.len() as int, g.atoms(), all, upper),
{
    let n = v.len();
    let mut out = String::new();
    let mut i: usize = 0;
    while i < n
        invariant
            n == v@.len(),
            i <= n,
            out@ == case_chars(v@, i as int, g.atoms(), all, upper),
            !g.options().case_insensitive,
        decreases n - i,
    {
        let c = v[i];
        let one = string_of_range(v, i, i + 1);
        assert(v@.subrange(i as int, i + 1) =~= seq![c]);
        let hit = (all || i == 0) && g.is_match(one.as_str());
        if hit {
            if upper {
                let u = uppercase(c);
                push_str(&mut out, u.as_str());
            } else {
                let l = lowercase(c);
                push_str(&mut out, l.as_str());
            }
        } else {
            push_char(&mut out, c);
        }
        i = i + 1;
    }
    out
}

proof fn lemma_digits_monotone(s: Seq<char>, k: int)
    requires
        all_digits_of(s),
        0 <= k <= s.len(),
    ensures
        crate::semantics::digits_value(s) >= crate::semantics::digits_value(s.take(k)),
        crate::semantics::digits_value(s) >= 0,
    decreases s.len(),
{
    if s.len() > 0 {
        let init = s.drop_last();
        assert(all_digits_of(init)) by {
            assert forall|i: int| 0 <= i < init.len() implies '0' <= #[trigger] init[i] <= '9' by {
                assert(init[i] == s[i]);
            }
        }
        assert('0' <= s[s.len() - 1] <= '9');
        if k == s.len() {
            assert(s.take(k) =~= s);
            lemma_digits_monotone(init, 0);
        } else {
            assert(s.take(k) =~= init.take(k));
            lemma_digits_monotone(init, k);
        }
    }
}

proof fn lemma_digits_step(body: Seq<char>, k: int)
    requires
        0 <= k < body.len(),
        all_digits_of(body.take(k)),
        '0' <= body[k] <= '9',
    ensures
        all_digits_of(body.take(k + 1)),
        crate::semantics::digits_value(body.take(k + 1)) == crate::semantics::digits_value(
            body.take(k),
        ) * 10 + (body[k] as int - '0' as int),
{
    assert(body.take(k + 1).drop_last() =~= body.take(k));
    assert forall|j: int| 0 <= j < k + 1 implies '0' <= #[trigger] body.take(k + 1)[j] <= '9' by {
        if j < k {
            assert(body.take(k + 1)[j] == body.take(k)[j]);
        }
    }
}

pub open spec fn all_digits_of(s: Seq<char>) -> bool {
    crate::semantics::all_digits(s)
}

/// The file descriptor `-t` names (`str::parse::<i32>`).
fn parse_fd(s: &str) -> (r: Option<i32>)
    ensures
        r == crate::semantics::parse_i32(s@),
{
    let c = chars_of(s);
    let n = c.len();
    let neg = n > 0 && c[0] == '-';
    let first: usize = if n > 0 && (c[0] == '-' || c[0] == '+') {
        1
    } else {
        0
    };
    let ghost body = crate::semantics::unsigned_part(s@);
    assert(body =~= c@.subrange(first as int, n as int));
    if first == n {
        return None;
    }
    let mut acc: i64 = 0;
    let mut i: usize = first;
    while i < n
        invariant
            c@ == s@,
            n == c@.len(),
            first <= i <= n,
            body == c@.subrange(first as int, n as int),
            body == crate::semantics::unsigned_part(s@),
            neg == (s@.len() > 0 && s@[0] == '-'),
            all_digits_of(body.take(i - first)),
            acc == crate::semantics::digits_value(body.take(i - first)),
            0 <= acc <= 2147483648,
        decreases n - i,
    {
        let d = c[i];
        if !('0' <= d && d <= '9') {
            assert(body[i - first] == d);
            assert(!all_digits_of(body));
            return None;
        }
        let ghost k = i - first;
        proof {
            lemma_digits_step(body, k);
        }
        acc = acc * 10 + (d as i64 - '0' as i64);
        i = i + 1;
        if acc > 2147483648 {
            proof {
                if all_digits_of(body) {
                    lemma_digits_monotone(body, k + 1);
                    assert(crate::semantics::digits_value(body) > 2147483648);
                }
            }
            return None;
        }
    }
    assert(body.take(body.len() as int) =~= body);
    let v: i64 = if neg {
        -acc
    } else {
        acc
    };
    if v < -2147483648 || v > 2147483647 {
        None
    } else {
        Some(v as i32)
    }
}

/// Whether `a` sorts before `b` by code point (the byte order of UTF-8).
fn text_less_exec(a: &[char], b: &[char]) -> (r: bool)
    ensures
        r == crate::semantics::text_less(a@, b@),
{
    let mut i: usize = 0;
    assert(a@.skip(0) =~= a@);
    assert(b@.skip(0) =~= b@);
    loop
        invariant
            i <= a@.len(),
            i <= b@.len(),
            crate::semantics::text_less(a@, b@) == crate::semantics::text_less(
                a@.skip(i as int),
                b@.skip(i as int),
            ),
        decreases a@.len() - i,
    {
        if i == b.len() {
            return false;
        }
        if i == a.len() {
            return true;
        }
        if a[i] != b[i] {
            return (a[i] as u32) < (b[i] as u32);
        }
        assert(a@.skip(i as int).skip(1) =~= a@.skip(i + 1));
        assert(b@.skip(i as int).skip(1) =~= b@.skip(i + 1));
        i = i + 1;
    }
}

// ---------------------------------------------------------------------------
// The evaluator
// ---------------------------------------------------------------------------

proof fn lemma_parts_value_err(parts: Seq<WordPart>, i: int, k: int, m: EnvModel)
    requires
        0 <= i <= k <= parts.len(),
        parts_value(parts, i, m).0 is Err,
    ensures
        parts_value(parts, k, m) == parts_value(parts, i, m),
    decreases k - i,
{
    if k > i {
        lemma_parts_value_err(parts, i, k - 1, m);
    }
}

proof fn lemma_parts_value_step(
    parts: Seq<WordPart>,
    i: int,
    m0: EnvModel,
    s: Seq<char>,
    m1: EnvModel,
    t: Seq<char>,
    m2: EnvModel,
)
    requires
        0 <= i < parts.len(),
        parts_value(parts, i, m0) == (Ok::<Seq<char>, EvalErrorView>(s), m1),
        part_value(parts[i], m1) == (Ok::<Seq<char>, EvalErrorView>(t), m2),
    ensures
        parts_value(parts, i + 1, m0) == (Ok::<Seq<char>, EvalErrorView>(s + t), m2),
{
}

proof fn lemma_parts_pieces_step(
    parts: Seq<WordPart>,
    i: int,
    m0: EnvModel,
    s: Seq<Piece>,
    m1: EnvModel,
    t: Seq<Piece>,
    m2: EnvModel,
)
    requires
        0 <= i < parts.len(),
        parts_pieces(parts, i, m0) == (Ok::<Seq<Piece>, EvalErrorView>(s), m1),
        part_pieces(parts[i], m1) == (Ok::<Seq<Piece>, EvalErrorView>(t), m2),
    ensures
        parts_pieces(parts, i + 1, m0) == (Ok::<Seq<Piece>, EvalErrorView>(s + t), m2),
{
}

proof fn lemma_parts_pieces_err(parts: Seq<WordPart>, i: int, k: int, m: EnvModel)
    requires
        0 <= i <= k <= parts.len(),
        parts_pieces(parts, i, m).0 is Err,
    ensures
        parts_pieces(parts, k, m) == parts_pieces(parts, i, m),
    decreases k - i,
{
    if k > i {
        lemma_parts_pieces_err(parts, i, k - 1, m);
    }
}

proof fn lemma_literal_word(w: Word)
    requires
        w.parts@.len() == 1,
        w.parts@[0] is Literal,
    ensures
        pieces_of(w.parts@) == seq![(w.parts@[0]->Literal_0@, false)],
        fully_expanded(w.parts@),
{
    assert(w.parts@.drop_last() =~= Seq::<WordPart>::empty());
    assert(pieces_of(Seq::<WordPart>::empty()) =~= Seq::<Piece>::empty());
    assert(pieces_of(w.parts@) =~= seq![(w.parts@[0]->Literal_0@, false)]);
}

/// A copy of a literal or quoted part.
fn copy_plain(p: &WordPart) -> (r: WordPart)
    requires
        p is Literal || p is Quoted,
    ensures
        r is Literal <==> p is Literal,
        r is Quoted <==> p is Quoted,
        r is Literal ==> r->Literal_0@ == p->Literal_0@,
        r is Quoted ==> r->Quoted_0@ == p->Quoted_0@,
{
    let r = match p {
        WordPart::Literal(t) => WordPart::Literal(owned(t.as_str())),
        WordPart::Quoted(t) => WordPart::Quoted(owned(t.as_str())),
        _ => {
            assert(false);
            WordPart::Literal(String::new())
        },
    };
    r
}

/// Appends a literal or quoted part to a fully expanded word.
fn push_plain(w: &mut Word, p: WordPart)
    requires
        fully_expanded(old(w).parts@),
        p is Literal || p is Quoted,
    ensures
        fully_expanded(final(w).parts@),
        pieces_of(final(w).parts@) == pieces_of(old(w).parts@) + match p {
            WordPart::Literal(t) => seq![(t@, false)],
            WordPart::Quoted(t) => seq![(t@, true)],
            _ => Seq::<Piece>::empty(),
        },
{
    proof {
        lemma_pieces_of_push(w.parts@, p);
    }
    w.parts.push(p);
    assert forall|i: int| 0 <= i < w.parts@.len() implies (#[trigger] w.parts@[i] is Literal
        || w.parts@[i] is Quoted) by {
        if i < w.parts@.len() - 1 {
            assert(w.parts@[i] == old(w).parts@[i]);
        }
    }
}

/// The regex source a right operand of plain text gives `=~`: quoted text
/// escaped, the rest as written.
pub open spec fn plain_regex(w: Word) -> Seq<char> {
    match word_pieces(w, arbitrary()).0 {
        Ok(ps) => pieces_regex(ps),
        Err(_) => Seq::empty(),
    }
}

/// What `=~` hands `set_bash_rematch` on operands of plain text, for the
/// host's `nocasematch` answer `ci`: on a match, one call with the groups of
/// the leftmost match (the whole match first, `None` for a group that took
/// no part); on a miss or an error, no call.
pub open spec fn rematch_writes(
    lhs: Word,
    rhs: Word,
    ci: bool,
    r: Result<bool, EvalErrorView>,
    before: Seq<Seq<Option<Seq<char>>>>,
    after: Seq<Seq<Option<Seq<char>>>>,
) -> bool {
    let src = plain_regex(rhs);
    let text = crate::semantics::plain_text(lhs);
    match regex_build_error(src, ci) {
        Some(x) => r == Err::<bool, EvalErrorView>(EvalErrorView::BadRegex(x)) && after == before,
        None => match regex_captures(src, ci, text) {
            Some(g) => r == Ok::<bool, EvalErrorView>(true) && after == before.push(g),
            None => r == Ok::<bool, EvalErrorView>(false) && after == before,
        },
    }
}

/// What a primary that gave `res` handed `set_bash_rematch`, one entry
/// per call: only `=~` writes back, at most once and only on a match; on
/// operands of plain text it hands over the groups of its leftmost match,
/// as [`rematch_writes`] says for some answer of the host's `nocasematch`.
pub open spec fn primary_writes(
    p: Primary,
    res: Result<bool, EvalErrorView>,
    d: Seq<Seq<Option<Seq<char>>>>,
) -> bool {
    match p {
        Primary::Binary { op, lhs, rhs } => if op == BinaryOp::RegexMatch {
            (d.len() == 0 || (d.len() == 1 && res == Ok::<bool, EvalErrorView>(true))) && (fully_expanded(
                lhs.parts@,
            ) && fully_expanded(rhs.parts@) ==> exists|ci: bool| #[trigger] rematch_writes(
                lhs,
                rhs,
                ci,
                res,
                Seq::empty(),
                d,
            ))
        } else {
            d.len() == 0
        },
        _ => d.len() == 0,
    }
}

/// What an expression handed `set_bash_rematch`, in order, when its
/// primaries, by path, gave `o` and wrote `w`: only the primaries that the
/// evaluation reaches count.
pub open spec fn tree_writes(
    e: Expr,
    o: spec_fn(Seq<int>) -> Result<bool, EvalErrorView>,
    w: spec_fn(Seq<int>) -> Seq<Seq<Option<Seq<char>>>>,
) -> Seq<Seq<Option<Seq<char>>>>
    decreases e,
{
    match e {
        Expr::And(l, r) => tree_writes(*l, below(o, 0), below(w, 0)) + if tree_outcome(*l, below(o, 0))
            == Ok::<bool, EvalErrorView>(true) {
            tree_writes(*r, below(o, 1), below(w, 1))
        } else {
            Seq::empty()
        },
        Expr::Or(l, r) => tree_writes(*l, below(o, 0), below(w, 0)) + if tree_outcome(*l, below(o, 0))
            == Ok::<bool, EvalErrorView>(false) {
            tree_writes(*r, below(o, 1), below(w, 1))
        } else {
            Seq::empty()
        },
        Expr::Not(x) => tree_writes(*x, below(o, 0), below(w, 0)),
        Expr::Primary(_) => w(Seq::empty()),
    }
}

/// Every primary that the evaluation reaches wrote back what
/// [`primary_writes`] allows.
pub open spec fn writes_possible(
    e: Expr,
    o: spec_fn(Seq<int>) -> Result<bool, EvalErrorView>,
    w: spec_fn(Seq<int>) -> Seq<Seq<Option<Seq<char>>>>,
) -> bool
    decreases e,
{
    match e {
        Expr::And(l, r) => writes_possible(*l, below(o, 0), below(w, 0)) && (tree_outcome(*l, below(o, 0))
            == Ok::<bool, EvalErrorView>(true) ==> writes_possible(*r, below(o, 1), below(w, 1))),
        Expr::Or(l, r) => writes_possible(*l, below(o, 0), below(w, 0)) && (tree_outcome(*l, below(o, 0))
            == Ok::<bool, EvalErrorView>(false) ==> writes_possible(*r, below(o, 1), below(w, 1))),
        Expr::Not(x) => writes_possible(*x, below(o, 0), below(w, 0)),
        Expr::Primary(p) => primary_writes(p, o(Seq::empty()), w(Seq::empty())),
    }
}

/// What `eval_binary` says of the write-back, as a delta that
/// [`primary_writes`] allows.
proof fn lemma_binary_writes(
    op: BinaryOp,
    lhs: Word,
    rhs: Word,
    res: Result<bool, EvalErrorView>,
    before: Seq<Seq<Option<Seq<char>>>>,
    after: Seq<Seq<Option<Seq<char>>>>,
)
    requires
        op != BinaryOp::RegexMatch ==> after == before,
        op == BinaryOp::RegexMatch ==> after == before || (res == Ok::<bool, EvalErrorView>(true) && exists|
            g: Seq<Option<Seq<char>>>,
        | after == #[trigger] before.push(g)),
        op == BinaryOp::RegexMatch && fully_expanded(lhs.parts@) && fully_expanded(rhs.parts@) ==> exists|
            ci: bool,
        | #[trigger] rematch_writes(lhs, rhs, ci, res, before, after),
    ensures
        exists|d: Seq<Seq<Option<Seq<char>>>>| after == before + d && #[trigger] primary_writes(
            Primary::Binary { op, lhs, rhs },
            res,
            d,
        ),
{
    let p = Primary::Binary { op, lhs, rhs };
    let nothing = Seq::<Seq<Option<Seq<char>>>>::empty();
    if after == before {
        assert(before + nothing =~= before);
        if op == BinaryOp::RegexMatch && fully_expanded(lhs.parts@) && fully_expanded(rhs.parts@) {
            let ci = choose|ci: bool| #[trigger] rematch_writes(lhs, rhs, ci, res, before, after);
            assert(rematch_writes(lhs, rhs, ci, res, nothing, nothing));
        }
        assert(primary_writes(p, res, nothing));
    } else {
        let g = choose|g: Seq<Option<Seq<char>>>| after == #[trigger] before.push(g);
        let d = seq![g];
        assert(before.push(g) =~= before + d);
        if fully_expanded(lhs.parts@) && fully_expanded(rhs.parts@) {
            let ci = choose|ci: bool| #[trigger] rematch_writes(lhs, rhs, ci, res, before, after);
            let src = plain_regex(rhs);
            if regex_build_error(src, ci) is None {
                if let Some(g2) = regex_captures(src, ci, crate::semantics::plain_text(lhs)) {
                    assert(before.push(g2)[before.len() as int] == g2);
                    assert(before.push(g)[before.len() as int] == g);
                }
            }
            assert(nothing.push(g) =~= d);
            assert(rematch_writes(lhs, rhs, ci, res, nothing, d));
        }
        assert(primary_writes(p, res, d));
    }
}

/// Evaluates parsed expressions against a host environment and file system.
pub struct Evaluator<'a, E: Env, F: FileSystem> {
    pub env: &'a mut E,
    pub fs: &'a F,
    pub rematches: Ghost<Seq<Seq<Option<Seq<char>>>>>,
    pub assignments: Ghost<Seq<(Seq<char>, bool)>>,
}

impl<'a, E: Env, F: FileSystem> Evaluator<'a, E, F> {
    /// The environment's model.
    pub closed spec fn model(&self) -> EnvModel {
        self.env.model()
    }

    /// The file system's model.
    pub closed spec fn fs_model(&self) -> FsModel {
        self.fs.model()
    }

    /// The groups handed to `set_bash_rematch` so far, one entry per call,
    /// in order.
    pub open spec fn rematch_log(&self) -> Seq<Seq<Option<Seq<char>>>> {
        self.rematches@
    }

    /// The assignments handed to the host's `set_var` so far, each with the
    /// host's answer, in order.
    pub open spec fn assignment_log(&self) -> Seq<(Seq<char>, bool)> {
        self.assignments@
    }

    /// An evaluator over `env` and `fs`. The caller's `env`, once the
    /// evaluator is gone, is the evaluator's environment at that point.
    pub fn new(env: &'a mut E, fs: &'a F) -> (r: Self)
        ensures
            r.model() == old(env).model(),
            r.fs_model() == fs.model(),
            *final(r.env) == *final(env),
            r.rematch_log() == Seq::<Seq<Option<Seq<char>>>>::empty(),
            r.assignment_log() == Seq::<(Seq<char>, bool)>::empty(),
    {
        Evaluator { env, fs, rematches: Ghost(Seq::empty()), assignments: Ghost(Seq::empty()) }
    }

    fn shell_option(&self, name: &str) -> (r: bool)
        ensures
            E::obeys_env_model() ==> r == opt_on(self.model(), name@),
    {
        option_or_default(name, self.env.shell_opt(name))
    }

    fn var_or_empty(&self, name: &str) -> (r: String)
        ensures
            E::obeys_env_model() ==> r@ == self.model().value_or_empty(name@),
    {
        match self.env.var(name) {
            Some(v) => owned(v),
            None => String::new(),
        }
    }

    fn expand(&mut self, w: &Word) -> (r: Result<String, EvalError>)
        ensures
            final(self).fs == old(self).fs,
            crate::arith::settles(old(self).assignment_log(), final(self).assignment_log(), str_result(r)),
            final(self).rematch_log() == old(self).rematch_log(),
            *final(final(self).env) == *final(old(self).env),
            E::obeys_env_model() ==> (str_result(r), final(self).model()) == word_value(
                *w,
                old(self).model(),
            ),
            fully_expanded(w.parts@) ==> str_result(r) == word_value(*w, arbitrary()).0,
        decreases *w, 0int,
    {
        let ghost l0 = self.assignment_log();
        let ghost m0 = self.model();
        let ghost fs0 = self.fs;
        let mut out = String::new();
        let mut i: usize = 0;
        while i < w.parts.len()
            invariant
                i <= w.parts@.len(),
                self.fs == fs0,
                self.rematches == old(self).rematches,
                l0 == old(self).assignment_log(),
                crate::arith::accepted(l0, self.assignment_log()),
                *final(self.env) == *final(old(self).env),
                fs0 == old(self).fs,
                m0 == old(self).model(),
                E::obeys_env_model() ==> parts_value(w.parts@, i as int, m0) == (
                    Ok::<Seq<char>, EvalErrorView>(out@),
                    self.model(),
                ),
                fully_expanded(w.parts@) ==> parts_value(w.parts@, i as int, arbitrary()).0 == Ok::<
                    Seq<char>,
                    EvalErrorView,
                >(out@),
            decreases w.parts@.len() - i,
        {
            proof {
                assert(decreases_to!(*w => w.parts));
                assert(decreases_to!(w.parts => w.parts@));
                assert(decreases_to!(w.parts@ => w.parts@[i as int]));
            }
            let ghost mb = self.model();
            let piece: String = match &w.parts[i] {
                WordPart::Literal(t) => owned(t.as_str()),
                WordPart::Quoted(t) => owned(t.as_str()),
                WordPart::Var(name) => self.var_or_empty(name.as_str()),
                WordPart::QuotedVar(name) => self.var_or_empty(name.as_str()),
                WordPart::Expansion { expansion, .. } => {
                    proof {
                        crate::arith::lemma_settles_chain(l0, self.assignment_log());
                    }
                    match self.eval_parameter_expansion(expansion) {
                        Ok(t) => t,
                        Err(e) => {
                            proof {
                                if E::obeys_env_model() {
                                    assert(part_value(w.parts@[i as int], mb) == (
                                        Err::<Seq<char>, EvalErrorView>(e@),
                                        self.model(),
                                    ));
                                    assert(parts_value(w.parts@, i + 1, m0) == (
                                        Err::<Seq<char>, EvalErrorView>(e@),
                                        self.model(),
                                    ));
                                    lemma_parts_value_err(
                                        w.parts@,
                                        i + 1,
                                        w.parts@.len() as int,
                                        m0,
                                    );
                                }
                            }
                            return Err(e);
                        },
                    }
                },
            };
            proof {
                if E::obeys_env_model() {
                    assert(part_value(w.parts@[i as int], mb) == (
                        Ok::<Seq<char>, EvalErrorView>(piece@),
                        self.model(),
                    ));
                    lemma_parts_value_step(w.parts@, i as int, m0, out@, mb, piece@, self.model());
                }
            }
            proof {
                if fully_expanded(w.parts@) {
                    let am: EnvModel = arbitrary();
                    crate::semantics::lemma_plain_parts(w.parts@, i as int, am);
                    assert(w.parts@[i as int] is Literal || w.parts@[i as int] is Quoted);
                    assert(part_value(w.parts@[i as int], am) == (Ok::<Seq<char>, EvalErrorView>(piece@), am));
                    assert(parts_value(w.parts@, i + 1, am).0 == Ok::<Seq<char>, EvalErrorView>(out@ + piece@));
                }
            }
            push_str(&mut out, piece.as_str());
            i = i + 1;
        }
        Ok(out)
    }

    fn eval_parameter_expansion(&mut self, x: &ParameterExpansion) -> (r: Result<String, EvalError>)
        ensures
            final(self).fs == old(self).fs,
            crate::arith::settles(old(self).assignment_log(), final(self).assignment_log(), str_result(r)),
            final(self).rematch_log() == old(self).rematch_log(),
            *final(final(self).env) == *final(old(self).env),
            E::obeys_env_model() ==> (str_result(r), final(self).model()) == expansion_value(
                *x,
                old(self).model(),
            ),
        decreases *x, 0int,
    {
        let ghost l0 = self.assignment_log();
        let ghost m0 = self.model();
        let name = x.name.as_str();
        let answer = self.env.var(name);
        let is_set = match answer {
            Some(_) => true,
            None => false,
        };
        let v = match answer {
            Some(t) => owned(t),
            None => String::new(),
        };
        let ghost value = m0.lookup(x.name@);
        let empty = v.as_str().is_empty();
        proof {
            if E::obeys_env_model() {
                assert(is_set == (value is Some));
                if empty {
                    assert(v@ =~= Seq::<char>::empty());
                }
                assert(is_set ==> value == Some(v@));
            }
        }
        match &x.op {
            ParameterOp::Length => {
                let cs = chars_of(v.as_str());
                Ok(crate::arith::usize_to_string(cs.len()))
            },
            ParameterOp::DefaultValue { test_null, word } => {
                let take = !is_set || (*test_null && empty);
                assert(E::obeys_env_model() ==> take == crate::semantics::takes_default(value, *test_null));
                if take {
                    self.expand(word)
                } else {
                    Ok(v)
                }
            },
            ParameterOp::AlternateValue { test_null, word } => {
                let take = is_set && (!*test_null || !empty);
                assert(E::obeys_env_model() ==> take == crate::semantics::takes_alternate(value, *test_null));
                if take {
                    self.expand(word)
                } else {
                    Ok(String::new())
                }
            },
            ParameterOp::Remove { kind, pattern } => {
                let pw = match self.expand_preserving_quotes(pattern) {
                    Ok(pw) => pw,
                    Err(e) => {
                        return Err(e);
                    },
                };
                let extglob = self.shell_option("extglob");
                remove_pattern(v.as_str(), *kind, &pw, extglob)
            },
            ParameterOp::Replace { kind, pattern, replacement } => {
                let pw = match self.expand_preserving_quotes(pattern) {
                    Ok(pw) => pw,
                    Err(e) => {
                        return Err(e);
                    },
                };
                proof {
                    crate::arith::lemma_settles_chain(l0, self.assignment_log());
                }
                let rw = match self.expand_preserving_quotes(replacement) {
                    Ok(rw) => rw,
                    Err(e) => {
                        return Err(e);
                    },
                };
                let patsub = self.shell_option("patsub_replacement");
                let ci = self.shell_option("nocasematch");
                let extglob = self.shell_option("extglob");
                replace_pattern(v.as_str(), *kind, &pw, &rw, patsub, ci, extglob)
            },
            ParameterOp::Substring { offset, length } => {
                let ot = match self.expand(offset) {
                    Ok(t) => t,
                    Err(e) => {
                        return Err(e);
                    },
                };
                proof {
                    crate::arith::lemma_settles_chain(l0, self.assignment_log());
                }
                let o = match crate::arith::eval_recorded(ot.as_str(), &mut *self.env, &mut self.assignments) {
                    Ok(o) => o,
                    Err(e) => {
                        return Err(e);
                    },
                };
                let l = match length {
                    None => None,
                    Some(lw) => {
                        proof {
                            crate::arith::lemma_settles_chain(l0, self.assignment_log());
                        }
                        let lt = match self.expand(lw) {
                            Ok(t) => t,
                            Err(e) => {
                                return Err(e);
                            },
                        };
                        proof {
                            crate::arith::lemma_settles_chain(l0, self.assignment_log());
                        }
                        match crate::arith::eval_recorded(lt.as_str(), &mut *self.env, &mut self.assignments) {
                            Ok(l) => Some(l),
                            Err(e) => {
                                return Err(e);
                            },
                        }
                    },
                };
                substring(v.as_str(), o, l)
            },
            ParameterOp::CaseModify { kind, pattern } => {
                match pattern {
                    None => modify_case(v.as_str(), *kind, None),
                    Some(pw) => {
                        let ew = match self.expand_preserving_quotes(pw) {
                            Ok(ew) => ew,
                            Err(e) => {
                                return Err(e);
                            },
                        };
                        modify_case(v.as_str(), *kind, Some(&ew))
                    },
                }
            },
        }
    }

    /// Expand values while retaining whether their resulting text is active
    /// pattern syntax or quoted literals.
    fn expand_preserving_quotes(&mut self, w: &Word) -> (r: Result<Word, EvalError>)
        ensures
            final(self).fs == old(self).fs,
            crate::arith::settles(old(self).assignment_log(), final(self).assignment_log(), word_result(r)),
            final(self).rematch_log() == old(self).rematch_log(),
            *final(final(self).env) == *final(old(self).env),
            plain_result(r),
            E::obeys_env_model() ==> (word_result(r), final(self).model()) == word_pieces(
                *w,
                old(self).model(),
            ),
            fully_expanded(w.parts@) ==> word_result(r) == word_pieces(*w, arbitrary()).0,
        decreases *w, 0int,
    {
        let ghost l0 = self.assignment_log();
        let ghost m0 = self.model();
        let ghost fs0 = self.fs;
        let mut expanded = Word { parts: Vec::new() };
        assert(pieces_of(expanded.parts@) =~= Seq::<Piece>::empty());
        let mut i: usize = 0;
        while i < w.parts.len()
            invariant
                i <= w.parts@.len(),
                self.fs == fs0,
                self.rematches == old(self).rematches,
                l0 == old(self).assignment_log(),
                crate::arith::accepted(l0, self.assignment_log()),
                *final(self.env) == *final(old(self).env),
                fs0 == old(self).fs,
                m0 == old(self).model(),
                fully_expanded(expanded.parts@),
                E::obeys_env_model() ==> parts_pieces(w.parts@, i as int, m0) == (
                    Ok::<Seq<Piece>, EvalErrorView>(pieces_of(expanded.parts@)),
                    self.model(),
                ),
                fully_expanded(w.parts@) ==> parts_pieces(w.parts@, i as int, arbitrary()).0
                    == Ok::<Seq<Piece>, EvalErrorView>(pieces_of(expanded.parts@)),
            decreases w.parts@.len() - i,
        {
            proof {
                assert(decreases_to!(*w => w.parts));
                assert(decreases_to!(w.parts => w.parts@));
                assert(decreases_to!(w.parts@ => w.parts@[i as int]));
            }
            let ghost mb = self.model();
            let ghost before = pieces_of(expanded.parts@);
            let ghost mut t: Seq<Piece> = Seq::empty();
            match &w.parts[i] {
                WordPart::Literal(text) => {
                    push_plain(&mut expanded, WordPart::Literal(owned(text.as_str())));
                    proof {
                        t = seq![(text@, false)];
                    }
                },
                WordPart::Quoted(text) => {
                    push_plain(&mut expanded, WordPart::Quoted(owned(text.as_str())));
                    proof {
                        t = seq![(text@, true)];
                    }
                },
                WordPart::Var(name) => {
                    let v = self.var_or_empty(name.as_str());
                    proof {
                        t = seq![(v@, false)];
                    }
                    push_plain(&mut expanded, WordPart::Literal(v));
                },
                WordPart::QuotedVar(name) => {
                    let v = self.var_or_empty(name.as_str());
                    proof {
                        t = seq![(v@, true)];
                    }
                    push_plain(&mut expanded, WordPart::Quoted(v));
                },
                WordPart::Expansion { expansion, quoted } => {
                    proof {
                        crate::arith::lemma_settles_chain(l0, self.assignment_log());
                    }
                    let value = match self.eval_parameter_expansion_preserving_quotes(expansion) {
                        Ok(value) => value,
                        Err(e) => {
                            proof {
                                if E::obeys_env_model() {
                                    assert(part_pieces(w.parts@[i as int], mb) == (
                                        Err::<Seq<Piece>, EvalErrorView>(e@),
                                        self.model(),
                                    ));
                                    assert(parts_pieces(w.parts@, i + 1, m0) == (
                                        Err::<Seq<Piece>, EvalErrorView>(e@),
                                        self.model(),
                                    ));
                                    lemma_parts_pieces_err(
                                        w.parts@,
                                        i + 1,
                                        w.parts@.len() as int,
                                        m0,
                                    );
                                }
                            }
                            return Err(e);
                        },
                    };
                    if *quoted {
                        let flat = flatten_expanded_word(&value);
                        proof {
                            t = seq![(flat@, true)];
                        }
                        push_plain(&mut expanded, WordPart::Quoted(flat));
                    } else {
                        let mut j: usize = 0;
                        assert(value.parts@.take(0) =~= Seq::<WordPart>::empty());
                        assert(pieces_of(value.parts@.take(0)) =~= Seq::<Piece>::empty());
                        assert(before + pieces_of(value.parts@.take(0)) =~= before);
                        while j < value.parts.len()
                            invariant
                                j <= value.parts@.len(),
                                fully_expanded(value.parts@),
                                fully_expanded(expanded.parts@),
                                pieces_of(expanded.parts@) == before + pieces_of(
                                    value.parts@.take(j as int),
                                ),
                            decreases value.parts@.len() - j,
                        {
                            let part = copy_plain(&value.parts[j]);
                            proof {
                                assert(value.parts@.take(j + 1) =~= value.parts@.take(j as int).push(
                                    value.parts@[j as int],
                                ));
                                lemma_pieces_of_push(value.parts@.take(j as int), value.parts@[j as int]);
                            }
                            push_plain(&mut expanded, part);
                            j = j + 1;
                        }
                        assert(value.parts@.take(j as int) =~= value.parts@);
                        proof {
                            t = pieces_of(value.parts@);
                        }
                    }
                },
            }
            proof {
                if E::obeys_env_model() {
                    assert(part_pieces(w.parts@[i as int], mb) == (
                        Ok::<Seq<Piece>, EvalErrorView>(t),
                        self.model(),
                    ));
                    lemma_parts_pieces_step(w.parts@, i as int, m0, before, mb, t, self.model());
                }
            }
            proof {
                if fully_expanded(w.parts@) {
                    let am: EnvModel = arbitrary();
                    crate::semantics::lemma_plain_parts(w.parts@, i as int, am);
                    assert(w.parts@[i as int] is Literal || w.parts@[i as int] is Quoted);
                    assert(part_pieces(w.parts@[i as int], am) == (Ok::<Seq<Piece>, EvalErrorView>(t), am));
                    assert(parts_pieces(w.parts@, i + 1, am).0 == Ok::<Seq<Piece>, EvalErrorView>(before + t));
                }
            }
            i = i + 1;
        }
        Ok(expanded)
    }

    fn eval_parameter_expansion_preserving_quotes(&mut self, x: &ParameterExpansion) -> (r: Result<
        Word,
        EvalError,
    >)
        ensures
            final(self).fs == old(self).fs,
            crate::arith::settles(old(self).assignment_log(), final(self).assignment_log(), word_result(r)),
            final(self).rematch_log() == old(self).rematch_log(),
            *final(final(self).env) == *final(old(self).env),
            plain_result(r),
            E::obeys_env_model() ==> (word_result(r), final(self).model()) == expansion_pieces(
                *x,
                old(self).model(),
            ),
        decreases *x, 1int,
    {
        let ghost l0 = self.assignment_log();
        let ghost m0 = self.model();
        let name = x.name.as_str();
        let answer = self.env.var(name);
        let is_set = match answer {
            Some(_) => true,
            None => false,
        };
        let v = match answer {
            Some(t) => owned(t),
            None => String::new(),
        };
        let ghost value = m0.lookup(x.name@);
        let empty = v.as_str().is_empty();
        proof {
            if E::obeys_env_model() {
                assert(is_set == (value is Some));
                if empty {
                    assert(v@ =~= Seq::<char>::empty());
                }
                assert(is_set ==> value == Some(v@));
            }
        }
        match &x.op {
            ParameterOp::DefaultValue { test_null, word } => {
                let take = !is_set || (*test_null && empty);
                assert(E::obeys_env_model() ==> take == crate::semantics::takes_default(value, *test_null));
                if take {
                    self.expand_preserving_quotes(word)
                } else {
                    let lw = Word::literal(v.as_str());
                    proof {
                        lemma_literal_word(lw);
                    }
                    Ok(lw)
                }
            },
            ParameterOp::AlternateValue { test_null, word } => {
                let take = is_set && (!*test_null || !empty);
                assert(E::obeys_env_model() ==> take == crate::semantics::takes_alternate(value, *test_null));
                if take {
                    self.expand_preserving_quotes(word)
                } else {
                    let empty = Word { parts: Vec::new() };
                    assert(pieces_of(empty.parts@) =~= Seq::<Piece>::empty());
                    Ok(empty)
                }
            },
            _ => {
                let s = match self.eval_parameter_expansion(x) {
                    Ok(s) => s,
                    Err(e) => {
                        return Err(e);
                    },
                };
                let lw = Word::literal(s.as_str());
                proof {
                    lemma_literal_word(lw);
                }
                Ok(lw)
            },
        }
    }

    /// The status of `arg` following symlinks; an empty path never exists.
    fn stat_path(&self, arg: &str) -> (r: Option<FileStat>)
        ensures
            F::obeys_fs_model() ==> r == stat_of(self.fs_model(), arg@),
            arg@.len() == 0 ==> r is None,
    {
        if arg.is_empty() {
            return None;
        }
        match self.fs.stat(arg) {
            Ok(st) => Some(st),
            Err(_) => None,
        }
    }

    /// The status of `arg` without following symlinks.
    fn lstat_path(&self, arg: &str) -> (r: Option<FileStat>)
        ensures
            F::obeys_fs_model() ==> r == crate::semantics::lstat_of(self.fs_model(), arg@),
            arg@.len() == 0 ==> r is None,
    {
        if arg.is_empty() {
            return None;
        }
        match self.fs.lstat(arg) {
            Ok(st) => Some(st),
            Err(_) => None,
        }
    }

    fn access_path(&self, arg: &str, mode: AccessMode) -> (r: bool)
        ensures
            F::obeys_fs_model() ==> r == (arg@.len() > 0 && (self.fs_model().access)(arg@, mode)),
            arg@.len() == 0 ==> !r,
    {
        !arg.is_empty() && self.fs.access(arg, mode)
    }

    /// `-v`: ask the host about the element `var_set_target` names, or
    /// else about the scalar and its element `0`.
    fn eval_var_set(&self, raw: &str) -> (r: bool)
        ensures
            E::obeys_env_model() ==> r == crate::semantics::var_set(self.model(), raw@),
    {
        match var_set_target(raw) {
            Some((name, sub)) => self.env.array_element_set(name.as_str(), sub.as_str()),
            None => {
                proof {
                    reveal_strlit("0");
                    assert("0"@ =~= seq!['0']);
                }
                let set = match self.env.var(raw) {
                    Some(_) => true,
                    None => false,
                };
                set || self.env.array_element_set(raw, "0")
            },
        }
    }

    fn eval_unary(&self, op: UnaryOp, arg: &str) -> (r: Result<bool, EvalError>)
        ensures
            E::obeys_env_model() && (F::obeys_fs_model() || !crate::semantics::unary_uses_fs(op))
                ==> result_view(r) == unary_outcome(op, arg@, self.model(), self.fs_model()),
            E::obeys_env_model() ==> exists|w: FsAnswers|
                result_view(r) == #[trigger] unary_outcome_obs(op, arg@, self.model(), w),
            !crate::semantics::env_unary(op) ==> exists|w: FsAnswers|
                result_view(r) == #[trigger] unary_outcome_obs(op, arg@, arbitrary(), w),
            crate::semantics::env_unary(op) ==> r is Ok,
    {
        let ghost mut w = FsAnswers { stat: None, other: None, access: false, id: 0, tty: false };
        let b = match op {
            UnaryOp::FileExists => {
                let st = self.stat_path(arg);
                proof { w.stat = st; }
                st.is_some()
            },
            UnaryOp::FileRegular => {
                let st = self.stat_path(arg);
                proof { w.stat = st; }
                stat_kind_is(&st, FileKind::Regular)
            },
            UnaryOp::FileDir => {
                let st = self.stat_path(arg);
                proof { w.stat = st; }
                stat_kind_is(&st, FileKind::Directory)
            },
            UnaryOp::FileBlock => {
                let st = self.stat_path(arg);
                proof { w.stat = st; }
                stat_kind_is(&st, FileKind::BlockDevice)
            },
            UnaryOp::FileChar => {
                let st = self.stat_path(arg);
                proof { w.stat = st; }
                stat_kind_is(&st, FileKind::CharDevice)
            },
            UnaryOp::FileSymlink => {
                let st = self.lstat_path(arg);
                proof { w.stat = st; }
                stat_kind_is(&st, FileKind::Symlink)
            },
            UnaryOp::FileNamedPipe => {
                let st = self.stat_path(arg);
                proof { w.stat = st; }
                stat_kind_is(&st, FileKind::NamedPipe)
            },
            UnaryOp::FileSocket => {
                let st = self.stat_path(arg);
                proof { w.stat = st; }
                stat_kind_is(&st, FileKind::Socket)
            },
            UnaryOp::FileReadable => {
                let a = self.access_path(arg, AccessMode::Read);
                proof { w.access = a; }
                a
            },
            UnaryOp::FileWritable => {
                let a = self.access_path(arg, AccessMode::Write);
                proof { w.access = a; }
                a
            },
            UnaryOp::FileExecutable => {
                let a = self.access_path(arg, AccessMode::Execute);
                proof { w.access = a; }
                a
            },
            UnaryOp::FileNonEmpty => {
                let st = self.stat_path(arg);
                proof { w.stat = st; }
                match st {
                    Some(st) => st.size > 0,
                    None => false,
                }
            },
            UnaryOp::FileSetUid => {
                let st = self.stat_path(arg);
                proof { w.stat = st; }
                stat_mode_bit(&st, 0o4000u32)
            },
            UnaryOp::FileSetGid => {
                let st = self.stat_path(arg);
                proof { w.stat = st; }
                stat_mode_bit(&st, 0o2000u32)
            },
            UnaryOp::FileSticky => {
                let st = self.stat_path(arg);
                proof { w.stat = st; }
                stat_mode_bit(&st, 0o1000u32)
            },
            UnaryOp::FileOwnedByUid => {
                let st = self.stat_path(arg);
                proof { w.stat = st; }
                match st {
                    Some(st) => {
                        let id = self.fs.effective_uid();
                        proof { w.id = id; }
                        st.uid == id
                    },
                    None => false,
                }
            },
            UnaryOp::FileOwnedByGid => {
                let st = self.stat_path(arg);
                proof { w.stat = st; }
                match st {
                    Some(st) => {
                        let id = self.fs.effective_gid();
                        proof { w.id = id; }
                        st.gid == id
                    },
                    None => false,
                }
            },
            UnaryOp::FileNewerThanAccess => {
                let st = self.stat_path(arg);
                proof { w.stat = st; }
                match st {
                    Some(st) => stat_after(st.mtime, st.atime),
                    None => false,
                }
            },
            UnaryOp::FdIsTty => match parse_fd(arg) {
                Some(fd) => {
                    let t = self.fs.is_tty(fd);
                    proof { w.tty = t; }
                    t
                },
                None => {
                    let r = Err(EvalError::InvalidFd(owned(arg)));
                    assert(result_view(r) == unary_outcome_obs(op, arg@, self.model(), w));
                    assert(result_view(r) == unary_outcome_obs(op, arg@, arbitrary(), w));
                    return r;
                },
            },
            UnaryOp::StringEmpty => arg.is_empty(),
            UnaryOp::StringNonEmpty => !arg.is_empty(),
            UnaryOp::VarSet => self.eval_var_set(arg),
            UnaryOp::VarIsNameRef => self.env.is_nameref(arg),
            UnaryOp::ShellOptSet => self.shell_option(arg),
        };
        assert(E::obeys_env_model() ==> result_view(Ok::<bool, EvalError>(b)) == unary_outcome_obs(op, arg@, self.model(), w));
        assert(!crate::semantics::env_unary(op) ==> result_view(Ok::<bool, EvalError>(b)) == unary_outcome_obs(op, arg@, arbitrary(), w));
        Ok(b)
    }

    /// A file comparison: `-ef`, `-nt` or `-ot`.
    fn eval_file_compare(&mut self, op: BinaryOp, lhs: &Word, rhs: &Word) -> (r: Result<bool, EvalError>)
        requires
            crate::semantics::binary_uses_fs(op),
        ensures
            final(self).fs == old(self).fs,
            crate::arith::settles(old(self).assignment_log(), final(self).assignment_log(), result_view(r)),
            final(self).rematch_log() == old(self).rematch_log(),
            *final(final(self).env) == *final(old(self).env),
            E::obeys_env_model() && F::obeys_fs_model() ==> (result_view(r), final(self).model())
                == binary_outcome(op, *lhs, *rhs, old(self).model(), old(self).fs_model()),
            E::obeys_env_model() ==> exists|w: FsAnswers|
                (result_view(r), final(self).model()) == #[trigger] binary_outcome_obs(
                    op,
                    *lhs,
                    *rhs,
                    old(self).model(),
                    w,
                ),
            fully_expanded(lhs.parts@) && fully_expanded(rhs.parts@) ==> exists|w: FsAnswers|
                result_view(r) == #[trigger] binary_outcome_obs(op, *lhs, *rhs, arbitrary(), w).0,
    {
        let ghost l0 = self.assignment_log();
        proof {
            if fully_expanded(lhs.parts@) && fully_expanded(rhs.parts@) {
                crate::semantics::lemma_plain_word(*lhs);
                crate::semantics::lemma_plain_word(*rhs);
            }
        }
        let l = match self.expand(lhs) {
            Ok(l) => l,
            Err(e) => {
                assert(E::obeys_env_model() ==> (result_view(Err::<bool, EvalError>(e)), self.model())
                    == binary_outcome_obs(op, *lhs, *rhs, old(self).model(), arbitrary()));
                return Err(e);
            },
        };
        proof {
            crate::arith::lemma_settles_chain(l0, self.assignment_log());
        }
        let rt = match self.expand(rhs) {
            Ok(rt) => rt,
            Err(e) => {
                assert(E::obeys_env_model() ==> (result_view(Err::<bool, EvalError>(e)), self.model())
                    == binary_outcome_obs(op, *lhs, *rhs, old(self).model(), arbitrary()));
                return Err(e);
            },
        };
        let a = self.stat_path(l.as_str());
        let c = self.stat_path(rt.as_str());
        let ghost w = FsAnswers { stat: a, other: c, access: false, id: 0, tty: false };
        let b = file_compare_exec(op, &a, &c);
        assert(E::obeys_env_model() ==> (result_view(Ok::<bool, EvalError>(b)), self.model())
            == binary_outcome_obs(op, *lhs, *rhs, old(self).model(), w));
        assert(fully_expanded(lhs.parts@) && fully_expanded(rhs.parts@) ==> result_view(Ok::<bool, EvalError>(b))
            == binary_outcome_obs(op, *lhs, *rhs, arbitrary(), w).0);
        Ok(b)
    }

    fn eval_binary(&mut self, op: BinaryOp, lhs: &Word, rhs: &Word) -> (r: Result<bool, EvalError>)
        ensures
            final(self).fs == old(self).fs,
            crate::arith::settles(old(self).assignment_log(), final(self).assignment_log(), result_view(r)),
            *final(final(self).env) == *final(old(self).env),
            E::obeys_env_model() && (F::obeys_fs_model() || !crate::semantics::binary_uses_fs(op))
                ==> (result_view(r), final(self).model()) == binary_outcome(
                op,
                *lhs,
                *rhs,
                old(self).model(),
                old(self).fs_model(),
            ),
            E::obeys_env_model() ==> exists|w: FsAnswers|
                (result_view(r), final(self).model()) == #[trigger] binary_outcome_obs(
                    op,
                    *lhs,
                    *rhs,
                    old(self).model(),
                    w,
                ),
            crate::semantics::plain_operands(op, *lhs, *rhs) ==> exists|m: EnvModel, w: FsAnswers|
                result_view(r) == #[trigger] binary_outcome_obs(op, *lhs, *rhs, m, w).0,
            op != BinaryOp::RegexMatch ==> final(self).rematch_log() == old(self).rematch_log(),
            op == BinaryOp::RegexMatch ==> final(self).rematch_log() == old(self).rematch_log() || (r
                matches Ok(true) && exists|g: Seq<Option<Seq<char>>>| final(self).rematch_log()
                == #[trigger] old(self).rematch_log().push(g)),
            op == BinaryOp::RegexMatch && fully_expanded(lhs.parts@) && fully_expanded(rhs.parts@)
                ==> exists|ci: bool| #[trigger] rematch_writes(*lhs, *rhs, ci, result_view(r), old(self).rematch_log(), final(self).rematch_log()),
    {
        let ghost l0 = self.assignment_log();
        match op {
            BinaryOp::FileSameInode | BinaryOp::FileNewer | BinaryOp::FileOlder => {
                let r = self.eval_file_compare(op, lhs, rhs);
                proof {
                    if fully_expanded(lhs.parts@) && fully_expanded(rhs.parts@) {
                        let w = choose|w: FsAnswers| result_view(r)
                            == #[trigger] binary_outcome_obs(op, *lhs, *rhs, arbitrary(), w).0;
                        assert(result_view(r) == binary_outcome_obs(op, *lhs, *rhs, arbitrary(), w).0);
                    }
                }
                r
            },
            _ => {
                let ghost w = FsAnswers { stat: None, other: None, access: false, id: 0, tty: false };
                proof {
                    lemma_binary_fs_free(op, *lhs, *rhs, self.model(), self.fs_model(), no_fs());
                }
                let r = self.eval_other_binary(op, lhs, rhs);
                proof {
                    if crate::semantics::plain_operands(op, *lhs, *rhs) {
                        let m = choose|m: EnvModel| result_view(r)
                            == #[trigger] binary_outcome(op, *lhs, *rhs, m, no_fs()).0;
                        assert(result_view(r) == binary_outcome_obs(op, *lhs, *rhs, m, w).0);
                    }
                }
                assert(E::obeys_env_model() ==> (result_view(r), self.model()) == binary_outcome_obs(
                    op,
                    *lhs,
                    *rhs,
                    old(self).model(),
                    w,
                ));
                r
            },
        }
    }

    /// A binary test that does not consult the file system.
    fn eval_other_binary(&mut self, op: BinaryOp, lhs: &Word, rhs: &Word) -> (r: Result<bool, EvalError>)
        requires
            !crate::semantics::binary_uses_fs(op),
        ensures
            final(self).fs == old(self).fs,
            crate::arith::settles(old(self).assignment_log(), final(self).assignment_log(), result_view(r)),
            *final(final(self).env) == *final(old(self).env),
            E::obeys_env_model() ==> (result_view(r), final(self).model()) == binary_outcome(
                op,
                *lhs,
                *rhs,
                old(self).model(),
                old(self).fs_model(),
            ),
            crate::semantics::plain_operands(op, *lhs, *rhs) ==> exists|m: EnvModel| result_view(r) == #[trigger] binary_outcome(op, *lhs, *rhs, m, no_fs()).0,
            op != BinaryOp::RegexMatch ==> final(self).rematch_log() == old(self).rematch_log(),
            op == BinaryOp::RegexMatch ==> final(self).rematch_log() == old(self).rematch_log() || (r
                matches Ok(true) && exists|g: Seq<Option<Seq<char>>>| final(self).rematch_log()
                == #[trigger] old(self).rematch_log().push(g)),
            op == BinaryOp::RegexMatch && fully_expanded(lhs.parts@) && fully_expanded(rhs.parts@)
                ==> exists|ci: bool| #[trigger] rematch_writes(*lhs, *rhs, ci, result_view(r), old(self).rematch_log(), final(self).rematch_log()),
    {
        let ghost l0 = self.assignment_log();
        let ghost plain = crate::semantics::plain_operands(op, *lhs, *rhs);
        proof {
            if plain {
                crate::semantics::lemma_plain_word(*lhs);
                crate::semantics::lemma_plain_word(*rhs);
            }
        }
        let l = match self.expand(lhs) {
            Ok(l) => l,
            Err(e) => {
                return Err(e);
            },
        };
        match op {
            BinaryOp::GlobMatch | BinaryOp::GlobNotMatch => {
                proof {
                    crate::arith::lemma_settles_chain(l0, self.assignment_log());
                }
                let rw = match self.expand_preserving_quotes(rhs) {
                    Ok(rw) => rw,
                    Err(e) => {
                        return Err(e);
                    },
                };
                let ci = self.shell_option("nocasematch");
                let ghost mw = crate::semantics::with_option(arbitrary(), "nocasematch"@, ci);
                assert(opt_on(mw, "nocasematch"@) == ci);
                let g = match compile_expanded(&rw, GlobOptions { case_insensitive: ci, extglob: true }) {
                    Ok(g) => g,
                    Err(e) => {
                        assert(plain ==> result_view(Err::<bool, EvalError>(e)) == binary_outcome(op, *lhs, *rhs, mw, no_fs()).0);
                        return Err(e);
                    },
                };
                let m = g.is_match(l.as_str());
                let r = Ok(if op == BinaryOp::GlobMatch {
                    m
                } else {
                    !m
                });
                assert(plain ==> result_view(r) == binary_outcome(op, *lhs, *rhs, mw, no_fs()).0);
                r
            },
            BinaryOp::RegexMatch => {
                proof {
                    crate::arith::lemma_settles_chain(l0, self.assignment_log());
                }
                let rw = match self.expand_preserving_quotes(rhs) {
                    Ok(rw) => rw,
                    Err(e) => {
                        return Err(e);
                    },
                };
                let nocase = self.shell_option("nocasematch");
                let ghost mw = crate::semantics::with_option(arbitrary(), "nocasematch"@, nocase);
                assert(opt_on(mw, "nocasematch"@) == nocase);
                let re = match compile_expanded_regex(&rw, nocase) {
                    Ok(re) => re,
                    Err(e) => {
                        assert(plain ==> result_view(Err::<bool, EvalError>(e)) == binary_outcome(op, *lhs, *rhs, mw, no_fs()).0);
                        assert(plain ==> rematch_writes(*lhs, *rhs, nocase, result_view(Err::<bool, EvalError>(e)), old(self).rematch_log(), self.rematch_log()));
                        return Err(e);
                    },
                };
                match re.captures(l.as_str()) {
                    Some(groups) => {
                        self.env.set_bash_rematch(groups.as_slice());
                        proof {
                            self.rematches@ = self.rematches@.push(crate::env::groups_view(groups@));
                        }
                        assert(plain ==> result_view(Ok::<bool, EvalError>(true)) == binary_outcome(op, *lhs, *rhs, mw, no_fs()).0);
                        assert(plain ==> rematch_writes(*lhs, *rhs, nocase, result_view(Ok::<bool, EvalError>(true)), old(self).rematch_log(), self.rematch_log()));
                        assert(self.rematch_log() == old(self).rematch_log().push(crate::env::groups_view(groups@)));
                        Ok(true)
                    },
                    None => {
                        assert(plain ==> result_view(Ok::<bool, EvalError>(false)) == binary_outcome(op, *lhs, *rhs, mw, no_fs()).0);
                        assert(plain ==> rematch_writes(*lhs, *rhs, nocase, result_view(Ok::<bool, EvalError>(false)), old(self).rematch_log(), self.rematch_log()));
                        Ok(false)
                    },
                }
            },
            BinaryOp::ArithEq | BinaryOp::ArithNe | BinaryOp::ArithLt | BinaryOp::ArithLe
            | BinaryOp::ArithGt | BinaryOp::ArithGe => {
                proof {
                    if plain {
                        crate::arith::lemma_host_free(arbitrary(), l@);
                        crate::arith::lemma_host_free(arbitrary(), crate::semantics::plain_text(*rhs));
                    }
                }
                proof {
                    crate::arith::lemma_settles_chain(l0, self.assignment_log());
                }
                let a = match crate::arith::eval_recorded(l.as_str(), &mut *self.env, &mut self.assignments) {
                    Ok(a) => a,
                    Err(e) => {
                        assert(plain ==> result_view(Err::<bool, EvalError>(e)) == binary_outcome(op, *lhs, *rhs, arbitrary(), no_fs()).0);
                        return Err(e);
                    },
                };
                proof {
                    crate::arith::lemma_settles_chain(l0, self.assignment_log());
                }
                let rt = match self.expand(rhs) {
                    Ok(rt) => rt,
                    Err(e) => {
                        return Err(e);
                    },
                };
                proof {
                    crate::arith::lemma_settles_chain(l0, self.assignment_log());
                }
                let b = match crate::arith::eval_recorded(rt.as_str(), &mut *self.env, &mut self.assignments) {
                    Ok(b) => b,
                    Err(e) => {
                        assert(plain ==> result_view(Err::<bool, EvalError>(e)) == binary_outcome(op, *lhs, *rhs, arbitrary(), no_fs()).0);
                        return Err(e);
                    },
                };
                let r = Ok(
                    match op {
                        BinaryOp::ArithEq => a == b,
                        BinaryOp::ArithNe => a != b,
                        BinaryOp::ArithLt => a < b,
                        BinaryOp::ArithLe => a <= b,
                        BinaryOp::ArithGt => a > b,
                        _ => a >= b,
                    },
                );
                assert(plain ==> result_view(r) == binary_outcome(op, *lhs, *rhs, arbitrary(), no_fs()).0);
                r
            },
            _ => {
                proof {
                    crate::arith::lemma_settles_chain(l0, self.assignment_log());
                }
                let rt = match self.expand(rhs) {
                    Ok(rt) => rt,
                    Err(e) => {
                        return Err(e);
                    },
                };
                let b = match op {
                    BinaryOp::StrLt => {
                        let lc = chars_of(l.as_str());
                        let rc = chars_of(rt.as_str());
                        text_less_exec(lc.as_slice(), rc.as_slice())
                    },
                    _ => {
                        let lc = chars_of(l.as_str());
                        let rc = chars_of(rt.as_str());
                        text_less_exec(rc.as_slice(), lc.as_slice())
                    },
                };
                assert(plain ==> result_view(Ok::<bool, EvalError>(b)) == binary_outcome(op, *lhs, *rhs, arbitrary(), no_fs()).0);
                Ok(b)
            },
        }
    }

    fn eval_primary(&mut self, p: &Primary) -> (r: Result<bool, EvalError>)
        ensures
            final(self).fs == old(self).fs,
            crate::arith::settles(old(self).assignment_log(), final(self).assignment_log(), result_view(r)),
            *final(final(self).env) == *final(old(self).env),
            E::obeys_env_model() && (F::obeys_fs_model() || !uses_fs(Expr::Primary(*p))) ==> (
            result_view(r), final(self).model()) == primary_outcome(*p, old(self).model(), old(self).fs_model()),
            E::obeys_env_model() ==> exists|w: FsAnswers|
                (result_view(r), final(self).model()) == #[trigger] primary_outcome_obs(
                    *p,
                    old(self).model(),
                    w,
                ),
            crate::semantics::possible_primary(*p, result_view(r)),
            exists|d: Seq<Seq<Option<Seq<char>>>>| final(self).rematch_log() == old(self).rematch_log() + d
                && #[trigger] primary_writes(*p, result_view(r), d),
    {
        let ghost l0 = self.assignment_log();
        let ghost nothing = Seq::<Seq<Option<Seq<char>>>>::empty();
        assert(self.rematch_log() + nothing =~= self.rematch_log());
        let ghost m0 = self.model();
        let ghost none = FsAnswers { stat: None, other: None, access: false, id: 0, tty: false };
        match p {
            Primary::Unary { op, arg } => {
                let s = match self.expand(arg) {
                    Ok(s) => s,
                    Err(e) => {
                        assert(E::obeys_env_model() ==> (result_view(Err::<bool, EvalError>(e)), self.model())
                            == primary_outcome_obs(*p, m0, none));
                        proof {
                            if fully_expanded(arg.parts@) {
                                crate::semantics::lemma_plain_word(*arg);
                            }
                        }
                        assert(primary_writes(*p, result_view(Err::<bool, EvalError>(e)), nothing));
                        return Err(e);
                    },
                };
                let r = self.eval_unary(*op, s.as_str());
                proof {
                    if E::obeys_env_model() {
                        let w = choose|w: FsAnswers| result_view(r) == unary_outcome_obs(*op, s@, self.model(), w);
                        assert((result_view(r), self.model()) == primary_outcome_obs(*p, m0, w));
                    }
                    if fully_expanded(arg.parts@) && !crate::semantics::env_unary(*op) {
                        let am: EnvModel = arbitrary();
                        crate::semantics::lemma_plain_word(*arg);
                        assert(word_value(*arg, am) == (Ok::<Seq<char>, EvalErrorView>(s@), am));
                        let w = choose|w: FsAnswers| result_view(r) == #[trigger] unary_outcome_obs(*op, s@, am, w);
                        assert(result_view(r) == primary_outcome_obs(*p, am, w).0);
                    }
                }
                assert(primary_writes(*p, result_view(r), nothing));
                r
            },
            Primary::Binary { op, lhs, rhs } => {
                let r = self.eval_binary(*op, lhs, rhs);
                proof {
                    if E::obeys_env_model() {
                        let w = choose|w: FsAnswers| (result_view(r), self.model()) == binary_outcome_obs(*op, *lhs, *rhs, m0, w);
                        assert((result_view(r), self.model()) == primary_outcome_obs(*p, m0, w));
                    }
                    if crate::semantics::plain_operands(*op, *lhs, *rhs) {
                        let (m, w) = choose|m: EnvModel, w: FsAnswers|
                            result_view(r) == #[trigger] binary_outcome_obs(*op, *lhs, *rhs, m, w).0;
                        assert(result_view(r) == primary_outcome_obs(*p, m, w).0);
                    }
                    lemma_binary_writes(*op, *lhs, *rhs, result_view(r), old(self).rematch_log(), self.rematch_log());
                }
                r
            },
            Primary::StringNonEmpty(w) => {
                let s = match self.expand(w) {
                    Ok(s) => s,
                    Err(e) => {
                        assert(E::obeys_env_model() ==> (result_view(Err::<bool, EvalError>(e)), self.model())
                            == primary_outcome_obs(*p, m0, none));
                        proof {
                            if fully_expanded(w.parts@) {
                                crate::semantics::lemma_plain_word(*w);
                            }
                        }
                        assert(primary_writes(*p, result_view(Err::<bool, EvalError>(e)), nothing));
                        return Err(e);
                    },
                };
                let r = Ok(!s.as_str().is_empty());
                proof {
                    if fully_expanded(w.parts@) {
                        let am: EnvModel = arbitrary();
                        crate::semantics::lemma_plain_word(*w);
                        assert(word_value(*w, am) == (Ok::<Seq<char>, EvalErrorView>(s@), am));
                    }
                }
                assert(E::obeys_env_model() ==> (result_view(r), self.model()) == primary_outcome_obs(*p, m0, none));
                assert(primary_writes(*p, result_view(r), nothing));
                r
            },
        }
    }

    /// Evaluates an expression. `&&` and `||` short-circuit.
    ///
    /// For an environment that follows its model, the outcome and the
    /// environment left behind are [`expr_outcome`] when the file system
    /// follows its model too (or is not consulted), and in any case
    /// [`expr_outcome_obs`] for some answers of the file system at the
    /// file primaries.
    ///
    /// Whatever the host: the outcome is [`tree_outcome`] of what the
    /// primaries it reached gave, each a possible outcome of its own
    /// ([`crate::semantics::possible_primary`]: fixed, for operands of plain
    /// text, but for the host's answers); an assignment the host refuses is
    /// the last one handed to it and ends the evaluation with
    /// `ArithmeticAssignmentUnsupported` ([`crate::arith::settles`]); and
    /// what the host was handed to keep as `BASH_REMATCH` is, in order, what
    /// the reached primaries wrote ([`tree_writes`]): only `=~` writes, once
    /// and only on a match, and on plain text the groups of its leftmost
    /// match ([`primary_writes`]).
    #[verifier::rlimit(60)]
    pub fn eval(&mut self, expr: &Expr) -> (r: Result<bool, EvalError>)
        ensures
            final(self).fs_model() == old(self).fs_model(),
            final(self).fs == old(self).fs,
            crate::arith::settles(old(self).assignment_log(), final(self).assignment_log(), result_view(r)),
            *final(final(self).env) == *final(old(self).env),
            E::obeys_env_model() && (F::obeys_fs_model() || !uses_fs(*expr)) ==> (
            result_view(r), final(self).model()) == expr_outcome(*expr, old(self).model(), old(self).fs_model()),
            E::obeys_env_model() ==> exists|o: spec_fn(Seq<int>) -> FsAnswers|
                (result_view(r), final(self).model()) == #[trigger] expr_outcome_obs(
                    *expr,
                    old(self).model(),
                    o,
                ),
            exists|
                o: spec_fn(Seq<int>) -> Result<bool, EvalErrorView>,
                w: spec_fn(Seq<int>) -> Seq<Seq<Option<Seq<char>>>>,
            |
                result_view(r) == #[trigger] tree_outcome(*expr, o) && tree_possible(*expr, o)
                    && writes_possible(*expr, o, w) && final(self).rematch_log() == old(self).rematch_log()
                    + #[trigger] tree_writes(*expr, o, w),
            crate::semantics::host_free(*expr) ==> result_view(r) == expr_outcome(*expr, arbitrary(), no_fs()).0,
        decreases *expr,
    {
        let ghost r0 = self.rematch_log();
        let ghost l0 = self.assignment_log();
        let ghost m0 = self.model();
        let ghost none = |p: Seq<int>| FsAnswers { stat: None, other: None, access: false, id: 0, tty: false };
        let outcome = match expr {
            Expr::And(l, r) => {
                let lr = self.eval(l);
                let ghost m1 = self.model();
                let ghost r1 = self.rematch_log();
                let ghost ol = choose|o: spec_fn(Seq<int>) -> FsAnswers|
                    (result_view(lr), m1) == expr_outcome_obs(**l, m0, o);
                let ghost (tl, wl) = choose|
                    o: spec_fn(Seq<int>) -> Result<bool, EvalErrorView>,
                    w: spec_fn(Seq<int>) -> Seq<Seq<Option<Seq<char>>>>,
                |
                    result_view(lr) == #[trigger] tree_outcome(**l, o) && tree_possible(**l, o)
                        && writes_possible(**l, o, w) && self.rematch_log() == r0 + #[trigger] tree_writes(**l, o, w);
                match lr {
                    Ok(true) => {
                        proof {
                            crate::arith::lemma_settles_chain(l0, self.assignment_log());
                        }
                        let rr = self.eval(r);
                        proof {
                            let (tr, wr) = choose|
                                o: spec_fn(Seq<int>) -> Result<bool, EvalErrorView>,
                                w: spec_fn(Seq<int>) -> Seq<Seq<Option<Seq<char>>>>,
                            |
                                result_view(rr) == #[trigger] tree_outcome(**r, o) && tree_possible(**r, o)
                                    && writes_possible(**r, o, w) && self.rematch_log() == r1 + #[trigger] tree_writes(**r, o, w);
                            lemma_join2(tl, tr);
                            lemma_join2(wl, wr);
                            assert(self.rematch_log() =~= r0 + tree_writes(*expr, join2(tl, tr), join2(wl, wr)));
                            assert(result_view(rr) == tree_outcome(*expr, join2(tl, tr)) && tree_possible(*expr, join2(tl, tr))
                                && writes_possible(*expr, join2(tl, tr), join2(wl, wr)));
                            if E::obeys_env_model() {
                                let or = choose|o: spec_fn(Seq<int>) -> FsAnswers|
                                    (result_view(rr), self.model()) == expr_outcome_obs(**r, m1, o);
                                lemma_join(ol, or);
                                assert((result_view(rr), self.model()) == expr_outcome_obs(*expr, m0, join(ol, or)));
                            }
                        }
                        rr
                    },
                    other => {
                        proof {
                            lemma_join2(tl, tl);
                            lemma_join2(wl, wl);
                            assert(self.rematch_log() =~= r0 + tree_writes(*expr, join2(tl, tl), join2(wl, wl)));
                            assert(result_view(other) == tree_outcome(*expr, join2(tl, tl)) && tree_possible(*expr, join2(tl, tl))
                                && writes_possible(*expr, join2(tl, tl), join2(wl, wl)));
                            if E::obeys_env_model() {
                                lemma_join(ol, none);
                                assert((result_view(other), self.model()) == expr_outcome_obs(*expr, m0, join(ol, none)));
                            }
                        }
                        other
                    },
                }
            },
            Expr::Or(l, r) => {
                let lr = self.eval(l);
                let ghost m1 = self.model();
                let ghost r1 = self.rematch_log();
                let ghost ol = choose|o: spec_fn(Seq<int>) -> FsAnswers|
                    (result_view(lr), m1) == expr_outcome_obs(**l, m0, o);
                let ghost (tl, wl) = choose|
                    o: spec_fn(Seq<int>) -> Result<bool, EvalErrorView>,
                    w: spec_fn(Seq<int>) -> Seq<Seq<Option<Seq<char>>>>,
                |
                    result_view(lr) == #[trigger] tree_outcome(**l, o) && tree_possible(**l, o)
                        && writes_possible(**l, o, w) && self.rematch_log() == r0 + #[trigger] tree_writes(**l, o, w);
                match lr {
                    Ok(false) => {
                        proof {
                            crate::arith::lemma_settles_chain(l0, self.assignment_log());
                        }
                        let rr = self.eval(r);
                        proof {
                            let (tr, wr) = choose|
                                o: spec_fn(Seq<int>) -> Result<bool, EvalErrorView>,
                                w: spec_fn(Seq<int>) -> Seq<Seq<Option<Seq<char>>>>,
                            |
                                result_view(rr) == #[trigger] tree_outcome(**r, o) && tree_possible(**r, o)
                                    && writes_possible(**r, o, w) && self.rematch_log() == r1 + #[trigger] tree_writes(**r, o, w);
                            lemma_join2(tl, tr);
                            lemma_join2(wl, wr);
                            assert(self.rematch_log() =~= r0 + tree_writes(*expr, join2(tl, tr), join2(wl, wr)));
                            assert(result_view(rr) == tree_outcome(*expr, join2(tl, tr)) && tree_possible(*expr, join2(tl, tr))
                                && writes_possible(*expr, join2(tl, tr), join2(wl, wr)));
                            if E::obeys_env_model() {
                                let or = choose|o: spec_fn(Seq<int>) -> FsAnswers|
                                    (result_view(rr), self.model()) == expr_outcome_obs(**r, m1, o);
                                lemma_join(ol, or);
                                assert((result_view(rr), self.model()) == expr_outcome_obs(*expr, m0, join(ol, or)));
                            }
                        }
                        rr
                    },
                    other => {
                        proof {
                            lemma_join2(tl, tl);
                            lemma_join2(wl, wl);
                            assert(self.rematch_log() =~= r0 + tree_writes(*expr, join2(tl, tl), join2(wl, wl)));
                            assert(result_view(other) == tree_outcome(*expr, join2(tl, tl)) && tree_possible(*expr, join2(tl, tl))
                                && writes_possible(*expr, join2(tl, tl), join2(wl, wl)));
                            if E::obeys_env_model() {
                                lemma_join(ol, none);
                                assert((result_view(other), self.model()) == expr_outcome_obs(*expr, m0, join(ol, none)));
                            }
                        }
                        other
                    },
                }
            },
            Expr::Not(inner) => {
                let ir = self.eval(inner);
                let ghost oi = choose|o: spec_fn(Seq<int>) -> FsAnswers|
                    (result_view(ir), self.model()) == expr_outcome_obs(**inner, m0, o);
                let ghost (ti, wi) = choose|
                    o: spec_fn(Seq<int>) -> Result<bool, EvalErrorView>,
                    w: spec_fn(Seq<int>) -> Seq<Seq<Option<Seq<char>>>>,
                |
                    result_view(ir) == #[trigger] tree_outcome(**inner, o) && tree_possible(**inner, o)
                        && writes_possible(**inner, o, w) && self.rematch_log() == r0 + #[trigger] tree_writes(**inner, o, w);
                let res = match ir {
                    Ok(b) => Ok(!b),
                    Err(e) => Err(e),
                };
                proof {
                    lemma_join2(ti, ti);
                    lemma_join2(wi, wi);
                    assert(result_view(res) == tree_outcome(*expr, join2(ti, ti)) && tree_possible(*expr, join2(ti, ti))
                        && writes_possible(*expr, join2(ti, ti), join2(wi, wi)) && self.rematch_log() == r0
                        + tree_writes(*expr, join2(ti, ti), join2(wi, wi)));
                    if E::obeys_env_model() {
                        lemma_join(oi, none);
                        assert((result_view(res), self.model()) == expr_outcome_obs(*expr, m0, join(oi, none)));
                    }
                }
                res
            },
            Expr::Primary(p) => {
                let res = self.eval_primary(p);
                proof {
                    let t = |q: Seq<int>| result_view(res);
                    let d = choose|d: Seq<Seq<Option<Seq<char>>>>| self.rematch_log() == r0 + d
                        && #[trigger] primary_writes(*p, result_view(res), d);
                    let wd = |q: Seq<int>| d;
                    assert(result_view(res) == tree_outcome(*expr, t) && tree_possible(*expr, t)
                        && writes_possible(*expr, t, wd) && self.rematch_log() == r0 + tree_writes(*expr, t, wd));
                    if E::obeys_env_model() {
                        let w = choose|w: FsAnswers| (result_view(res), self.model()) == primary_outcome_obs(*p, m0, w);
                        let o = |q: Seq<int>| w;
                        assert((result_view(res), self.model()) == expr_outcome_obs(*expr, m0, o));
                    }
                }
                res
            },
        };
        proof {
            if crate::semantics::host_free(*expr) {
                let (o, w) = choose|
                    o: spec_fn(Seq<int>) -> Result<bool, EvalErrorView>,
                    w: spec_fn(Seq<int>) -> Seq<Seq<Option<Seq<char>>>>,
                |
                    result_view(outcome) == #[trigger] tree_outcome(*expr, o) && tree_possible(*expr, o)
                        && writes_possible(*expr, o, w) && self.rematch_log() == r0 + #[trigger] tree_writes(*expr, o, w);
                crate::semantics::lemma_host_free_expr(*expr, o, arbitrary(), no_fs());
            }
        }
        outcome
    }
}

/// The array element `-v raw` asks about: `name[subscript]` splits at the
/// first `[` when `raw` ends with `]`; any other `raw` names a scalar.
fn var_set_target(raw: &str) -> (r: Option<(String, String)>)
    ensures
        match r {
            Some((name, sub)) => crate::semantics::var_target(raw@) == Some((name@, sub@)),
            None => crate::semantics::var_target(raw@) is None,
        },
{
    let c = chars_of(raw);
    let n = c.len();
    let mut open: usize = 0;
    while open < n && c[open] != '['
        invariant
            c@ == raw@,
            n == c@.len(),
            open <= n,
            crate::semantics::index_of_from(c@, '[', 0) == crate::semantics::index_of_from(
                c@,
                '[',
                open as int,
            ),
        decreases n - open,
    {
        open = open + 1;
    }
    if open < n && c[n - 1] == ']' {
        let name = string_of_range(c.as_slice(), 0, open);
        let sub = string_of_range(c.as_slice(), open + 1, n - 1);
        assert(c@.subrange(0, open as int) =~= c@.take(open as int));
        Some((name, sub))
    } else {
        None
    }
}

/// Whether shell option `name` is on, given the host's answer for it.
fn option_or_default(name: &str, answer: Option<bool>) -> (r: bool)
    ensures
        r == crate::semantics::option_value(name@, answer),
{
    match answer {
        Some(b) => b,
        None => crate::text::str_eq(name, "patsub_replacement"),
    }
}

fn stat_kind_is(stat: &Option<FileStat>, want: FileKind) -> (r: bool)
    ensures
        r == crate::semantics::kind_is(*stat, want),
{
    match stat {
        Some(st) => st.kind == want,
        None => false,
    }
}

fn stat_mode_bit(stat: &Option<FileStat>, mask: u32) -> (r: bool)
    ensures
        r == crate::semantics::mode_bit(*stat, mask),
{
    match stat {
        Some(st) => st.mode & mask != 0,
        None => false,
    }
}

fn file_compare_exec(op: BinaryOp, a: &Option<FileStat>, b: &Option<FileStat>) -> (r: bool)
    ensures
        r == crate::semantics::file_compare(op, *a, *b),
{
    match op {
        BinaryOp::FileSameInode => match (a, b) {
            (Some(x), Some(y)) => x.dev == y.dev && x.ino == y.ino,
            _ => false,
        },
        BinaryOp::FileNewer => match (a, b) {
            (Some(_), None) => true,
            (Some(x), Some(y)) => stat_after(x.mtime, y.mtime),
            _ => false,
        },
        _ => match (a, b) {
            (None, Some(_)) => true,
            (Some(x), Some(y)) => stat_after(y.mtime, x.mtime),
            _ => false,
        },
    }
}

fn stat_after(a: (i64, i64), b: (i64, i64)) -> (r: bool)
    ensures
        r == crate::semantics::time_after(a, b),
{
    a.0 > b.0 || (a.0 == b.0 && a.1 > b.1)
}

/// Compiles the fully expanded right-hand side of `=~`.
fn compile_expanded_regex(word: &Word, nocase: bool) -> (r: Result<crate::pattern::CompiledRegex, EvalError>)
    requires
        fully_expanded(word.parts@),
    ensures
        match regex_build_error(pieces_regex(pieces_of(word.parts@)), nocase) {
            None => r matches Ok(re) && re.source() == pieces_regex(pieces_of(word.parts@))
                && re.nocase() == nocase,
            Some(x) => r matches Err(e) && e@ == EvalErrorView::BadRegex(x),
        },
{
    assert(crate::pattern::no_expansion(word.parts@)) by {
        assert forall|i: int| 0 <= i < word.parts@.len() implies !(#[trigger] word.parts@[i] is Expansion) by {
            assert(word.parts@[i] is Literal || word.parts@[i] is Quoted);
        }
    }
    let no_vars = |_s: &str| String::new();
    let r = compile_regex(word, nocase, no_vars);
    proof {
        let values = choose|values: Seq<Seq<char>>|
            crate::pattern::var_values(no_vars, word.parts@, values) && crate::pattern::regex_outcome(
                r,
                #[trigger] regex_word_text(word.parts@, values),
                nocase,
            );
        lemma_plain_regex_text(word.parts@, values);
    }
    match r {
        Ok(re) => Ok(re),
        Err(PatternError::Regex(e)) => Err(EvalError::BadRegex(e)),
        Err(other) => Err(EvalError::BadPattern(other)),
    }
}

} // verus!
