//! Glob, extended glob and regular-expression compilation tests.

use bash_condexp::pattern::{compile_glob, compile_regex, matches_glob};
use bash_condexp::{CompiledGlob, GlobOptions, PatternError, Word, WordPart};

fn word(text: &str) -> Word {
    Word::literal(text)
}

fn compiled(text: &str, extglob: bool) -> CompiledGlob {
    compile_glob(
        &word(text),
        GlobOptions {
            extglob,
            case_insensitive: false,
        },
        |_| String::new(),
    )
    .unwrap()
}

#[test]
fn basic_globs() {
    assert!(compiled("*.txt", false).is_match("foo.txt"));
    assert!(compiled("?oo", false).is_match("foo"));
    assert!(compiled("[!abc]oo", false).is_match("doo"));
    assert!(compiled("[[:digit:]][[:digit:]]", false).is_match("42"));
    assert!(!compiled("foo", false).is_match("foobar"));
    assert!(compiled("[[]", false).is_match("["));
    assert!(compiled(r"[\*]", false).is_match("*"));
    assert!(!compiled(r"[\*]", false).is_match(r"\"));
}

#[test]
fn quoted_metas_are_literal() {
    let pattern = Word {
        parts: vec![WordPart::Quoted("*.txt".into())],
    };
    let quoted = compile_glob(&pattern, GlobOptions::default(), |_| String::new()).unwrap();
    assert!(quoted.is_match("*.txt"));
    assert!(!quoted.is_match("foo.txt"));

    let escaped = compiled(r"\*.txt", false);
    assert!(escaped.is_match("*.txt"));
    assert!(!escaped.is_match("foo.txt"));
}

#[test]
fn case_insensitive() {
    let pattern = compile_glob(
        &word("FOO*"),
        GlobOptions {
            case_insensitive: true,
            extglob: false,
        },
        |_| String::new(),
    )
    .unwrap();
    assert!(pattern.is_match("foobar"));
}

#[test]
fn every_extglob_operator() {
    assert!(compiled("@(foo|bar)", true).is_match("foo"));
    assert!(compiled("?(foo|bar)", true).is_match(""));
    assert!(compiled("?(foo|bar)", true).is_match("bar"));
    assert!(compiled("*(a|bc)", true).is_match("aabca"));
    assert!(compiled("+(a|bc)", true).is_match("bca"));
    assert!(compiled("!(foo|bar)", true).is_match("baz"));
    assert!(!compiled("!(foo|bar)", true).is_match("foo"));
}

#[test]
fn nested_extglob() {
    assert!(compiled("+(@(a|b)|c)", true).is_match("abc"));
}

#[test]
fn extglob_is_literal_when_disabled() {
    assert!(compiled("+(a)", false).is_match("+(a)"));
    assert!(!compiled("+(a)", false).is_match("aaa"));
}

#[test]
fn regex_uses_substring_and_quoted_literals() {
    let re = compile_regex(&word("oba"), false, |_| String::new()).unwrap();
    assert!(re.is_match("foobar"));
    let quoted = Word {
        parts: vec![WordPart::Quoted(".*".into())],
    };
    let re = compile_regex(&quoted, false, |_| String::new()).unwrap();
    assert!(re.is_match("foo.*bar"));
    assert!(!re.is_match("foobar"));
}

#[test]
fn quoted_pattern_matches_only_its_own_text() {
    let pattern = Word {
        parts: vec![WordPart::Quoted("[a]?(b)".into())],
    };
    let options = GlobOptions { case_insensitive: false, extglob: true };
    let quoted = compile_glob(&pattern, options, |_| String::new()).unwrap();
    assert!(matches_glob(&quoted, "[a]?(b)"));
    assert!(!matches_glob(&quoted, "a"));
    assert!(!matches_glob(&quoted, "[a]?(b)x"));
}

#[test]
fn variables_expand_through_the_callback() {
    let pattern = Word {
        parts: vec![WordPart::Var("p".into()), WordPart::QuotedVar("q".into())],
    };
    let expand = |name: &str| if name == "p" { "a*".to_string() } else { "*".to_string() };
    let glob = compile_glob(&pattern, GlobOptions::default(), expand).unwrap();
    // `$p` is active (`a*`), `"$q"` is a literal `*`.
    assert!(glob.is_match("abc*"));
    assert!(!glob.is_match("abc"));
}

#[test]
fn unterminated_extglob_is_an_error() {
    let r = compile_glob(
        &word("@(a|b"),
        GlobOptions { case_insensitive: false, extglob: true },
        |_| String::new(),
    );
    assert!(matches!(r, Err(PatternError::UnterminatedExtglob)));
}

#[test]
fn structured_expansions_must_be_expanded_first() {
    let pattern = bash_condexp::parse("x == ${v#a}").unwrap();
    let rhs = match pattern {
        bash_condexp::Expr::Primary(bash_condexp::Primary::Binary { rhs, .. }) => rhs,
        other => panic!("unexpected {other:?}"),
    };
    assert!(matches!(
        compile_glob(&rhs, GlobOptions::default(), |_| String::new()),
        Err(PatternError::UnexpandedParameter)
    ));
    assert!(matches!(
        compile_regex(&rhs, false, |_| String::new()),
        Err(PatternError::UnexpandedParameter)
    ));
}
