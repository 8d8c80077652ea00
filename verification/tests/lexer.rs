//! Lexer tests: tokens, word parts, parameter names and spans.

use bash_condexp::lex::{lex, lex_with_options, Token};
use bash_condexp::{ParameterExpansion, ParameterOp, ParseError, ParseOptions, Word, WordPart};

fn toks(input: &str) -> Vec<Token> {
    lex(input).unwrap().into_iter().map(|s| s.value).collect()
}

fn toks_with_punctuation_vars(input: &str) -> Vec<Token> {
    let options = ParseOptions::default().punctuation_variables(true);
    lex_with_options(input, options)
        .unwrap()
        .into_iter()
        .map(|s| s.value)
        .collect()
}

#[test]
fn lex_simple_primary() {
    let t = toks("-f foo.txt");
    assert_eq!(
        t,
        vec![
            Token::Word(Word::literal("-f")),
            Token::Word(Word::literal("foo.txt")),
        ]
    );
}

#[test]
fn lex_double_bracket_and_ops() {
    let t = toks("[[ -f foo && -d bar ]]");
    assert_eq!(
        t,
        vec![
            Token::OpenBracket,
            Token::Word(Word::literal("-f")),
            Token::Word(Word::literal("foo")),
            Token::AndAnd,
            Token::Word(Word::literal("-d")),
            Token::Word(Word::literal("bar")),
            Token::CloseBracket,
        ]
    );
}

#[test]
fn lex_equals_vs_quoted_equals() {
    // Unquoted `==` is an operator; quoted `"=="` is a literal word.
    let t = toks(r#"[[ $x == "==" ]]"#);
    assert_eq!(
        t,
        vec![
            Token::OpenBracket,
            Token::Word(Word {
                parts: vec![WordPart::Var("x".to_string())]
            }),
            Token::Eq,
            Token::Word(Word {
                parts: vec![WordPart::Quoted("==".to_string())]
            }),
            Token::CloseBracket,
        ]
    );
}

#[test]
fn lex_regex_eq() {
    let t = toks("[[ $x =~ ^foo ]]");
    assert!(matches!(t[2], Token::RegexEq));
}

#[test]
fn lex_var_and_concat() {
    let t = toks(r#"$foo"bar"$baz"#);
    assert_eq!(
        t,
        vec![Token::Word(Word {
            parts: vec![
                WordPart::Var("foo".to_string()),
                WordPart::Quoted("bar".to_string()),
                WordPart::Var("baz".to_string()),
            ]
        })]
    );
}

#[test]
fn lex_braced_var() {
    let t = toks("${HOME}");
    assert_eq!(
        t,
        vec![Token::Word(Word {
            parts: vec![WordPart::Var("HOME".to_string())]
        })]
    );
}

#[test]
fn lex_bash_special_and_positional_parameters() {
    let t = toks("${#}${##}${?}${10}");
    assert_eq!(
        t,
        vec![Token::Word(Word {
            parts: vec![
                WordPart::Var("#".to_string()),
                WordPart::Expansion {
                    expansion: ParameterExpansion {
                        name: "#".to_string(),
                        op: ParameterOp::Length,
                    },
                    quoted: false,
                },
                WordPart::Var("?".to_string()),
                WordPart::Var("10".to_string()),
            ]
        })]
    );
}

#[test]
fn lex_custom_braced_vars() {
    assert!(matches!(
        lex("${.}"),
        Err(ParseError::InvalidParameterExpansion { .. })
    ));

    let t = toks_with_punctuation_vars("${}${/}${//}${.}${/.}");
    assert_eq!(
        t,
        vec![Token::Word(Word {
            parts: vec![
                WordPart::Var("".to_string()),
                WordPart::Var("/".to_string()),
                WordPart::Var("//".to_string()),
                WordPart::Var(".".to_string()),
                WordPart::Var("/.".to_string()),
            ]
        })]
    );
}

#[test]
fn lex_single_quote_literal() {
    let t = toks("'$no expand'");
    assert_eq!(
        t,
        vec![Token::Word(Word {
            parts: vec![WordPart::Quoted("$no expand".to_string())]
        })]
    );
}

#[test]
fn lex_unterminated_string() {
    assert!(matches!(
        lex(r#""unclosed"#),
        Err(ParseError::UnterminatedString { .. })
    ));
}

#[test]
fn lex_or_and_not() {
    let t = toks("!a || b && c");
    assert_eq!(
        t,
        vec![
            Token::Bang,
            Token::Word(Word::literal("a")),
            Token::OrOr,
            Token::Word(Word::literal("b")),
            Token::AndAnd,
            Token::Word(Word::literal("c")),
        ]
    );
}

#[test]
fn spans_are_byte_offsets() {
    // `é` takes two bytes in UTF-8, so the word after it starts at byte 4.
    let spans: Vec<(usize, usize)> = lex("é && b")
        .unwrap()
        .into_iter()
        .map(|s| (s.start, s.end))
        .collect();
    assert_eq!(spans, vec![(0, 2), (3, 5), (6, 7)]);
}

#[test]
fn pattern_words_keep_operator_characters() {
    // After `==` the next word is a pattern, so `(` and `|` stay in it.
    let t = toks("$x == @(a|b)");
    assert_eq!(t.len(), 3);
    assert_eq!(
        t[2],
        Token::Word(Word::literal("@(a|b)"))
    );
}

#[test]
fn unterminated_parameter_expansion() {
    assert!(matches!(
        lex("${abc"),
        Err(ParseError::UnterminatedParameterExpansion { pos: 0 })
    ));
}

#[test]
fn punctuation_option_reads_back() {
    let on = ParseOptions::default().punctuation_variables(true);
    assert!(on.allows_punctuation_variables());
    assert!(!ParseOptions::default().allows_punctuation_variables());
    assert_eq!(ParseOptions::bash(), ParseOptions::default());
}
