//! Parser tests: implicit and explicit brackets, precedence, primaries and
//! the parse errors.

use bash_condexp::{parse, BinaryOp, Expr, ParseError, Primary, UnaryOp, Word, WordPart};

fn p(s: &str) -> Expr {
    match parse(s) {
        Ok(e) => e,
        Err(e) => panic!("parse({s:?}) failed: {e:?}"),
    }
}

#[test]
fn implicit_unary() {
    let e = p("-f foo.txt");
    assert_eq!(
        e,
        Expr::Primary(Primary::Unary {
            op: UnaryOp::FileRegular,
            arg: Word::literal("foo.txt"),
        })
    );
}

#[test]
fn explicit_brackets() {
    let e = p("[[ -f foo.txt ]]");
    assert_eq!(
        e,
        Expr::Primary(Primary::Unary {
            op: UnaryOp::FileRegular,
            arg: Word::literal("foo.txt"),
        })
    );
}

#[test]
fn implicit_and_chain() {
    let e = p("-e foo && -f foo");
    match e {
        Expr::And(a, b) => {
            assert!(matches!(*a, Expr::Primary(Primary::Unary { op: UnaryOp::FileExists, .. })));
            assert!(matches!(*b, Expr::Primary(Primary::Unary { op: UnaryOp::FileRegular, .. })));
        }
        _ => panic!("expected And, got {e:?}"),
    }
}

#[test]
fn mixed_implicit_explicit() {
    let e = p("[[ -e foo ]] && -f bar");
    assert!(matches!(e, Expr::And(_, _)));
}

#[test]
fn precedence_or_lower_than_and() {
    // a && b || c && d  =>  (a && b) || (c && d)
    let e = p("-e a && -e b || -e c && -e d");
    match e {
        Expr::Or(l, r) => {
            assert!(matches!(*l, Expr::And(_, _)));
            assert!(matches!(*r, Expr::And(_, _)));
        }
        _ => panic!("expected Or"),
    }
}

#[test]
fn not_prefix() {
    let e = p("! -f foo");
    match e {
        Expr::Not(inner) => assert!(matches!(*inner, Expr::Primary(_))),
        _ => panic!("expected Not"),
    }
}

#[test]
fn binary_string_eq() {
    let e = p("$x == foo*");
    match e {
        Expr::Primary(Primary::Binary { op: BinaryOp::GlobMatch, lhs, rhs }) => {
            assert_eq!(lhs.parts, vec![WordPart::Var("x".into())]);
            assert_eq!(rhs.parts, vec![WordPart::Literal("foo*".into())]);
        }
        _ => panic!("expected Binary GlobMatch, got {e:?}"),
    }
}

#[test]
fn binary_arith_lt() {
    let e = p("$x -lt 10");
    assert!(matches!(
        e,
        Expr::Primary(Primary::Binary {
            op: BinaryOp::ArithLt,
            ..
        })
    ));
}

#[test]
fn regex_match() {
    let e = p("$line =~ ^foo");
    match e {
        Expr::Primary(Primary::Binary { op: BinaryOp::RegexMatch, .. }) => {}
        _ => panic!("expected RegexMatch, got {e:?}"),
    }
}

#[test]
fn bare_word_means_nonempty() {
    let e = p("$x");
    match e {
        Expr::Primary(Primary::StringNonEmpty(w)) => {
            assert_eq!(w.parts, vec![WordPart::Var("x".into())]);
        }
        _ => panic!("expected StringNonEmpty, got {e:?}"),
    }
}

#[test]
fn parens_are_not_supported() {
    assert!(matches!(parse("( -f x )"), Err(ParseError::ParensNotSupported)));
}

#[test]
fn unterminated_brackets() {
    assert!(matches!(
        parse("[[ -f x"),
        Err(ParseError::UnterminatedDoubleBracket { .. })
    ));
}

#[test]
fn nested_brackets() {
    // [[ ... && [[ ... ]] ]]
    let e = p("[[ -e a && [[ -f b || -d c ]] ]]");
    match e {
        Expr::And(_, r) => assert!(matches!(*r, Expr::Or(_, _))),
        _ => panic!("expected And"),
    }
}

#[test]
fn brackets_around_a_whole_expression_change_nothing() {
    let inner = p("-e a && ! -f b || $x == y*");
    let wrapped = p("[[ -e a && ! -f b || $x == y* ]]");
    assert_eq!(inner, wrapped);
}

#[test]
fn unterminated_bracket_reports_its_byte_position() {
    assert!(matches!(
        parse("-e a && [[ -f x"),
        Err(ParseError::UnterminatedDoubleBracket { pos: 8 })
    ));
}

#[test]
fn stray_close_bracket_is_an_unexpected_token() {
    match parse("]] -f x") {
        Err(ParseError::UnexpectedToken { token, pos }) => {
            assert_eq!(token, "]]");
            assert_eq!(pos, 0);
        }
        other => panic!("unexpected {other:?}"),
    }
}

#[test]
fn trailing_tokens_are_reported() {
    match parse("-f x y") {
        Err(ParseError::UnexpectedToken { token, pos }) => {
            assert_eq!(token, "y");
            assert_eq!(pos, 5);
        }
        other => panic!("unexpected {other:?}"),
    }
}

#[test]
fn missing_operands_are_reported() {
    assert!(matches!(parse(""), Err(ParseError::UnexpectedEof)));
    assert!(matches!(parse("-e a &&"), Err(ParseError::UnexpectedEof)));
    match parse("-f") {
        Err(ParseError::ExpectedWord { op }) => assert_eq!(op, "-f"),
        other => panic!("unexpected {other:?}"),
    }
    match parse("a -lt") {
        Err(ParseError::ExpectedWord { op }) => assert_eq!(op, "-lt"),
        other => panic!("unexpected {other:?}"),
    }
    assert!(matches!(parse("a =~"), Err(ParseError::RegexMissingRhs)));
}

#[test]
fn operator_in_place_of_a_word_is_unexpected() {
    match parse("&& a") {
        Err(ParseError::UnexpectedToken { token, pos }) => {
            assert_eq!(token, "&&");
            assert_eq!(pos, 0);
        }
        other => panic!("unexpected {other:?}"),
    }
}

#[test]
fn bracketed_operands_compose() {
    let a = p("-e a");
    let b = p("-f b || $c");
    match p("[[ -e a ]] && [[ -f b || $c ]]") {
        Expr::And(l, r) => {
            assert_eq!(*l, a);
            assert_eq!(*r, b);
        }
        other => panic!("expected And, got {other:?}"),
    }
    match p("[[ -e a ]] || [[ -f b || $c ]]") {
        Expr::Or(l, r) => {
            assert_eq!(*l, a);
            assert_eq!(*r, b);
        }
        other => panic!("expected Or, got {other:?}"),
    }
}
