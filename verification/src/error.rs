//! Error types for parsing and evaluation.

use vstd::prelude::*;

use crate::pattern::PatternError;

verus! {

/// `regex::Error`, carried through from the regex engine.
#[verifier::external_type_specification]
#[verifier::external_body]
pub struct ExRegexError(regex::Error);

/// `std::io::Error`, carried through from a file system.
#[verifier::external_type_specification]
#[verifier::external_body]
pub struct ExIoError(std::io::Error);

#[derive(Debug)]
pub enum ParseError {
    UnexpectedToken { token: String, pos: usize },
    UnexpectedEof,
    UnterminatedString { pos: usize },
    UnterminatedParameterExpansion { pos: usize },
    InvalidParameterExpansion { raw: String, pos: usize, reason: String },
    UnsupportedParameterExpansion { operator: String, pos: usize },
    UnterminatedDoubleBracket { pos: usize },
    ExpectedWord { op: String },
    RegexMissingRhs,
    UnknownOperator { token: String },
    InvalidSubscript { raw: String },
    ParensNotSupported,
    LegacyCombinatorNotSupported,
}

#[derive(Debug)]
pub enum EvalError {
    InvalidArith(String),
    DivisionByZero,
    NegativeExponent,
    ArithmeticRecursion(String),
    ArithmeticAssignmentUnsupported(String),
    BadPattern(PatternError),
    BadRegex(regex::Error),
    Io(std::io::Error),
    UnsupportedExpansion(String),
    InvalidFd(String),
}

impl From<PatternError> for EvalError {
    fn from(e: PatternError) -> (r: Self) {
        EvalError::BadPattern(e)
    }
}

impl vstd::std_specs::convert::FromSpecImpl<PatternError> for EvalError {
    open spec fn obeys_from_spec() -> bool {
        true
    }

    open spec fn from_spec(v: PatternError) -> Self {
        EvalError::BadPattern(v)
    }
}

impl From<regex::Error> for EvalError {
    fn from(e: regex::Error) -> (r: Self) {
        EvalError::BadRegex(e)
    }
}

impl vstd::std_specs::convert::FromSpecImpl<regex::Error> for EvalError {
    open spec fn obeys_from_spec() -> bool {
        true
    }

    open spec fn from_spec(v: regex::Error) -> Self {
        EvalError::BadRegex(v)
    }
}

impl From<std::io::Error> for EvalError {
    fn from(e: std::io::Error) -> (r: Self) {
        EvalError::Io(e)
    }
}

impl vstd::std_specs::convert::FromSpecImpl<std::io::Error> for EvalError {
    open spec fn obeys_from_spec() -> bool {
        true
    }

    open spec fn from_spec(v: std::io::Error) -> Self {
        EvalError::Io(v)
    }
}

/// [`EvalError`] as a mathematical value: strings become character
/// sequences; outside error values are carried as they are.
pub enum EvalErrorView {
    InvalidArith(Seq<char>),
    DivisionByZero,
    NegativeExponent,
    ArithmeticRecursion(Seq<char>),
    ArithmeticAssignmentUnsupported(Seq<char>),
    BadPattern(PatternError),
    BadRegex(regex::Error),
    Io,
    UnsupportedExpansion(Seq<char>),
    InvalidFd(Seq<char>),
}

impl View for EvalError {
    type V = EvalErrorView;

    open spec fn view(&self) -> EvalErrorView {
        match self {
            EvalError::InvalidArith(s) => EvalErrorView::InvalidArith(s@),
            EvalError::DivisionByZero => EvalErrorView::DivisionByZero,
            EvalError::NegativeExponent => EvalErrorView::NegativeExponent,
            EvalError::ArithmeticRecursion(s) => EvalErrorView::ArithmeticRecursion(s@),
            EvalError::ArithmeticAssignmentUnsupported(s) => EvalErrorView::ArithmeticAssignmentUnsupported(s@),
            EvalError::BadPattern(p) => EvalErrorView::BadPattern(*p),
            EvalError::BadRegex(e) => EvalErrorView::BadRegex(*e),
            EvalError::Io(_) => EvalErrorView::Io,
            EvalError::UnsupportedExpansion(s) => EvalErrorView::UnsupportedExpansion(s@),
            EvalError::InvalidFd(s) => EvalErrorView::InvalidFd(s@),
        }
    }
}

/// The view of an evaluation result.
pub open spec fn result_view<T>(r: Result<T, EvalError>) -> Result<T, EvalErrorView> {
    match r {
        Ok(v) => Ok(v),
        Err(e) => Err(e@),
    }
}

} // verus!
