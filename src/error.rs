use vstd::prelude::*;
use vstd::string::*;

use crate::object::{nat_text, push_nat_text, render_spec, Object};

verus! {

/// Why a program text could not be parsed.
#[derive(Debug, PartialEq, Eq, Structural)]
pub enum ParserError {
    /// The lexer refused the text.
    UnexpectedParserError,
    /// The parentheses do not pair up, or the text is not one parenthesised list.
    ParenIsNotMatched,
}

/// Why an expression could not be evaluated.
#[derive(Debug, PartialEq)]
pub enum EvalError {
    /// The program text could not be parsed.
    Parse(ParserError),
    /// A form has the wrong number of elements: it has this many.
    InvalidArgumentHasDetected(usize),
    /// An operator form whose head is not one of the operators.
    InvalidOperatorHasDetected(String),
    /// An operand evaluated to this value, which is not a number.
    NotANumber(Object),
    /// The name of a definition is this expression, which is not a symbol.
    NotASymbol(Object),
    /// The condition of an `if` evaluated to this value, which is not a boolean.
    InvalidConditionType(Object),
    /// A lambda whose parameters or body are not lists, or with a parameter that is no symbol.
    InvalidLambda,
    /// A call with fewer arguments than the function has parameters.
    NotEnoughArgs,
    /// A symbol that no environment in the chain defines.
    UndefinedSymbol(String),
    /// A call of a name that no environment in the chain defines.
    UndefinedFunction(String),
    /// A call of a name that is bound to something other than a lambda.
    InvalidFunction(String),
    /// An integer division by zero.
    DivisionByZero,
    /// An arithmetic result outside the 64-bit range.
    Overflow,
    /// The evaluation nested deeper than its budget allows.
    RecursionLimit,
}

/// The text that describes a parse error.
pub open spec fn parser_error_text(e: ParserError) -> Seq<char> {
    match e {
        ParserError::UnexpectedParserError => "Unexpected parser error"@,
        ParserError::ParenIsNotMatched => "Parentheses pair do not match"@,
    }
}

impl ParserError {
    /// A sentence that describes the error.
    pub fn message(&self) -> (r: String)
        ensures
            r@ == parser_error_text(*self),
    {
        match self {
            ParserError::UnexpectedParserError => String::from_str("Unexpected parser error"),
            ParserError::ParenIsNotMatched => String::from_str("Parentheses pair do not match"),
        }
    }
}

/// The text that describes an evaluation error.
pub open spec fn eval_error_text(e: EvalError) -> Seq<char> {
    match e {
        EvalError::Parse(p) => "Parse error: "@ + parser_error_text(p),
        EvalError::InvalidArgumentHasDetected(n) => "Invalid number of arguments: "@ + nat_text(n as nat),
        EvalError::InvalidOperatorHasDetected(s) => "Invalid operator: "@ + s@,
        EvalError::NotANumber(o) => "Invalid argument. argument must be an Number: "@ + render_spec(o@),
        EvalError::NotASymbol(o) => "Invalid argument. argument must be an Symbol: "@ + render_spec(o@),
        EvalError::InvalidConditionType(o) => "Condition must be a boolean. got: "@ + render_spec(o@),
        EvalError::InvalidLambda => "Invalid Lambda"@,
        EvalError::NotEnoughArgs => "Invalid number of arguments"@,
        EvalError::UndefinedSymbol(s) => "Undefined symbol: "@ + s@,
        EvalError::UndefinedFunction(s) => "Undefined function: "@ + s@,
        EvalError::InvalidFunction(s) => "Invalid function: "@ + s@,
        EvalError::DivisionByZero => "Division by zero"@,
        EvalError::Overflow => "Arithmetic overflow"@,
        EvalError::RecursionLimit => "Recursion too deep"@,
    }
}

impl EvalError {
    /// A sentence that describes the error.
    pub fn message(&self) -> (r: String)
        ensures
            r@ == eval_error_text(*self),
    {
        match self {
            EvalError::Parse(p) => String::from_str("Parse error: ").concat(p.message().as_str()),
            EvalError::InvalidArgumentHasDetected(n) => {
                let mut out = String::from_str("Invalid number of arguments: ");
                push_nat_text(&mut out, *n as u64);
                out
            },
            EvalError::InvalidOperatorHasDetected(s) => String::from_str("Invalid operator: ").concat(s.as_str()),
            EvalError::NotANumber(o) => {
                let mut out = String::from_str("Invalid argument. argument must be an Number: ");
                o.push_text(&mut out);
                out
            },
            EvalError::NotASymbol(o) => {
                let mut out = String::from_str("Invalid argument. argument must be an Symbol: ");
                o.push_text(&mut out);
                out
            },
            EvalError::InvalidConditionType(o) => {
                let mut out = String::from_str("Condition must be a boolean. got: ");
                o.push_text(&mut out);
                out
            },
            EvalError::InvalidLambda => String::from_str("Invalid Lambda"),
            EvalError::NotEnoughArgs => String::from_str("Invalid number of arguments"),
            EvalError::UndefinedSymbol(s) => String::from_str("Undefined symbol: ").concat(s.as_str()),
            EvalError::UndefinedFunction(s) => String::from_str("Undefined function: ").concat(s.as_str()),
            EvalError::InvalidFunction(s) => String::from_str("Invalid function: ").concat(s.as_str()),
            EvalError::DivisionByZero => String::from_str("Division by zero"),
            EvalError::Overflow => String::from_str("Arithmetic overflow"),
            EvalError::RecursionLimit => String::from_str("Recursion too deep"),
        }
    }
}

} // verus!
