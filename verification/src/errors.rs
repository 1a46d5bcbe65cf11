//! The failure kinds of parsing and evaluation, and their models.

use vstd::prelude::*;

use crate::element::ElemV;

verus! {

/// The kind of an element, as reported in type mismatch errors.
#[derive(Debug, PartialEq, Eq, Structural, Clone, Copy)]
pub enum Kind {
    Number,
    Operation,
    Symbol,
    Block,
    NativeOperation,
}

/// The kind tag of a modelled element.
pub open spec fn kind_of(v: ElemV) -> Kind {
    match v {
        ElemV::Num(_) => Kind::Number,
        ElemV::Op(_) => Kind::Operation,
        ElemV::Sym(_) => Kind::Symbol,
        ElemV::Blk(_) => Kind::Block,
        ElemV::Native(_) => Kind::NativeOperation,
    }
}

/// A malformed input detected while parsing.
#[derive(Debug, PartialEq, Eq, Structural, Clone, Copy)]
pub enum ParseError {
    /// A `}` word arrived while no block was open.
    UnmatchedCloseBrace,
}

/// A failure of a numeric operation.
#[derive(Debug, PartialEq, Eq, Structural, Clone, Copy)]
pub enum ArithmeticError {
    DivideByZero,
}

/// A failure while evaluating an element. It aborts the in-flight
/// evaluation; the machine performs no retries.
#[derive(Debug, PartialEq)]
pub enum EvalError {
    /// A needed operand position does not exist on the operand stack.
    StackUnderflow,
    /// An operand had the wrong kind.
    TypeError { expected: Kind, actual: Kind },
    /// An operation word resolved to nothing in any scope.
    UndefinedOperation(String),
    ArithmeticError(ArithmeticError),
    /// A `NativeOperation` value reached evaluation directly.
    InvalidElement,
    /// The evaluation step budget ran out. The budget is astronomically
    /// large; only a program that would effectively run forever hits it.
    StepLimit,
}

/// Model of an evaluation failure produced by the machine semantics.
pub enum ErrV {
    StackUnderflow,
    TypeError(Kind, Kind),
    UndefinedOperation(Seq<char>),
    DivideByZero,
    InvalidElement,
}

/// Relates an executable error value to its model. `StepLimit` models no
/// machine failure: the step semantics never produces it.
pub open spec fn err_matches(e: EvalError, v: ErrV) -> bool {
    match e {
        EvalError::StackUnderflow => v == ErrV::StackUnderflow,
        EvalError::TypeError { expected, actual } => v == ErrV::TypeError(expected, actual),
        EvalError::UndefinedOperation(name) => v == ErrV::UndefinedOperation(name@),
        EvalError::ArithmeticError(a) => a == ArithmeticError::DivideByZero && v
            == ErrV::DivideByZero,
        EvalError::InvalidElement => v == ErrV::InvalidElement,
        EvalError::StepLimit => false,
    }
}

/// A failure of either stage of the pipeline.
#[derive(Debug, PartialEq)]
pub enum Error {
    Parse(ParseError),
    Eval(EvalError),
}

} // verus!
