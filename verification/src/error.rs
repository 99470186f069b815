//! The ways in which assembling can fail.

use vstd::prelude::*;

use crate::context::{EvalError, EvalErrorModel};
use crate::expression::{Expression, Term};
use crate::integer::Integer;
use crate::ops;

verus! {

/// Errors that can occur while assembling instructions.
#[derive(Debug, PartialEq, Eq)]
#[non_exhaustive]
pub enum Error {
    /// A label was declared multiple times.
    DuplicateLabel {
        /// The name of the conflicting label.
        label: String,
    },
    /// A macro was declared multiple times.
    DuplicateMacro {
        /// The name of the conflicting macro.
        name: String,
    },
    /// A push instruction was too small for the result of the expression.
    ExpressionTooLarge {
        /// The oversized expression.
        expr: Expression,
        /// The evaluated value of the expression.
        value: Integer,
        /// The opcode of the push.
        spec: u8,
    },
    /// An expression evaluated to a negative number.
    ExpressionNegative {
        /// The negative expression.
        expr: Expression,
        /// The evaluated value of the expression.
        value: Integer,
    },
    /// A label was used without being defined.
    UndeclaredLabels {
        /// The labels that were used without being defined.
        labels: Vec<String>,
    },
    /// An instruction macro was used without being defined.
    UndeclaredInstructionMacro {
        /// The macro that was used without being defined.
        name: String,
    },
    /// An expression macro was used without being defined.
    UndeclaredExpressionMacro {
        /// The macro that was used without being defined.
        name: String,
    },
    /// A variable was used in a macro without being one of its parameters.
    UndeclaredVariableMacro {
        /// The variable that was used without being defined.
        var: String,
    },
    /// The directive `.org` asked for an offset before the current position.
    OrgRewind {
        /// The requested offset.
        offset: usize,
        /// The position of the directive.
        position: usize,
    },
    /// The output is to be packed into a GIF file, but the first instruction is not `JUMPDEST`.
    EvmGifFirstNotJumpdest {
        /// The byte that was actually emitted first, if any.
        actual: Option<u8>,
    },
    /// A push of fixed size that refers to a label is too small for the value that its expression
    /// has in the GIF file. A larger push has room for it, and so has `%push`, whose size the
    /// assembler chooses.
    EvmGifPushOverflow {
        /// The expression whose evaluated value overflowed the push.
        expr: Expression,
        /// The evaluated value.
        value: Integer,
        /// The size in bytes of the push immediate that could not hold the value.
        push_size: usize,
    },
}

/// The ways in which a program can be unfit for the assembler. There is no output for such a
/// program, and no error that describes what is wrong with it.
#[derive(Clone, Copy, Debug, PartialEq, Eq, Structural)]
pub enum Fault {
    /// Macros use each other without end.
    EndlessMacro,
    /// An offset does not fit in a `usize`.
    OffsetOverflow,
    /// An instruction macro is used with too few or too many arguments.
    ArgumentCount,
    /// A label does not point at an instruction of the output.
    LabelInsideInstruction,
    /// A push that refers to a label is taken for a part of another instruction.
    PushInsideInstruction,
}

/// Why a program was not assembled.
#[derive(Debug, PartialEq, Eq)]
pub enum Failure {
    /// An error in the program.
    Error(Error),
    /// A program that the assembler cannot deal with.
    Fault(Fault),
}

/// An [`Error`] as a mathematical value.
pub enum ErrorModel {
    DuplicateLabel { label: Seq<char> },
    DuplicateMacro { name: Seq<char> },
    ExpressionTooLarge { expr: Term, value: int, spec: u8 },
    ExpressionNegative { expr: Term, value: int },
    UndeclaredLabels { labels: Seq<Seq<char>> },
    UndeclaredInstructionMacro { name: Seq<char> },
    UndeclaredExpressionMacro { name: Seq<char> },
    UndeclaredVariableMacro { var: Seq<char> },
    OrgRewind { offset: nat, position: nat },
    EvmGifFirstNotJumpdest { actual: Option<u8> },
    EvmGifPushOverflow { expr: Term, value: int, push_size: nat },
}

/// A [`Failure`] as a mathematical value.
pub enum FailureModel {
    Error(ErrorModel),
    Fault(Fault),
}

impl View for Error {
    type V = ErrorModel;

    open spec fn view(&self) -> ErrorModel {
        match *self {
            Error::DuplicateLabel { label } => ErrorModel::DuplicateLabel { label: label@ },
            Error::DuplicateMacro { name } => ErrorModel::DuplicateMacro { name: name@ },
            Error::ExpressionTooLarge { expr, value, spec } => ErrorModel::ExpressionTooLarge {
                expr: expr@,
                value: value@,
                spec,
            },
            Error::ExpressionNegative { expr, value } => ErrorModel::ExpressionNegative {
                expr: expr@,
                value: value@,
            },
            Error::UndeclaredLabels { labels } => ErrorModel::UndeclaredLabels {
                labels: ops::texts_of(labels@),
            },
            Error::UndeclaredInstructionMacro { name } => ErrorModel::UndeclaredInstructionMacro {
                name: name@,
            },
            Error::UndeclaredExpressionMacro { name } => ErrorModel::UndeclaredExpressionMacro {
                name: name@,
            },
            Error::UndeclaredVariableMacro { var } => ErrorModel::UndeclaredVariableMacro {
                var: var@,
            },
            Error::OrgRewind { offset, position } => ErrorModel::OrgRewind {
                offset: offset as nat,
                position: position as nat,
            },
            Error::EvmGifFirstNotJumpdest { actual } => ErrorModel::EvmGifFirstNotJumpdest {
                actual,
            },
            Error::EvmGifPushOverflow { expr, value, push_size } => ErrorModel::EvmGifPushOverflow {
                expr: expr@,
                value: value@,
                push_size: push_size as nat,
            },
        }
    }
}

impl View for Failure {
    type V = FailureModel;

    open spec fn view(&self) -> FailureModel {
        match *self {
            Failure::Error(error) => FailureModel::Error(error@),
            Failure::Fault(fault) => FailureModel::Fault(fault),
        }
    }
}

/// What it means that an expression has no value, where it refers to no unknown label.
pub open spec fn no_value(error: EvalErrorModel) -> FailureModel {
    match error {
        EvalErrorModel::UnknownMacro(name) => FailureModel::Error(
            ErrorModel::UndeclaredExpressionMacro { name },
        ),
        EvalErrorModel::UndefinedVariable(var) => FailureModel::Error(
            ErrorModel::UndeclaredVariableMacro { var },
        ),
        _ => FailureModel::Fault(Fault::EndlessMacro),
    }
}

/// What it means that an expression has no value, where it refers to no unknown label.
pub(crate) fn failure_without_value(error: EvalError) -> (failure: Failure)
    ensures
        failure@ == no_value(error@),
{
    match error {
        EvalError::UnknownMacro { name } => Failure::Error(
            Error::UndeclaredExpressionMacro { name },
        ),
        EvalError::UndefinedVariable { name } => Failure::Error(
            Error::UndeclaredVariableMacro { var: name },
        ),
        _ => Failure::Fault(Fault::EndlessMacro),
    }
}

} // verus!
