//! What the models of programs and errors keep: all of it, each part in its place.

use vstd::prelude::*;

use crate::assembler;
use crate::context::{EvalError, EvalErrorModel};
use crate::encode::{EncodeError, EncodeErrorModel, Instruction};
use crate::error;
use crate::error::{Error, ErrorModel, Failure, FailureModel, Fault};
use crate::expression;
use crate::expression::{Expression, Term, Terminal};
use crate::ops;
use crate::ops::{
    AbstractOp, ExpressionMacroDefinition, InstructionMacroDefinition, MacroDefinition, MacroModel,
    OpModel, RawModel, RawOp,
};
use crate::state;
use crate::state::State;

verus! {

/// An expression is modelled part by part: operands stay on their sides, and arguments in their
/// order.
pub proof fn expressions_are_terms(expression: Expression)
    ensures
        match expression {
            Expression::Terminal(Terminal::Number(number)) => expression@ == Term::Number(number@),
            Expression::Terminal(Terminal::Label(label)) => expression@ == Term::Label(label@),
            Expression::Terminal(Terminal::Variable(name)) => expression@ == Term::Variable(name@),
            Expression::Macro(invocation) => {
                &&& expression@ is Macro
                &&& expression@->Macro_0 == invocation.name@
                &&& expression@->Macro_1.len() == invocation.parameters@.len()
                &&& forall|i: int|
                    0 <= i < invocation.parameters@.len() ==> #[trigger] expression@->Macro_1[i]
                        == invocation.parameters@[i]@
            },
            Expression::Plus(left, right) => expression@ is Plus && *expression@->Plus_0 == left@
                && *expression@->Plus_1 == right@,
            Expression::Minus(left, right) => expression@ is Minus && *expression@->Minus_0
                == left@ && *expression@->Minus_1 == right@,
        },
{
    lists_of_expressions_are_lists_of_terms(
        match expression {
            Expression::Macro(invocation) => invocation.parameters@,
            _ => Seq::empty(),
        },
    );
}

/// A list of expressions is modelled one by one, in order.
pub proof fn lists_of_expressions_are_lists_of_terms(expressions: Seq<Expression>)
    ensures
        expression::terms_of(expressions).len() == expressions.len(),
        forall|i: int|
            0 <= i < expressions.len() ==> #[trigger] expression::terms_of(expressions)[i]
                == expressions[i]@,
{
}

/// An operation is modelled part by part.
pub proof fn operations_are_modelled(op: AbstractOp)
    ensures
        match op {
            AbstractOp::Op(op) => AbstractOp::Op(op)@ == OpModel::Op {
                code: op.opcode(),
                immediate: op.operand(),
            },
            AbstractOp::Label(label) => op@ == OpModel::Label(label@),
            AbstractOp::Push(imm) => op@ == OpModel::Push(imm.tree@),
            AbstractOp::MacroDefinition(definition) => op@ == OpModel::MacroDefinition(definition@),
            AbstractOp::Macro(invocation) => {
                &&& op@ is Macro
                &&& op@->Macro_0 == invocation.name@
                &&& op@->Macro_1.len() == invocation.parameters@.len()
                &&& forall|i: int|
                    0 <= i < invocation.parameters@.len() ==> #[trigger] op@->Macro_1[i]
                        == invocation.parameters@[i]@
            },
            AbstractOp::Org(offset) => op@ == OpModel::Org(offset as nat),
        },
{
}

/// The definition of a macro is modelled part by part.
pub proof fn definitions_are_modelled(definition: MacroDefinition)
    ensures
        match definition {
            MacroDefinition::Instruction(inner) => match definition@ {
                MacroModel::Instruction { name, parameters, contents } => {
                    &&& name == inner.name@
                    &&& definition@.macro_name() == inner.name@
                    &&& parameters.len() == inner.parameters@.len()
                    &&& forall|i: int|
                        0 <= i < parameters.len() ==> #[trigger] parameters[i]
                            == inner.parameters@[i]@
                    &&& contents.len() == inner.contents@.len()
                    &&& forall|i: int|
                        0 <= i < contents.len() ==> #[trigger] contents[i] == inner.contents@[i]@
                },
                _ => false,
            },
            MacroDefinition::Expression(inner) => match definition@ {
                MacroModel::Expression { name, parameters, content } => {
                    &&& name == inner.name@
                    &&& definition@.macro_name() == inner.name@
                    &&& parameters.len() == inner.parameters@.len()
                    &&& forall|i: int|
                        0 <= i < parameters.len() ==> #[trigger] parameters[i]
                            == inner.parameters@[i]@
                    &&& content == inner.content.tree@
                },
                _ => false,
            },
        },
{
    match definition {
        MacroDefinition::Instruction(inner) => {
            let contents = ops::op_models(inner.contents@);
            assert(contents.len() == inner.contents@.len());
            assert forall|i: int| 0 <= i < contents.len() implies #[trigger] contents[i]
                == inner.contents@[i]@ by {}
        },
        MacroDefinition::Expression(_) => {},
    }
}

/// An item of a program is modelled part by part, and a program item by item.
pub proof fn programs_are_modelled(ops: Seq<RawOp>)
    ensures
        ops::raw_models(ops).len() == ops.len(),
        forall|i: int|
            #![trigger ops::raw_models(ops)[i]]
            0 <= i < ops.len() ==> match ops[i] {
                RawOp::Op(op) => ops::raw_models(ops)[i] == RawModel::Op(op@),
                RawOp::Scope(inner) => ops::raw_models(ops)[i] == RawModel::Scope(
                    ops::raw_models(inner@),
                ),
                RawOp::Raw(bytes) => ops::raw_models(ops)[i] == RawModel::Raw(bytes@),
            },
{
    assert forall|i: int| 0 <= i < ops.len() implies #[trigger] ops::raw_models(ops)[i]
        == ops::raw_model(ops[i]) by {}
}

/// What becomes bytes of its own is modelled like the operation.
pub proof fn instructions_are_modelled(instruction: Instruction)
    ensures
        match instruction {
            Instruction::Op(op) => instruction@ == AbstractOp::Op(op)@,
            Instruction::Push(imm) => instruction@ == AbstractOp::Push(imm)@,
        },
{
}

/// An error is modelled part by part.
pub proof fn errors_are_modelled(error: Error)
    ensures
        match error {
            Error::DuplicateLabel { label } => error@ matches ErrorModel::DuplicateLabel {
                label: text,
            } && text == label@,
            Error::DuplicateMacro { name } => error@ matches ErrorModel::DuplicateMacro {
                name: text,
            } && text == name@,
            Error::ExpressionTooLarge { expr, value, spec } => error@
                matches ErrorModel::ExpressionTooLarge { expr: e, value: v, spec: s } && e == expr@
                && v == value@ && s == spec,
            Error::ExpressionNegative { expr, value } => error@
                matches ErrorModel::ExpressionNegative { expr: e, value: v } && e == expr@ && v
                == value@,
            Error::UndeclaredLabels { labels } => error@ matches ErrorModel::UndeclaredLabels {
                labels: texts,
            } && texts.len() == labels@.len() && forall|i: int|
                0 <= i < texts.len() ==> #[trigger] texts[i] == labels@[i]@,
            Error::UndeclaredInstructionMacro { name } => error@
                matches ErrorModel::UndeclaredInstructionMacro { name: text } && text == name@,
            Error::UndeclaredExpressionMacro { name } => error@
                matches ErrorModel::UndeclaredExpressionMacro { name: text } && text == name@,
            Error::UndeclaredVariableMacro { var } => error@
                matches ErrorModel::UndeclaredVariableMacro { var: text } && text == var@,
            Error::OrgRewind { offset, position } => error@ matches ErrorModel::OrgRewind {
                offset: o,
                position: p,
            } && o == offset && p == position,
            Error::EvmGifFirstNotJumpdest { actual } => error@
                matches ErrorModel::EvmGifFirstNotJumpdest { actual: a } && a == actual,
            Error::EvmGifPushOverflow { expr, value, push_size } => error@
                matches ErrorModel::EvmGifPushOverflow { expr: e, value: v, push_size: s } && e
                == expr@ && v == value@ && s == push_size,
        },
{
}

/// A failure is modelled as what it is, and so is what the assembler returns.
pub proof fn results_are_modelled(result: Result<Vec<u8>, Failure>)
    ensures
        match result {
            Ok(bytes) => assembler::bytes_of(result) == Ok::<Seq<u8>, FailureModel>(bytes@)
                && assembler::failure_of(result) is None && !state::is_fault(
                assembler::bytes_of(result),
            ),
            Err(Failure::Error(error)) => assembler::bytes_of(result) == Err::<
                Seq<u8>,
                FailureModel,
            >(FailureModel::Error(error@)) && assembler::failure_of(result) == Some(
                FailureModel::Error(error@),
            ) && !state::is_fault(assembler::bytes_of(result)),
            Err(Failure::Fault(fault)) => assembler::bytes_of(result) == Err::<
                Seq<u8>,
                FailureModel,
            >(FailureModel::Fault(fault)) && assembler::failure_of(result) == Some(
                FailureModel::Fault(fault),
            ) && state::is_fault(assembler::bytes_of(result)),
        },
{
}

/// The reasons for which an expression has no value are modelled part by part.
pub proof fn missing_values_are_modelled(error: EvalError)
    ensures
        match error {
            EvalError::UnknownLabel { label } => error@ == EvalErrorModel::UnknownLabel(label@),
            EvalError::UnknownMacro { name } => error@ == EvalErrorModel::UnknownMacro(name@),
            EvalError::UndefinedVariable { name } => error@ == EvalErrorModel::UndefinedVariable(
                name@,
            ),
            EvalError::TooDeep => error@ == EvalErrorModel::TooDeep,
        },
{
}

/// The reasons for which an instruction has no bytes are modelled part by part.
pub proof fn missing_bytes_are_modelled(error: EncodeError)
    ensures
        match error {
            EncodeError::NoValue(reason) => error@ == EncodeErrorModel::NoValue(reason@),
            EncodeError::Negative { value } => error@ == EncodeErrorModel::Negative(value@),
            EncodeError::TooLarge { value, spec } => error@ == EncodeErrorModel::TooLarge(
                value@,
                spec,
            ),
        },
{
}

/// What is reported of an expression without a value: the macro or the variable that is missing, or
/// that macros are nested too deep.
pub proof fn missing_values_are_reported(name: Seq<char>)
    ensures
        error::no_value(EvalErrorModel::UnknownMacro(name)) == FailureModel::Error(
            ErrorModel::UndeclaredExpressionMacro { name },
        ),
        error::no_value(EvalErrorModel::UndefinedVariable(name)) == FailureModel::Error(
            ErrorModel::UndeclaredVariableMacro { var: name },
        ),
        error::no_value(EvalErrorModel::TooDeep) == FailureModel::Fault(Fault::EndlessMacro),
{
}

/// What is reported of an instruction without bytes: the expression with its value, and the opcode
/// that is too small for it, or all the labels that are missing.
pub proof fn missing_bytes_are_reported(
    expr: Term,
    value: int,
    code: u8,
    label: Seq<char>,
    undeclared: Seq<Seq<char>>,
)
    ensures
        state::encoding_failure(expr, EncodeErrorModel::TooLarge(value, code), undeclared)
            == FailureModel::Error(ErrorModel::ExpressionTooLarge { expr, value, spec: code }),
        state::encoding_failure(expr, EncodeErrorModel::Negative(value), undeclared)
            == FailureModel::Error(ErrorModel::ExpressionNegative { expr, value }),
        state::encoding_failure(
            expr,
            EncodeErrorModel::NoValue(EvalErrorModel::UnknownLabel(label)),
            undeclared,
        ) == FailureModel::Error(ErrorModel::UndeclaredLabels { labels: undeclared }),
        state::encoding_failure(
            expr,
            EncodeErrorModel::NoValue(EvalErrorModel::UnknownMacro(label)),
            undeclared,
        ) == FailureModel::Error(ErrorModel::UndeclaredExpressionMacro { name: label }),
        state::encoding_failure(
            expr,
            EncodeErrorModel::NoValue(EvalErrorModel::UndefinedVariable(label)),
            undeclared,
        ) == FailureModel::Error(ErrorModel::UndeclaredVariableMacro { var: label }),
        state::encoding_failure(
            expr,
            EncodeErrorModel::NoValue(EvalErrorModel::TooDeep),
            undeclared,
        ) == FailureModel::Fault(Fault::EndlessMacro),
{
}

/// Conversions keep what they are given.
pub proof fn conversions_keep(
    op: AbstractOp,
    bytes: Vec<u8>,
    instructions: InstructionMacroDefinition,
    content: ExpressionMacroDefinition,
)
    ensures
        <RawOp as vstd::std_specs::convert::FromSpec<AbstractOp>>::from_spec(op) == RawOp::Op(op),
        <RawOp as vstd::std_specs::convert::FromSpec<Vec<u8>>>::from_spec(bytes) == RawOp::Raw(
            bytes,
        ),
        <AbstractOp as vstd::std_specs::convert::FromSpec<InstructionMacroDefinition>>::from_spec(
            instructions,
        ) == AbstractOp::MacroDefinition(MacroDefinition::Instruction(instructions)),
        <AbstractOp as vstd::std_specs::convert::FromSpec<ExpressionMacroDefinition>>::from_spec(
            content,
        ) == AbstractOp::MacroDefinition(MacroDefinition::Expression(content)),
{
}

/// A new assembler knows nothing, and starts at position zero.
pub proof fn new_assemblers_are_empty(offset: Option<u64>)
    ensures
        ({
            let state = state::new_state(offset);
            &&& state.ready.len() == 0
            &&& state.sizes.len() == 0
            &&& state.origin == 0
            &&& state.concrete_len == 0
            &&& state.labels.len() == 0
            &&& state.marks.len() == 0
            &&& state.macros.len() == 0
            &&& state.undeclared.len() == 0
            &&& state.pushes.len() == 0
            &&& state.offset == offset
        }),
{
}

/// After a program was assembled, the assembler keeps the labels and the macros, and goes on behind
/// the program.
pub proof fn assembled_programs_are_left(
    before: State,
    used: nat,
    ops: Seq<RawModel>,
    draws: Seq<u64>,
)
    requires
        state::assembled(before, used, ops, draws).result is Ok,
    ensures
        ({
            let after = state::assembled(before, used, ops, draws).state;
            &&& after.ready.len() == 0
            &&& after.sizes.len() == 0
            &&& after.origin == after.concrete_len
            &&& after.marks.len() == 0
            &&& after.pushes.len() == 0
            &&& after.undeclared.len() == 0
        }),
{
    let declared = state::macros_declared(before, ops, ops.len());
    let pushed = state::raws_pushed(declared.state, used, ops, ops.len(), draws);
    laid_out_keeps_undeclared(pushed.state);
}

proof fn laid_out_keeps_undeclared(state: State)
    ensures
        state::laid_out(state).state.undeclared == state.undeclared,
    decreases state::slack(state.sizes),
{
    state::backpatching_grows(state);
    let plain = state::backpatched(state);
    let (pushes, output) = state::emitted(plain.state, plain.state.ready.len());
    match (plain.failure, output, state.offset) {
        (None, Ok(bytes), Some(offset)) => {
            let in_gif = state::moved_to_gif(plain.state, bytes, offset);
            let sizes = state::sizes_widened(in_gif.state, pushes, pushes.len());
            if !(in_gif.failure is Some || sizes == in_gif.state.sizes) {
                let after = state::resized(in_gif.state, sizes);
                if after.failure is None {
                    state::widening_for_gif_grows(in_gif.state, pushes, pushes.len());
                    state::growing_takes_slack(plain.state.sizes, sizes);
                    state::growing_takes_slack(state.sizes, plain.state.sizes);
                    laid_out_keeps_undeclared(after.state);
                }
            }
        },
        _ => {},
    }
}

} // verus!
