//! What is refused, how, and what a refusal leaves behind.

use vstd::arithmetic::power;
use vstd::prelude::*;

use crate::context;
use crate::encode;
use crate::encode::EncodeErrorModel;
use crate::error::{ErrorModel, FailureModel, Fault};
use crate::expression::Term;
use crate::integer;
use crate::opcode;
use crate::opcode::{PUSH1, PUSH32};
use crate::ops::{MacroModel, OpModel, RawModel};
use crate::placement;
use crate::progress;
use crate::state;
use crate::state::{ItemModel, State};

verus! {

/// How many bytes a number takes up: it fits in `width` bytes if and only if it is less than 256
/// to the power of `width`.
pub proof fn width_bounds_value(value: nat, width: nat)
    requires
        width > 0,
    ensures
        integer::be_bytes(value).len() <= width <==> value < power::pow(256, width),
    decreases value,
{
    power::lemma_pow1(256);
    integer::be_bytes_represent(value);
    if value < 256 {
        power::lemma_pow_increases(256, 1, width);
    } else {
        integer::be_bytes_represent(value / 256);
        if width > 1 {
            width_bounds_value(value / 256, (width - 1) as nat);
            let rest = power::pow(256, (width - 1) as nat);
            reveal(power::pow);
            assert(power::pow(256, width) == 256 * rest);
        }
    }
}

/// The values that a push of `width` bytes does not hold, and how they are refused.
pub open spec fn holds_or_refuses(
    result: Result<Seq<u8>, EncodeErrorModel>,
    value: int,
    width: nat,
    code: u8,
) -> bool {
    match result {
        Ok(_) => 0 <= value < power::pow(256, width),
        Err(EncodeErrorModel::Negative(refused)) => value < 0 && refused == value,
        Err(EncodeErrorModel::TooLarge(refused, spec)) => value >= power::pow(256, width) && refused
            == value && spec == code,
        Err(EncodeErrorModel::NoValue(_)) => false,
    }
}

/// The push `code` with `n` bytes holds exactly the values from zero up to 256 to the power of `n`;
/// lesser ones are refused as negative, and all others as too large.
pub proof fn fixed_pushes_hold(code: u8, value: int)
    requires
        opcode::immediate_len(code) > 0,
    ensures
        holds_or_refuses(
            encode::fixed_push(code, value),
            value,
            opcode::immediate_len(code),
            code,
        ),
{
    power::lemma_pow_positive(256, opcode::immediate_len(code));
    if value >= 0 {
        width_bounds_value(value as nat, opcode::immediate_len(code));
    }
}

/// A `%push` holds exactly the values from zero up to 256 to the power of 32; lesser ones are
/// refused as negative, and all others as too large for `PUSH32`.
pub proof fn unsized_pushes_hold(value: int)
    ensures
        holds_or_refuses(encode::narrow_push(value), value, 32, PUSH32),
{
    power::lemma_pow_positive(256, 32);
    if value >= 0 {
        width_bounds_value(value as nat, 32);
    }
}

/// A `%push` with the room that it needs refuses no value that it would hold otherwise.
proof fn roomy_pushes_hold(value: int, room: nat)
    requires
        1 + encode::width_needed(value) <= room <= 33,
    ensures
        holds_or_refuses(encode::roomy_push(value, room), value, 32, PUSH32),
{
    integer::be_bytes_represent(value as nat);
    unsized_pushes_hold(value);
    assert(encode::roomy_push(value, room) == encode::fixed_push((PUSH1 + room - 2) as u8, value));
}

/// In a program that is laid out, every `%push` holds the values that fit in 32 bytes: whatever the
/// labels turn out to be, no other value is refused.
pub proof fn laid_out_pushes_hold(state: State, i: int, term: Term, value: int)
    requires
        placement::in_place(state),
        placement::pushes_have_room(state),
        0 <= i < state.ready.len(),
        state.ready[i] == ItemModel::Instruction(OpModel::Push(term)),
        encode::value_of(term, state.labels, state.macros) == Ok::<int, context::EvalErrorModel>(
            value,
        ),
    ensures
        holds_or_refuses(
            encode::encoding_in(
                OpModel::Push(term),
                state.sizes[i],
                state.labels,
                state.macros,
            ),
            value,
            32,
            PUSH32,
        ),
{
    assert(placement::is_unsized(state.ready[i]));
    assert(placement::is_listed(state, i));
    let j = choose|j: int| 0 <= j < state.pushes.len() && (#[trigger] state.pushes[j]).1 == i;
    assert(state.ready[state.pushes[j].1 as int] == ItemModel::Instruction(state.pushes[j].0));
    assert(state.pushes[j].0->Push_0 == term);
    assert(placement::has_room(state, i));
    roomy_pushes_hold(value, state.sizes[i]);
}

/// The width of a push, in bytes: that of its opcode, or the largest one where it has no size of
/// its own.
pub open spec fn push_width(op: OpModel) -> nat {
    match op {
        OpModel::Op { code, .. } => opcode::immediate_len(code),
        _ => 32,
    }
}

/// The opcode that a refusal names.
pub open spec fn push_code(op: OpModel) -> u8 {
    match op {
        OpModel::Op { code, .. } => code,
        _ => PUSH32,
    }
}

/// Which pushes are refused, where the value is known: as negative if and only if the value is less
/// than zero, and as too large if and only if it is no less than 256 to the power of the width.
/// All others are accepted, unless there is no position left behind them.
pub proof fn pushes_are_refused_by_value(
    state: State,
    used: nat,
    op: OpModel,
    draws: Seq<u64>,
    value: int,
)
    requires
        op is Push || op is Op,
        encode::expression_in(op) is Some,
        push_width(op) > 0,
        encode::value_of(encode::expression_in(op)->0, state.labels, state.macros) == Ok::<
            int,
            context::EvalErrorModel,
        >(value),
    ensures
        ({
            let failure = state::raw_pushed(state, used, RawModel::Op(op), draws).failure;
            let expr = encode::expression_in(op)->0;
            let bound = power::pow(256, push_width(op));
            let negative = Some(
                FailureModel::Error(ErrorModel::ExpressionNegative { expr, value }),
            );
            let too_large = Some(
                FailureModel::Error(
                    ErrorModel::ExpressionTooLarge { expr, value, spec: push_code(op) },
                ),
            );
            &&& failure == negative <==> value < 0
            &&& failure == too_large <==> value >= bound
            &&& 0 <= value < bound ==> failure is None || failure == Some(
                FailureModel::Fault(Fault::OffsetOverflow),
            )
            &&& failure is None ==> 0 <= value < bound
        }),
{
    power::lemma_pow_positive(256, push_width(op));
    assert(state::raw_pushed(state, used, RawModel::Op(op), draws) == state::op_pushed(
        state,
        used,
        op,
        draws,
        context::NESTING_LIMIT as nat,
    ));
    match op {
        OpModel::Op { code, .. } => {
            fixed_pushes_hold(code, value);
        },
        _ => {
            unsized_pushes_hold(value);
        },
    }
}

/// An item that is refused leaves the assembler as it was. Macros are left aside: of those, what
/// was accepted before the refusal stays.
pub proof fn refusals_change_nothing(state: State, used: nat, op: RawModel, draws: Seq<u64>)
    requires
        state::raw_pushed(state, used, op, draws).failure is Some,
        op matches RawModel::Op(op) ==> !(op is Macro),
    ensures
        state::raw_pushed(state, used, op, draws).state == state,
{
}

/// A macro that is not defined is refused by its name, nothing is drawn, and the assembler stays as
/// it was.
pub proof fn undefined_macros_are_refused(
    state: State,
    used: nat,
    name: Seq<char>,
    arguments: Seq<Term>,
    draws: Seq<u64>,
)
    requires
        match context::find_macro(state.macros, name) {
            Some(MacroModel::Instruction { .. }) => false,
            _ => true,
        },
    ensures
        ({
            let step = state::raw_pushed(
                state,
                used,
                RawModel::Op(OpModel::Macro(name, arguments)),
                draws,
            );
            &&& step.state == state
            &&& step.used == used
            &&& step.failure == Some(
                FailureModel::Error(ErrorModel::UndeclaredInstructionMacro { name }),
            )
        }),
{
    let op = OpModel::Macro(name, arguments);
    let depth = context::NESTING_LIMIT as nat;
    assert(state::raw_pushed(state, used, RawModel::Op(op), draws) == state::op_pushed(
        state,
        used,
        op,
        draws,
        depth,
    ));
    assert(state::op_pushed(state, used, op, draws, depth) == state::macro_expanded(
        state,
        used,
        name,
        arguments,
        draws,
        depth,
    ));
}

/// A macro that is used with too few or too many arguments is refused: nothing is accepted, nothing
/// is drawn. Where a macro was expanded, it is defined, there was one argument for each parameter,
/// and the labels that were declared before keep their positions.
pub proof fn arguments_are_counted(
    state: State,
    used: nat,
    name: Seq<char>,
    arguments: Seq<Term>,
    draws: Seq<u64>,
    depth: nat,
)
    ensures
        ({
            let step = state::macro_expanded(state, used, name, arguments, draws, depth);
            let definition = context::find_macro(state.macros, name);
            &&& !state::takes_arguments(state.macros, name, arguments.len()) ==> {
                &&& step.state == state
                &&& step.used == used
                &&& step.failure == Some(FailureModel::Fault(Fault::ArgumentCount))
            }
            &&& step.failure is None ==> {
                &&& definition is Some && definition->0 is Instruction
                &&& definition->0->Instruction_parameters.len() == arguments.len()
            }
            &&& state.labels.is_prefix_of(step.state.labels)
        }),
{
    progress::macro_continues(state, used, name, arguments, draws, depth);
}

/// How far an item moves the position: a label and the definition of a macro not at all, bytes and
/// scopes by their length, the directive `.org` to its offset, an instruction by its size, and a
/// `%push` by two bytes where the value is not known yet, else by the size of the narrowest push.
/// The use of a macro is left aside: it moves the position as its items do.
pub open spec fn advance(state: State, used: nat, op: RawModel, draws: Seq<u64>) -> int {
    match op {
        RawModel::Raw(bytes) => bytes.len() as int,
        RawModel::Scope(ops) => state::assembled(
            state::new_state(None),
            used,
            ops,
            draws,
        ).result->Ok_0.len() as int,
        RawModel::Op(OpModel::Org(offset)) => offset - state.concrete_len,
        RawModel::Op(OpModel::Op { code, immediate: Some(_) }) => opcode::instruction_size(
            code,
        ) as int,
        RawModel::Op(OpModel::Op { immediate: None, .. }) => 1,
        RawModel::Op(OpModel::Push(term)) => match encode::value_of(
            term,
            state.labels,
            state.macros,
        ) {
            Ok(value) => 1 + integer::be_bytes(value as nat).len() as int,
            Err(_) => 2,
        },
        RawModel::Op(_) => 0,
    }
}

/// Every item that is accepted moves the position by what it takes up.
pub proof fn items_advance(state: State, used: nat, op: RawModel, draws: Seq<u64>)
    requires
        state::raw_pushed(state, used, op, draws).failure is None,
        op matches RawModel::Op(op) ==> !(op is Macro),
    ensures
        state::raw_pushed(state, used, op, draws).state.concrete_len == state.concrete_len
            + advance(state, used, op, draws),
{
}

/// What an output is made of: the items with their room, where the first one stands, the labels,
/// the macros, the undeclared labels for errors, and whether it goes into a GIF file.
pub proof fn output_depends_on_layout(state: State, other: State, count: nat)
    requires
        other.ready == state.ready,
        other.sizes == state.sizes,
        other.origin == state.origin,
        other.labels == state.labels,
        other.macros == state.macros,
        other.undeclared == state.undeclared,
        other.offset == state.offset,
    ensures
        state::emitted(other, count) == state::emitted(state, count),
    decreases count,
{
    if count > 0 {
        output_depends_on_layout(state, other, (count - 1) as nat);
    }
}

/// The output can be had again: a program that is laid out gives the same output, and lays out the
/// same way.
pub proof fn output_is_repeatable(state: State)
    requires
        placement::in_place(state),
        state.undeclared.len() == 0,
        state::laid_out(state).failure is None,
    ensures
        state::finished(state::laid_out(state).state) == state::finished(state),
        state::laid_out(state::laid_out(state).state) == state::laid_out(state),
{
    placement::laying_out_is_in_place(state);
}

} // verus!
