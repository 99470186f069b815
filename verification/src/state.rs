//! What assembling a program means: the states that an assembler goes through, and the bytes that
//! come out.

use vstd::prelude::*;

use crate::context;
use crate::context::{EvalErrorModel, NESTING_LIMIT};
use crate::encode;
use crate::encode::EncodeErrorModel;
use crate::error;
use crate::error::{ErrorModel, FailureModel, Fault};
use crate::evmgif;
use crate::expression::Term;
use crate::integer;
use crate::labels;
use crate::labels::LabelDef;
use crate::macros;
use crate::opcode;
use crate::opcode::JUMPDEST;
use crate::ops::{MacroModel, OpModel, RawModel};

verus! {

/// What takes part in the output.
pub enum ItemModel {
    /// An instruction.
    Instruction(OpModel),
    /// Bytes that are placed as they are.
    Raw(Seq<u8>),
    /// Zeros up to an offset.
    Org(nat),
}

/// A push that refers to a label, where the output goes into a GIF file.
pub struct PushRefModel {
    /// The index of the push among the items.
    pub item: nat,
    /// Whether the assembler chooses the size of the push.
    pub resizable: bool,
    /// The offset of the opcode in the program.
    pub unchunked_op_pos: nat,
    /// The width of the immediate.
    pub imm_size: nat,
    /// The expression whose value is pushed.
    pub expr: Term,
}

/// The state of an assembler.
pub struct State {
    /// What was accepted so far, in the order of the program.
    pub ready: Seq<ItemModel>,
    /// The room for each item, in bytes.
    pub sizes: Seq<nat>,
    /// The position of the first item.
    pub origin: nat,
    /// The position behind the last item.
    pub concrete_len: nat,
    /// The declared labels with their positions.
    pub labels: Seq<(Seq<char>, Option<LabelDef>)>,
    /// Where the labels of the program stand: the index of each one in `labels`, and the number of
    /// items in front of it.
    pub marks: Seq<(nat, nat)>,
    /// The defined macros.
    pub macros: Seq<MacroModel>,
    /// The labels that were referred to and not declared.
    pub undeclared: Seq<Seq<char>>,
    /// The pushes whose size the assembler chooses, each with its index among the items.
    pub pushes: Seq<(OpModel, nat)>,
    /// Where the output starts in a GIF file, if it goes into one.
    pub offset: Option<u64>,
}

/// A state, and what went wrong on the way to it.
pub struct Outcome {
    pub state: State,
    pub failure: Option<FailureModel>,
}

/// A state, how many numbers were drawn on the way to it, and what went wrong.
pub struct Step {
    pub state: State,
    pub used: nat,
    pub failure: Option<FailureModel>,
}

/// A state, and the bytes that came out.
pub struct Emission {
    pub state: State,
    pub result: Result<Seq<u8>, FailureModel>,
}

/// A state, how many numbers were drawn on the way to it, and the bytes that came out.
pub struct Assembly {
    pub state: State,
    pub used: nat,
    pub result: Result<Seq<u8>, FailureModel>,
}

/// Whether the program was unfit for the assembler.
pub open spec fn is_fault(result: Result<Seq<u8>, FailureModel>) -> bool {
    result is Err && result->Err_0 is Fault
}

/// The state of a new assembler.
pub open spec fn new_state(offset: Option<u64>) -> State {
    State {
        ready: Seq::empty(),
        sizes: Seq::empty(),
        origin: 0,
        concrete_len: 0,
        labels: Seq::empty(),
        marks: Seq::empty(),
        macros: Seq::empty(),
        undeclared: Seq::empty(),
        pushes: Seq::empty(),
        offset,
    }
}

/// The state with `item` behind the others, `size` bytes long.
pub open spec fn accepted(state: State, item: ItemModel, size: nat) -> Outcome {
    if state.concrete_len + size > usize::MAX {
        Outcome { state, failure: Some(FailureModel::Fault(Fault::OffsetOverflow)) }
    } else {
        Outcome {
            state: State {
                ready: state.ready.push(item),
                sizes: state.sizes.push(size),
                concrete_len: state.concrete_len + size,
                pushes: match item {
                    ItemModel::Instruction(OpModel::Push(term)) => state.pushes.push(
                        (OpModel::Push(term), state.ready.len()),
                    ),
                    _ => state.pushes,
                },
                ..state
            },
            failure: None,
        }
    }
}

/// The state after the macros among the first `count` of `ops` were defined.
pub open spec fn macros_declared(state: State, ops: Seq<RawModel>, count: nat) -> Outcome
    decreases count,
{
    if count == 0 {
        Outcome { state, failure: None }
    } else {
        let before = macros_declared(state, ops, (count - 1) as nat);
        if before.failure is Some {
            before
        } else {
            match ops[count - 1] {
                RawModel::Op(OpModel::MacroDefinition(definition)) => if context::find_macro(
                    before.state.macros,
                    definition.macro_name(),
                ) is Some {
                    Outcome {
                        state: before.state,
                        failure: Some(
                            FailureModel::Error(
                                ErrorModel::DuplicateMacro { name: definition.macro_name() },
                            ),
                        ),
                    }
                } else {
                    Outcome {
                        state: State {
                            macros: before.state.macros.push(definition),
                            ..before.state
                        },
                        failure: None,
                    }
                },
                _ => before,
            }
        }
    }
}

/// `undeclared` with those of the first `count` of `used_labels` that were never declared, each of
/// them once.
pub open spec fn with_undeclared(
    undeclared: Seq<Seq<char>>,
    used_labels: Seq<Seq<char>>,
    count: nat,
    entries: Seq<(Seq<char>, Option<LabelDef>)>,
) -> Seq<Seq<char>>
    decreases count,
{
    if count == 0 {
        undeclared
    } else {
        let before = with_undeclared(undeclared, used_labels, (count - 1) as nat, entries);
        let label = used_labels[count - 1];
        if before.contains(label) || labels::label_index(entries, label) is Some {
            before
        } else {
            before.push(label)
        }
    }
}

/// `undeclared` without `label`.
pub open spec fn without_label(undeclared: Seq<Seq<char>>, label: Seq<char>) -> Seq<Seq<char>> {
    undeclared.filter(|other: Seq<char>| other != label)
}

/// The state after a label was declared.
pub open spec fn label_declared(state: State, label: Seq<char>) -> Outcome {
    if labels::label_index(state.labels, label) is Some {
        Outcome {
            state,
            failure: Some(FailureModel::Error(ErrorModel::DuplicateLabel { label })),
        }
    } else {
        Outcome {
            state: State {
                labels: state.labels.push(
                    (
                        label,
                        Some(LabelDef { position: state.concrete_len as usize, updated: false }),
                    ),
                ),
                marks: state.marks.push((state.labels.len(), state.ready.len())),
                undeclared: without_label(state.undeclared, label),
                ..state
            },
            failure: None,
        }
    }
}

/// The state after the directive `.org`.
pub open spec fn org_accepted(state: State, offset: nat) -> Outcome {
    if offset < state.concrete_len {
        Outcome {
            state,
            failure: Some(
                FailureModel::Error(
                    ErrorModel::OrgRewind { offset, position: state.concrete_len },
                ),
            ),
        }
    } else if offset > usize::MAX {
        Outcome { state, failure: Some(FailureModel::Fault(Fault::OffsetOverflow)) }
    } else {
        Outcome {
            state: State {
                ready: state.ready.push(ItemModel::Org(offset)),
                sizes: state.sizes.push(0),
                concrete_len: offset,
                ..state
            },
            failure: None,
        }
    }
}

/// The state after an instruction was accepted that refers to a label without a position, where
/// `used_labels` are all the labels that it refers to. A push of unknown width counts as the
/// narrowest one for now.
pub open spec fn instruction_deferred(
    state: State,
    op: OpModel,
    used_labels: Seq<Seq<char>>,
) -> Outcome {
    let size = match op {
        OpModel::Op { code, .. } => opcode::instruction_size(code),
        _ => 2,
    };
    let after = accepted(state, ItemModel::Instruction(op), size);
    if after.failure is Some {
        after
    } else {
        Outcome {
            state: State {
                undeclared: with_undeclared(
                    state.undeclared,
                    used_labels,
                    used_labels.len(),
                    state.labels,
                ),
                ..after.state
            },
            failure: None,
        }
    }
}

/// The state after an instruction was accepted.
pub open spec fn instruction_accepted(state: State, op: OpModel) -> Outcome {
    let failed = |failure: FailureModel| Outcome { state, failure: Some(failure) };
    match encode::encoding(op, state.labels, state.macros) {
        Ok(bytes) => accepted(state, ItemModel::Instruction(op), bytes.len()),
        Err(EncodeErrorModel::NoValue(EvalErrorModel::UnknownLabel(_))) => match context::labels_in(
            encode::expression_in(op)->0,
            state.macros,
            NESTING_LIMIT as nat,
        ) {
            Ok(used_labels) => instruction_deferred(state, op, used_labels),
            Err(error) => failed(error::no_value(error)),
        },
        Err(error) => failed(
            encoding_failure(encode::expression_in(op)->0, error, state.undeclared),
        ),
    }
}

/// What it means that an instruction with the expression `expr` has no bytes.
pub open spec fn encoding_failure(
    expr: Term,
    error: EncodeErrorModel,
    undeclared: Seq<Seq<char>>,
) -> FailureModel {
    match error {
        EncodeErrorModel::TooLarge(value, spec) => FailureModel::Error(
            ErrorModel::ExpressionTooLarge { expr, value, spec },
        ),
        EncodeErrorModel::Negative(value) => FailureModel::Error(
            ErrorModel::ExpressionNegative { expr, value },
        ),
        EncodeErrorModel::NoValue(EvalErrorModel::UnknownLabel(_)) => FailureModel::Error(
            ErrorModel::UndeclaredLabels { labels: undeclared },
        ),
        EncodeErrorModel::NoValue(error) => error::no_value(error),
    }
}

/// The state after `op`, where macros are nested no deeper than `depth`.
pub open spec fn op_pushed(
    state: State,
    used: nat,
    op: OpModel,
    draws: Seq<u64>,
    depth: nat,
) -> Step
    decreases depth, 1nat,
{
    match op {
        OpModel::Label(label) => {
            let after = label_declared(state, label);
            Step { state: after.state, used, failure: after.failure }
        },
        OpModel::MacroDefinition(_) => Step { state, used, failure: None },
        OpModel::Macro(name, arguments) => macro_expanded(
            state,
            used,
            name,
            arguments,
            draws,
            depth,
        ),
        OpModel::Org(offset) => {
            let after = org_accepted(state, offset);
            Step { state: after.state, used, failure: after.failure }
        },
        _ => {
            let after = instruction_accepted(state, op);
            Step { state: after.state, used, failure: after.failure }
        },
    }
}

/// Whether `name` is no instruction macro, or one that takes `count` arguments.
pub open spec fn takes_arguments(macros: Seq<MacroModel>, name: Seq<char>, count: nat) -> bool {
    match context::find_macro(macros, name) {
        Some(MacroModel::Instruction { parameters, .. }) => parameters.len() == count,
        _ => true,
    }
}

/// The state after the macro `name` was expanded with the given arguments.
pub open spec fn macro_expanded(
    state: State,
    used: nat,
    name: Seq<char>,
    arguments: Seq<Term>,
    draws: Seq<u64>,
    depth: nat,
) -> Step
    decreases depth, 0nat,
{
    match context::find_macro(state.macros, name) {
        Some(MacroModel::Instruction { parameters, contents, .. }) => if parameters.len()
            != arguments.len() {
            Step { state, used, failure: Some(FailureModel::Fault(Fault::ArgumentCount)) }
        } else {
            let fresh = macros::fresh_upto(name, contents, contents.len(), used, draws);
            match fresh.duplicate {
                Some(label) => Step {
                    state,
                    used: fresh.used,
                    failure: Some(FailureModel::Error(ErrorModel::DuplicateLabel { label })),
                },
                None => match macros::instantiated_upto(
                    fresh.contents,
                    fresh.contents.len(),
                    fresh.table,
                    parameters,
                    arguments,
                    state.macros,
                ) {
                    Err(failure) => Step {
                        state,
                        used: fresh.used,
                        failure: Some(failure),
                    },
                    Ok(ops) => if depth == 0 {
                        Step {
                            state,
                            used: fresh.used,
                            failure: Some(FailureModel::Fault(Fault::EndlessMacro)),
                        }
                    } else {
                        ops_pushed(state, fresh.used, ops, ops.len(), draws, (depth - 1) as nat)
                    },
                },
            }
        },
        _ => Step {
            state,
            used,
            failure: Some(
                FailureModel::Error(ErrorModel::UndeclaredInstructionMacro { name }),
            ),
        },
    }
}

/// The state after the first `count` of `ops`.
pub open spec fn ops_pushed(
    state: State,
    used: nat,
    ops: Seq<OpModel>,
    count: nat,
    draws: Seq<u64>,
    depth: nat,
) -> Step
    decreases depth, count + 1,
{
    if count == 0 {
        Step { state, used, failure: None }
    } else {
        let before = ops_pushed(state, used, ops, (count - 1) as nat, draws, depth);
        if before.failure is Some {
            before
        } else {
            op_pushed(before.state, before.used, ops[count - 1], draws, depth)
        }
    }
}

/// The position behind the first `count` items, where each of them takes up the given room.
pub open spec fn position_at(
    origin: nat,
    ready: Seq<ItemModel>,
    sizes: Seq<nat>,
    count: int,
) -> nat
    decreases count,
{
    if count <= 0 {
        origin
    } else {
        match ready[count - 1] {
            ItemModel::Org(offset) => offset,
            _ => position_at(origin, ready, sizes, count - 1) + sizes[count - 1],
        }
    }
}

/// Whether every position of the program is one.
pub open spec fn positions_fit(origin: nat, ready: Seq<ItemModel>, sizes: Seq<nat>) -> bool {
    forall|k: int|
        0 <= k <= ready.len() ==> #[trigger] position_at(origin, ready, sizes, k) <= usize::MAX
}

/// `def` at `position`.
pub open spec fn moved(def: Option<LabelDef>, position: nat) -> Option<LabelDef> {
    match def {
        Some(def) => if def.position == position {
            Some(def)
        } else {
            Some(LabelDef { position: position as usize, updated: true })
        },
        None => Some(LabelDef { position: position as usize, updated: true }),
    }
}

/// The labels, the first `count` of those of the program at the positions where they stand.
pub open spec fn labels_placed(state: State, count: nat) -> Seq<(Seq<char>, Option<LabelDef>)>
    decreases count,
{
    if count == 0 {
        state.labels
    } else {
        let before = labels_placed(state, (count - 1) as nat);
        let (i, mark) = state.marks[count - 1];
        if i < before.len() && mark <= state.ready.len() {
            before.update(
                i as int,
                (
                    before[i as int].0,
                    moved(
                        before[i as int].1,
                        position_at(state.origin, state.ready, state.sizes, mark as int),
                    ),
                ),
            )
        } else {
            before
        }
    }
}

/// The state with the labels where they stand.
pub open spec fn placed(state: State) -> Outcome {
    if positions_fit(state.origin, state.ready, state.sizes) {
        Outcome {
            state: State {
                labels: labels_placed(state, state.marks.len()),
                concrete_len: position_at(
                    state.origin,
                    state.ready,
                    state.sizes,
                    state.ready.len() as int,
                ),
                ..state
            },
            failure: None,
        }
    } else {
        Outcome { state, failure: Some(FailureModel::Fault(Fault::OffsetOverflow)) }
    }
}

/// The state after the first `count` pushes without a size of their own were given the room that
/// they need, and the labels behind them were moved.
pub open spec fn pushes_widened(state: State, count: nat) -> Outcome
    decreases count,
{
    if count == 0 {
        Outcome { state, failure: None }
    } else {
        let before = pushes_widened(state, (count - 1) as nat);
        if before.failure is Some {
            before
        } else {
            let (op, item) = state.pushes[count - 1];
            match op {
                OpModel::Push(term) => match encode::value_of(
                    term,
                    before.state.labels,
                    before.state.macros,
                ) {
                    Ok(value) => {
                        let room = 1 + encode::width_needed(value);
                        if item < before.state.sizes.len() && before.state.sizes[item as int]
                            < room {
                            placed(
                                State {
                                    sizes: before.state.sizes.update(item as int, room),
                                    ..before.state
                                },
                            )
                        } else {
                            before
                        }
                    },
                    Err(EvalErrorModel::TooDeep) => Outcome {
                        state: before.state,
                        failure: Some(FailureModel::Fault(Fault::EndlessMacro)),
                    },
                    Err(_) => before,
                },
                _ => before,
            }
        }
    }
}

/// By how much the items could still grow, if all of them were pushes.
pub open spec fn slack(sizes: Seq<nat>) -> nat
    decreases sizes.len(),
{
    if sizes.len() == 0 {
        0
    } else {
        slack(sizes.drop_last()) + if sizes.last() < 33 {
            (33 - sizes.last()) as nat
        } else {
            0
        }
    }
}

/// `larger` gives every item at least the room that `sizes` does, and no more than the widest push
/// takes up where it gives more.
pub open spec fn no_smaller(sizes: Seq<nat>, larger: Seq<nat>) -> bool {
    &&& larger.len() == sizes.len()
    &&& forall|i: int|
        0 <= i < sizes.len() ==> #[trigger] larger[i] == sizes[i] || sizes[i] < larger[i] <= 33
}

/// Growing uses up what is left to grow.
pub proof fn growing_takes_slack(sizes: Seq<nat>, larger: Seq<nat>)
    requires
        no_smaller(sizes, larger),
    ensures
        slack(larger) <= slack(sizes),
        larger != sizes ==> slack(larger) < slack(sizes),
    decreases sizes.len(),
{
    if sizes.len() > 0 {
        let i = sizes.len() - 1;
        assert(larger[i] == sizes[i] || sizes[i] < larger[i] <= 33);
        assert forall|k: int| 0 <= k < i implies #[trigger] larger.drop_last()[k]
            == sizes.drop_last()[k] || sizes.drop_last()[k] < larger.drop_last()[k] <= 33 by {
            assert(larger[k] == sizes[k] || sizes[k] < larger[k] <= 33);
        }
        growing_takes_slack(sizes.drop_last(), larger.drop_last());
        if larger != sizes && larger.drop_last() == sizes.drop_last() {
            assert(larger[i] != sizes[i]) by {
                if larger[i] == sizes[i] {
                    assert forall|k: int| 0 <= k < sizes.len() implies larger[k] == sizes[k] by {
                        if k < i {
                            assert(larger.drop_last()[k] == sizes.drop_last()[k]);
                        }
                    }
                    assert(larger =~= sizes);
                }
            }
        }
    } else {
        assert(larger =~= sizes);
    }
}

/// Growing twice is growing.
pub proof fn growing_goes_on(first: Seq<nat>, second: Seq<nat>, third: Seq<nat>)
    requires
        no_smaller(first, second),
        no_smaller(second, third),
    ensures
        no_smaller(first, third),
{
    assert forall|i: int| 0 <= i < first.len() implies #[trigger] third[i] == first[i] || first[i]
        < third[i] <= 33 by {
        assert(second[i] == first[i] || first[i] < second[i] <= 33);
        assert(third[i] == second[i] || second[i] < third[i] <= 33);
    }
}

/// A push needs no more room than the widest one.
pub proof fn widening_grows(state: State, count: nat)
    ensures
        no_smaller(state.sizes, pushes_widened(state, count).state.sizes),
        pushes_widened(state, count).state == (State {
            sizes: pushes_widened(state, count).state.sizes,
            labels: pushes_widened(state, count).state.labels,
            concrete_len: pushes_widened(state, count).state.concrete_len,
            ..state
        }),
    decreases count,
{
    if count > 0 {
        widening_grows(state, (count - 1) as nat);
        let before = pushes_widened(state, (count - 1) as nat);
        let after = pushes_widened(state, count);
        assert(no_smaller(before.state.sizes, after.state.sizes));
        growing_goes_on(state.sizes, before.state.sizes, after.state.sizes);
    }
}

/// The state in which every push without a size of its own has the room that it needs: pushes are
/// widened, and labels moved, until sizes and labels agree.
pub open spec fn backpatched(state: State) -> Outcome
    decreases slack(state.sizes),
{
    let after = pushes_widened(state, state.pushes.len());
    if after.failure is Some || after.state.sizes == state.sizes {
        after
    } else {
        proof {
            widening_grows(state, state.pushes.len());
            growing_takes_slack(state.sizes, after.state.sizes);
        }
        backpatched(after.state)
    }
}

/// Whether `op` is a push that refers to a label, as far as that can be told.
pub open spec fn refers_to_label(op: OpModel, macros: Seq<MacroModel>) -> Result<bool, Fault> {
    match encode::expression_in(op) {
        Some(term) => match context::labels_in(term, macros, NESTING_LIMIT as nat) {
            Ok(used_labels) => Ok(used_labels.len() > 0),
            Err(EvalErrorModel::TooDeep) => Err(Fault::EndlessMacro),
            Err(_) => Ok(false),
        },
        None => Ok(false),
    }
}

/// The output `output` with the item at index `i` behind it, and with it the pushes that refer to
/// labels, where the output goes into a GIF file.
pub open spec fn item_emitted(
    state: State,
    i: nat,
    pushes: Seq<PushRefModel>,
    output: Seq<u8>,
) -> (Seq<PushRefModel>, Result<Seq<u8>, FailureModel>) {
    match state.ready[i as int] {
        ItemModel::Raw(bytes) => (pushes, Ok(output + bytes)),
        ItemModel::Org(offset) => {
            let position = state.origin + output.len();
            if position > usize::MAX {
                (pushes, Err(FailureModel::Fault(Fault::OffsetOverflow)))
            } else if offset < position {
                (
                    pushes,
                    Err(FailureModel::Error(ErrorModel::OrgRewind { offset, position })),
                )
            } else {
                (pushes, Ok(output + Seq::new((offset - position) as nat, |i: int| 0u8)))
            }
        },
        ItemModel::Instruction(op) => match if state.offset is Some {
            refers_to_label(op, state.macros)
        } else {
            Ok(false)
        } {
            Err(fault) => (pushes, Err(FailureModel::Fault(fault))),
            Ok(refers) => match encode::encoding_in(
                op,
                state.sizes[i as int],
                state.labels,
                state.macros,
            ) {
                Ok(bytes) => (
                    if refers {
                        pushes.push(
                            PushRefModel {
                                item: i,
                                resizable: op is Push,
                                unchunked_op_pos: output.len(),
                                imm_size: (bytes.len() - 1) as nat,
                                expr: encode::expression_in(op)->0,
                            },
                        )
                    } else {
                        pushes
                    },
                    Ok(output + bytes),
                ),
                Err(error) => (
                    pushes,
                    Err(
                        encoding_failure(
                            encode::expression_in(op)->0,
                            error,
                            state.undeclared,
                        ),
                    ),
                ),
            },
        },
    }
}

/// The bytes of the first `count` items, and the pushes among them that refer to labels, where the
/// output goes into a GIF file.
pub open spec fn emitted(state: State, count: nat) -> (Seq<PushRefModel>, Result<
    Seq<u8>,
    FailureModel,
>)
    decreases count,
{
    if count == 0 {
        (Seq::empty(), Ok(Seq::empty()))
    } else {
        let (pushes, before) = emitted(state, (count - 1) as nat);
        match before {
            Err(_) => (pushes, before),
            Ok(output) => item_emitted(state, (count - 1) as nat, pushes, output),
        }
    }
}

/// The labels, the first `count` of those of the program at their positions in a GIF file, where
/// instructions stand at the offsets in `map` behind `offset`, up to the first label that has no
/// position there.
pub open spec fn relocated(
    state: State,
    count: nat,
    map: Map<usize, usize>,
    offset: u64,
) -> (Seq<(Seq<char>, Option<LabelDef>)>, Option<Fault>)
    decreases count,
{
    if count == 0 {
        (state.labels, None)
    } else {
        let (before, fault) = relocated(state, (count - 1) as nat, map, offset);
        if fault is Some {
            (before, fault)
        } else {
            let i = state.marks[count - 1].0 as int;
            if i >= before.len() || before[i].1 is None {
                (before, None)
            } else {
                let at = before[i].1->0.position - state.origin;
                if at < 0 || !map.contains_key(at as usize) {
                    (before, Some(Fault::LabelInsideInstruction))
                } else if map[at as usize] + offset > usize::MAX {
                    (before, Some(Fault::OffsetOverflow))
                } else {
                    (
                        before.update(
                            i,
                            (
                                before[i].0,
                                Some(
                                    LabelDef {
                                        position: (map[at as usize] + offset) as usize,
                                        updated: true,
                                    },
                                ),
                            ),
                        ),
                        None,
                    )
                }
            }
        }
    }
}

/// `bytes` with `replacement` at `at`.
pub open spec fn spliced(bytes: Seq<u8>, at: int, replacement: Seq<u8>) -> Seq<u8> {
    bytes.take(at) + replacement + bytes.skip(at + replacement.len())
}

/// `bytes` with a new immediate for `push`.
pub open spec fn push_patched(
    state: State,
    bytes: Seq<u8>,
    push: PushRefModel,
    map: Map<usize, usize>,
) -> Result<Seq<u8>, FailureModel> {
    match encode::value_of(push.expr, state.labels, state.macros) {
        Err(error) => Err(
            encoding_failure(push.expr, EncodeErrorModel::NoValue(error), state.undeclared),
        ),
        Ok(value) => if value < 0 {
            Err(
                encoding_failure(
                    push.expr,
                    EncodeErrorModel::Negative(value),
                    state.undeclared,
                ),
            )
        } else if integer::be_bytes(value as nat).len() > push.imm_size {
            Err(
                FailureModel::Error(
                    ErrorModel::EvmGifPushOverflow {
                        expr: push.expr,
                        value,
                        push_size: push.imm_size,
                    },
                ),
            )
        } else if push.unchunked_op_pos > usize::MAX || !map.contains_key(
            push.unchunked_op_pos as usize,
        ) || map[push.unchunked_op_pos as usize] + 1 + push.imm_size > bytes.len() {
            Err(FailureModel::Fault(Fault::PushInsideInstruction))
        } else {
            Ok(
                spliced(
                    bytes,
                    map[push.unchunked_op_pos as usize] + 1,
                    encode::padded(integer::be_bytes(value as nat), push.imm_size),
                ),
            )
        },
    }
}

/// `bytes` with new immediates for the first `count` of `pushes`.
pub open spec fn patched(
    state: State,
    bytes: Seq<u8>,
    pushes: Seq<PushRefModel>,
    count: nat,
    map: Map<usize, usize>,
) -> Result<Seq<u8>, FailureModel>
    decreases count,
{
    if count == 0 {
        Ok(bytes)
    } else {
        match patched(state, bytes, pushes, (count - 1) as nat, map) {
            Err(failure) => Err(failure),
            Ok(before) => push_patched(state, before, pushes[count - 1], map),
        }
    }
}

/// The state with the labels at their positions in a GIF file that carries the program `bytes` at
/// `offset`.
pub open spec fn moved_to_gif(state: State, bytes: Seq<u8>, offset: u64) -> Outcome {
    if bytes.len() == 0 || bytes[0] != JUMPDEST {
        Outcome {
            state,
            failure: Some(
                FailureModel::Error(
                    ErrorModel::EvmGifFirstNotJumpdest {
                        actual: if bytes.len() == 0 {
                            None
                        } else {
                            Some(bytes[0])
                        },
                    },
                ),
            ),
        }
    } else if bytes.len() + 3 * evmgif::headers_of(bytes).len() + 11 > usize::MAX {
        Outcome { state, failure: Some(FailureModel::Fault(Fault::OffsetOverflow)) }
    } else {
        let (entries, fault) = relocated(
            state,
            state.marks.len(),
            evmgif::map_of(bytes),
            offset,
        );
        Outcome {
            state: State { labels: entries, ..state },
            failure: match fault {
                Some(fault) => Some(FailureModel::Fault(fault)),
                None => None,
            },
        }
    }
}

/// The room for the items, after those of the first `count` of `pushes` whose size the assembler
/// chooses got what they need, with the labels where they are in `state`.
pub open spec fn sizes_widened(
    state: State,
    pushes: Seq<PushRefModel>,
    count: nat,
) -> Seq<nat>
    decreases count,
{
    if count == 0 {
        state.sizes
    } else {
        let before = sizes_widened(state, pushes, (count - 1) as nat);
        let push = pushes[count - 1];
        match encode::value_of(push.expr, state.labels, state.macros) {
            Ok(value) => if push.resizable && push.item < before.len() && before[push.item as int]
                < 1 + encode::width_needed(value) {
                before.update(push.item as int, 1 + encode::width_needed(value))
            } else {
                before
            },
            Err(_) => before,
        }
    }
}

/// A push needs no more room than the widest one, in a GIF file as well.
pub proof fn widening_for_gif_grows(state: State, pushes: Seq<PushRefModel>, count: nat)
    ensures
        no_smaller(state.sizes, sizes_widened(state, pushes, count)),
    decreases count,
{
    if count > 0 {
        widening_for_gif_grows(state, pushes, (count - 1) as nat);
        let before = sizes_widened(state, pushes, (count - 1) as nat);
        let after = sizes_widened(state, pushes, count);
        assert(no_smaller(before, after));
        growing_goes_on(state.sizes, before, after);
    }
}

/// The state with other room for the items, and the labels where they stand then.
pub open spec fn resized(state: State, sizes: Seq<nat>) -> Outcome {
    placed(State { sizes, ..state })
}

/// Making room keeps the items, and gives them no less of it.
pub proof fn backpatching_grows(state: State)
    ensures
        no_smaller(state.sizes, backpatched(state).state.sizes),
        backpatched(state).state == (State {
            sizes: backpatched(state).state.sizes,
            labels: backpatched(state).state.labels,
            concrete_len: backpatched(state).state.concrete_len,
            ..state
        }),
    decreases slack(state.sizes),
{
    let after = pushes_widened(state, state.pushes.len());
    widening_grows(state, state.pushes.len());
    if !(after.failure is Some || after.state.sizes == state.sizes) {
        growing_takes_slack(state.sizes, after.state.sizes);
        backpatching_grows(after.state);
        growing_goes_on(state.sizes, after.state.sizes, backpatched(after.state).state.sizes);
    }
}

/// The state in which the program is laid out: every push has the room that it needs, also for the
/// values of labels in a GIF file, where the program goes into one.
pub open spec fn laid_out(state: State) -> Outcome
    decreases slack(state.sizes),
{
    let plain = backpatched(state);
    let (pushes, output) = emitted(plain.state, plain.state.ready.len());
    match (plain.failure, output, state.offset) {
        (None, Ok(bytes), Some(offset)) => {
            let in_gif = moved_to_gif(plain.state, bytes, offset);
            let sizes = sizes_widened(in_gif.state, pushes, pushes.len());
            if in_gif.failure is Some || sizes == in_gif.state.sizes {
                plain
            } else {
                let after = resized(in_gif.state, sizes);
                if after.failure is Some {
                    after
                } else {
                    proof {
                        backpatching_grows(state);
                        widening_for_gif_grows(in_gif.state, pushes, pushes.len());
                        growing_takes_slack(plain.state.sizes, sizes);
                        growing_takes_slack(state.sizes, plain.state.sizes);
                    }
                    laid_out(after.state)
                }
            }
        },
        _ => plain,
    }
}

/// The program `bytes` as it stands in a GIF file, at `offset`.
pub open spec fn chunkified(
    state: State,
    bytes: Seq<u8>,
    pushes: Seq<PushRefModel>,
    offset: u64,
) -> Emission {
    let in_gif = moved_to_gif(state, bytes, offset);
    Emission {
        state: in_gif.state,
        result: match in_gif.failure {
            Some(failure) => Err(failure),
            None => patched(
                in_gif.state,
                evmgif::packed(bytes),
                pushes,
                pushes.len(),
                evmgif::map_of(bytes),
            ),
        },
    }
}

/// The output for what was accepted.
pub open spec fn finished(state: State) -> Emission {
    if state.undeclared.len() > 0 {
        Emission {
            state,
            result: Err(
                FailureModel::Error(ErrorModel::UndeclaredLabels { labels: state.undeclared }),
            ),
        }
    } else {
        let layout = laid_out(state);
        match layout.failure {
            Some(failure) => Emission { state: layout.state, result: Err(failure) },
            None => {
                let (pushes, result) = emitted(layout.state, layout.state.ready.len());
                match (result, layout.state.offset) {
                    (Ok(bytes), Some(offset)) => chunkified(layout.state, bytes, pushes, offset),
                    _ => Emission { state: layout.state, result },
                }
            },
        }
    }
}

/// The state after `op`.
pub open spec fn raw_pushed(state: State, used: nat, op: RawModel, draws: Seq<u64>) -> Step
    decreases op, 0nat,
{
    match op {
        RawModel::Op(op) => op_pushed(state, used, op, draws, NESTING_LIMIT as nat),
        RawModel::Raw(bytes) => {
            let after = accepted(state, ItemModel::Raw(bytes), bytes.len());
            Step { state: after.state, used, failure: after.failure }
        },
        RawModel::Scope(ops) => {
            let inner = assembled(new_state(None), used, ops, draws);
            match inner.result {
                Err(failure) => Step { state, used: inner.used, failure: Some(failure) },
                Ok(bytes) => {
                    let after = accepted(state, ItemModel::Raw(bytes), bytes.len());
                    Step { state: after.state, used: inner.used, failure: after.failure }
                },
            }
        },
    }
}

/// The state after the first `count` of `ops`.
pub open spec fn raws_pushed(
    state: State,
    used: nat,
    ops: Seq<RawModel>,
    count: nat,
    draws: Seq<u64>,
) -> Step
    decreases ops, count,
{
    if count == 0 || count > ops.len() {
        Step { state, used, failure: None }
    } else {
        let before = raws_pushed(state, used, ops, (count - 1) as nat, draws);
        if before.failure is Some {
            before
        } else {
            raw_pushed(before.state, before.used, ops[count - 1], draws)
        }
    }
}

/// What assembling `ops` leads to from `state`, where the names of local labels are made from the
/// numbers in `draws` from index `used` on.
pub open spec fn assembled(
    state: State,
    used: nat,
    ops: Seq<RawModel>,
    draws: Seq<u64>,
) -> Assembly
    decreases ops, ops.len() + 1,
{
    let declared = macros_declared(state, ops, ops.len());
    match declared.failure {
        Some(failure) => Assembly { state: declared.state, used, result: Err(failure) },
        None => {
            let pushed = raws_pushed(declared.state, used, ops, ops.len(), draws);
            match pushed.failure {
                Some(failure) => Assembly {
                    state: pushed.state,
                    used: pushed.used,
                    result: Err(failure),
                },
                None => {
                    let emission = finished(pushed.state);
                    Assembly {
                        state: if emission.result is Ok {
                            State {
                                ready: Seq::empty(),
                                sizes: Seq::empty(),
                                origin: emission.state.concrete_len,
                                marks: Seq::empty(),
                                pushes: Seq::empty(),
                                ..emission.state
                            }
                        } else {
                            emission.state
                        },
                        used: pushed.used,
                        result: emission.result,
                    }
                },
            }
        },
    }
}

} // verus!
