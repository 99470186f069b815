//! What accepting the items of a program keeps.

use vstd::prelude::*;

use crate::context;
use crate::context::NESTING_LIMIT;
use crate::error::{ErrorModel, FailureModel};
use crate::expression::Term;
use crate::labels;
use crate::laws;
use crate::macros;
use crate::ops::{MacroModel, OpModel, RawModel};
use crate::state;
use crate::state::{ItemModel, State};

verus! {

/// `later` is `state` after some more items were accepted and labels declared.
pub open spec fn continues(state: State, later: State) -> bool {
    &&& later.origin == state.origin
    &&& later.macros == state.macros
    &&& later.offset == state.offset
    &&& state.ready.is_prefix_of(later.ready)
    &&& state.sizes.is_prefix_of(later.sizes)
    &&& state.labels.is_prefix_of(later.labels)
    &&& state.marks.is_prefix_of(later.marks)
    &&& state.pushes.is_prefix_of(later.pushes)
}

/// What continues can be continued.
pub proof fn continues_on(first: State, second: State, third: State)
    requires
        continues(first, second),
        continues(second, third),
    ensures
        continues(first, third),
{
}

/// An instruction, a label, a directive or the use of a macro is put behind what was accepted
/// before; it never takes anything back, not even where it is refused.
pub proof fn op_continues(state: State, used: nat, op: OpModel, draws: Seq<u64>, depth: nat)
    ensures
        continues(state, state::op_pushed(state, used, op, draws, depth).state),
    decreases depth, 1nat,
{
    match op {
        OpModel::Macro(name, arguments) => {
            macro_continues(state, used, name, arguments, draws, depth);
        },
        _ => {},
    }
}

/// A macro is expanded behind what was accepted before.
pub proof fn macro_continues(
    state: State,
    used: nat,
    name: Seq<char>,
    arguments: Seq<Term>,
    draws: Seq<u64>,
    depth: nat,
)
    ensures
        continues(state, state::macro_expanded(state, used, name, arguments, draws, depth).state),
    decreases depth, 0nat,
{
    match context::find_macro(state.macros, name) {
        Some(MacroModel::Instruction { parameters, contents, .. }) => {
            let fresh = macros::fresh_upto(name, contents, contents.len(), used, draws);
            match macros::instantiated_upto(
                fresh.contents,
                fresh.contents.len(),
                fresh.table,
                parameters,
                arguments,
                state.macros,
            ) {
                Ok(ops) => {
                    if depth > 0 {
                        ops_continue(
                            state,
                            fresh.used,
                            ops,
                            ops.len(),
                            draws,
                            (depth - 1) as nat,
                        );
                    }
                },
                Err(_) => {},
            }
        },
        _ => {},
    }
}

proof fn ops_continue(
    state: State,
    used: nat,
    ops: Seq<OpModel>,
    count: nat,
    draws: Seq<u64>,
    depth: nat,
)
    ensures
        continues(state, state::ops_pushed(state, used, ops, count, draws, depth).state),
    decreases depth, count + 1,
{
    if count > 0 {
        let before = state::ops_pushed(state, used, ops, (count - 1) as nat, draws, depth);
        ops_continue(state, used, ops, (count - 1) as nat, draws, depth);
        if before.failure is None {
            op_continues(before.state, before.used, ops[count - 1], draws, depth);
            continues_on(
                state,
                before.state,
                state::ops_pushed(state, used, ops, count, draws, depth).state,
            );
        }
    }
}

/// An item is put behind what was accepted before.
pub proof fn raw_continues(state: State, used: nat, op: RawModel, draws: Seq<u64>)
    ensures
        continues(state, state::raw_pushed(state, used, op, draws).state),
{
    match op {
        RawModel::Op(op) => {
            op_continues(state, used, op, draws, NESTING_LIMIT as nat);
        },
        _ => {},
    }
}

/// Items are put behind what was accepted before.
pub proof fn raws_continue(
    state: State,
    used: nat,
    ops: Seq<RawModel>,
    low: nat,
    high: nat,
    draws: Seq<u64>,
)
    requires
        low <= high <= ops.len(),
    ensures
        continues(
            state::raws_pushed(state, used, ops, low, draws).state,
            state::raws_pushed(state, used, ops, high, draws).state,
        ),
        state::raws_pushed(state, used, ops, high, draws).failure is None
            ==> state::raws_pushed(state, used, ops, low, draws).failure is None,
    decreases high,
{
    if low < high {
        let before = state::raws_pushed(state, used, ops, (high - 1) as nat, draws);
        raws_continue(state, used, ops, low, (high - 1) as nat, draws);
        if before.failure is None {
            raw_continues(before.state, before.used, ops[high - 1], draws);
            continues_on(
                state::raws_pushed(state, used, ops, low, draws).state,
                before.state,
                state::raws_pushed(state, used, ops, high, draws).state,
            );
        }
    }
}

/// A scope is closed: all that its program leaves behind are its bytes.
pub proof fn scopes_are_closed(state: State, used: nat, ops: Seq<RawModel>, draws: Seq<u64>)
    requires
        state::raw_pushed(state, used, RawModel::Scope(ops), draws).failure is None,
    ensures
        ({
            let bytes = state::assembled(state::new_state(None), used, ops, draws).result;
            &&& bytes is Ok
            &&& state::raw_pushed(state, used, RawModel::Scope(ops), draws).state == (State {
                ready: state.ready.push(ItemModel::Raw(bytes->Ok_0)),
                sizes: state.sizes.push(bytes->Ok_0.len()),
                concrete_len: state.concrete_len + bytes->Ok_0.len(),
                ..state
            })
        }),
{
}

/// A scope is worth its bytes: it is accepted as they would be, whatever labels and macros the
/// assembler holds, and leaves the same state.
pub proof fn scopes_are_like_bytes(state: State, used: nat, ops: Seq<RawModel>, draws: Seq<u64>)
    requires
        state::assembled(state::new_state(None), used, ops, draws).result is Ok,
    ensures
        ({
            let bytes = state::assembled(state::new_state(None), used, ops, draws).result->Ok_0;
            let scope = state::raw_pushed(state, used, RawModel::Scope(ops), draws);
            let raw = state::raw_pushed(state, used, RawModel::Raw(bytes), draws);
            &&& scope.state == raw.state
            &&& scope.failure == raw.failure
        }),
{
}

/// A program that declares a label twice is refused.
pub proof fn duplicate_labels_are_refused(
    state: State,
    used: nat,
    ops: Seq<RawModel>,
    draws: Seq<u64>,
    first: int,
    second: int,
    label: Seq<char>,
)
    requires
        0 <= first < second < ops.len(),
        ops[first] == RawModel::Op(OpModel::Label(label)),
        ops[second] == RawModel::Op(OpModel::Label(label)),
    ensures
        state::assembled(state, used, ops, draws).result is Err,
{
    let declared = state::macros_declared(state, ops, ops.len());
    if declared.failure is None {
        let pushed = state::raws_pushed(declared.state, used, ops, ops.len(), draws);
        if pushed.failure is None {
            raws_continue(
                declared.state,
                used,
                ops,
                (second + 1) as nat,
                ops.len(),
                draws,
            );
            raws_continue(
                declared.state,
                used,
                ops,
                (first + 1) as nat,
                second as nat,
                draws,
            );
            raws_continue(declared.state, used, ops, second as nat, (second + 1) as nat, draws);
            let before = state::raws_pushed(declared.state, used, ops, first as nat, draws);
            let after = state::raws_pushed(declared.state, used, ops, (first + 1) as nat, draws);
            let then = state::raws_pushed(declared.state, used, ops, second as nat, draws);
            raws_continue(declared.state, used, ops, first as nat, (first + 1) as nat, draws);
            let i = before.state.labels.len() as int;
            assert(after == state::raw_pushed(before.state, before.used, ops[first], draws));
            assert(state::raws_pushed(declared.state, used, ops, (second + 1) as nat, draws)
                == state::raw_pushed(then.state, then.used, ops[second], draws));
            assert(after.state.labels[i].0 == label);
            assert(then.state.labels[i] == after.state.labels[i]);
            laws::label_index_finds(then.state.labels, label);
            assert(labels::label_index(then.state.labels, label) is Some);
            assert(state::raws_pushed(
                declared.state,
                used,
                ops,
                (second + 1) as nat,
                draws,
            ).failure is Some);
        }
    }
}

/// A label that was already declared is refused, and the refusal changes nothing.
pub proof fn declared_labels_are_refused(
    state: State,
    used: nat,
    label: Seq<char>,
    draws: Seq<u64>,
    depth: nat,
)
    requires
        exists|i: int| 0 <= i < state.labels.len() && (#[trigger] state.labels[i]).0 == label,
    ensures
        ({
            let step = state::op_pushed(state, used, OpModel::Label(label), draws, depth);
            &&& step.failure == Some(FailureModel::Error(ErrorModel::DuplicateLabel { label }))
            &&& step.state == state
        }),
{
    laws::label_index_finds(state.labels, label);
}

/// No macro is defined twice.
pub open spec fn distinct_macros(macros: Seq<MacroModel>) -> bool {
    forall|i: int, j: int|
        0 <= i < j < macros.len() ==> (#[trigger] macros[i]).macro_name() != (
        #[trigger] macros[j]).macro_name()
}

/// A macro is found where it stands.
pub proof fn find_macro_finds(macros: Seq<MacroModel>, name: Seq<char>)
    ensures
        match context::find_macro(macros, name) {
            Some(definition) => definition.macro_name() == name && macros.contains(definition),
            None => forall|i: int|
                0 <= i < macros.len() ==> (#[trigger] macros[i]).macro_name() != name,
        },
    decreases macros.len(),
{
    if macros.len() > 0 {
        if macros.last().macro_name() == name {
            assert(macros[macros.len() - 1] == macros.last());
        } else {
            let rest = macros.drop_last();
            find_macro_finds(rest, name);
            match context::find_macro(rest, name) {
                Some(definition) => {
                    let i = choose|i: int| 0 <= i < rest.len() && rest[i] == definition;
                    assert(macros[i] == definition);
                },
                None => {
                    assert forall|i: int| 0 <= i < macros.len() implies (
                    #[trigger] macros[i]).macro_name() != name by {
                        if i < rest.len() {
                            assert(rest[i].macro_name() != name);
                        }
                    }
                },
            }
        }
    }
}

/// The macro that an item defines.
pub open spec fn definition_of(op: RawModel) -> Option<MacroModel> {
    match op {
        RawModel::Op(OpModel::MacroDefinition(definition)) => Some(definition),
        _ => None,
    }
}

proof fn macros_declared_upto(state: State, ops: Seq<RawModel>, count: nat)
    requires
        distinct_macros(state.macros),
        count <= ops.len(),
        state::macros_declared(state, ops, count).failure is None,
    ensures
        ({
            let macros = state::macros_declared(state, ops, count).state.macros;
            &&& distinct_macros(macros)
            &&& state.macros.is_prefix_of(macros)
            &&& forall|k: int|
                0 <= k < count && definition_of(#[trigger] ops[k]) is Some ==> macros.contains(
                    definition_of(ops[k])->0,
                )
        }),
    decreases count,
{
    if count > 0 {
        let before = state::macros_declared(state, ops, (count - 1) as nat);
        macros_declared_upto(state, ops, (count - 1) as nat);
        let earlier = before.state.macros;
        let macros = state::macros_declared(state, ops, count).state.macros;
        match definition_of(ops[count - 1]) {
            Some(definition) => {
                find_macro_finds(earlier, definition.macro_name());
                assert(macros == earlier.push(definition));
                assert(macros[earlier.len() as int] == definition);
            },
            None => {},
        }
        assert forall|k: int|
            0 <= k < count && definition_of(#[trigger] ops[k]) is Some implies macros.contains(
            definition_of(ops[k])->0,
        ) by {
            if k < count - 1 {
                let i = choose|i: int|
                    0 <= i < earlier.len() && earlier[i] == definition_of(ops[k])->0;
                assert(macros[i] == definition_of(ops[k])->0);
            }
        }
    }
}

/// Where no macro is defined twice, each of them is found by its name.
pub proof fn macro_found(macros: Seq<MacroModel>, definition: MacroModel)
    requires
        distinct_macros(macros),
        macros.contains(definition),
    ensures
        context::find_macro(macros, definition.macro_name()) == Some(definition),
{
    let name = definition.macro_name();
    find_macro_finds(macros, name);
    let i = choose|i: int| 0 <= i < macros.len() && macros[i] == definition;
    assert(macros[i].macro_name() == name);
    let found = context::find_macro(macros, name)->0;
    let j = choose|j: int| 0 <= j < macros.len() && macros[j] == found;
    assert(macros[j].macro_name() == name);
    if i < j {
        assert(macros[i].macro_name() != macros[j].macro_name());
    } else if j < i {
        assert(macros[j].macro_name() != macros[i].macro_name());
    }
}

/// A macro can be used anywhere in the scope that defines it, before and behind its definition:
/// when the first item is accepted, all definitions are known.
pub proof fn definitions_are_known(state: State, ops: Seq<RawModel>, k: int)
    requires
        distinct_macros(state.macros),
        state::macros_declared(state, ops, ops.len()).failure is None,
        0 <= k < ops.len(),
        definition_of(ops[k]) is Some,
    ensures
        context::find_macro(
            state::macros_declared(state, ops, ops.len()).state.macros,
            definition_of(ops[k])->0.macro_name(),
        ) == definition_of(ops[k]),
{
    macros_declared_upto(state, ops, ops.len());
    macro_found(
        state::macros_declared(state, ops, ops.len()).state.macros,
        definition_of(ops[k])->0,
    );
}

proof fn macros_declared_before(state: State, ops: Seq<RawModel>, low: nat, high: nat)
    requires
        low <= high,
        state::macros_declared(state, ops, high).failure is None,
    ensures
        state::macros_declared(state, ops, low).failure is None,
    decreases high,
{
    if low < high {
        macros_declared_before(state, ops, low, (high - 1) as nat);
    }
}

/// A program that defines a macro twice is refused.
pub proof fn duplicate_macros_are_refused(
    state: State,
    used: nat,
    ops: Seq<RawModel>,
    draws: Seq<u64>,
    first: int,
    second: int,
)
    requires
        distinct_macros(state.macros),
        0 <= first < second < ops.len(),
        definition_of(ops[first]) is Some,
        definition_of(ops[second]) is Some,
        definition_of(ops[first])->0.macro_name() == definition_of(ops[second])->0.macro_name(),
    ensures
        ({
            let result = state::assembled(state, used, ops, draws).result;
            &&& result is Err
            &&& result->Err_0 is Error
            &&& result->Err_0->Error_0 is DuplicateMacro
        }),
{
    let name = definition_of(ops[first])->0.macro_name();
    if state::macros_declared(state, ops, ops.len()).failure is None {
        macros_declared_before(state, ops, (second + 1) as nat, ops.len());
        macros_declared_before(state, ops, second as nat, ops.len());
        macros_declared_upto(state, ops, second as nat);
        let macros = state::macros_declared(state, ops, second as nat).state.macros;
        assert(macros.contains(definition_of(ops[first])->0));
        macro_found(macros, definition_of(ops[first])->0);
        assert(state::macros_declared(state, ops, (second + 1) as nat).failure is Some);
    } else {
        macros_declared_failure(state, ops, ops.len());
    }
}

proof fn macros_declared_failure(state: State, ops: Seq<RawModel>, count: nat)
    ensures
        match state::macros_declared(state, ops, count).failure {
            Some(failure) => failure is Error && failure->Error_0 is DuplicateMacro,
            None => true,
        },
    decreases count,
{
    if count > 0 {
        macros_declared_failure(state, ops, (count - 1) as nat);
    }
}

} // verus!
