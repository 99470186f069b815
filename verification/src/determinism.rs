//! What the output depends on: the program, and the numbers that are drawn for local labels.

use vstd::prelude::*;

use crate::context;
use crate::context::NESTING_LIMIT;
use crate::expression::Term;
use crate::macros;
use crate::ops::{MacroModel, OpModel, RawModel};
use crate::progress;
use crate::state;
use crate::state::State;

verus! {

proof fn fresh_draws(
    name: Seq<char>,
    contents: Seq<OpModel>,
    count: nat,
    used: nat,
    draws: Seq<u64>,
)
    ensures
        used <= macros::fresh_upto(name, contents, count, used, draws).used,
    decreases count,
{
    if count > 0 {
        fresh_draws(name, contents, (count - 1) as nat, used, draws);
    }
}

/// Numbers are drawn one after the other.
pub proof fn op_draws(state: State, used: nat, op: OpModel, draws: Seq<u64>, depth: nat)
    ensures
        used <= state::op_pushed(state, used, op, draws, depth).used,
    decreases depth, 1nat,
{
    match op {
        OpModel::Macro(name, arguments) => {
            macro_draws(state, used, name, arguments, draws, depth);
        },
        _ => {},
    }
}

proof fn macro_draws(
    state: State,
    used: nat,
    name: Seq<char>,
    arguments: Seq<Term>,
    draws: Seq<u64>,
    depth: nat,
)
    ensures
        used <= state::macro_expanded(state, used, name, arguments, draws, depth).used,
    decreases depth, 0nat,
{
    match context::find_macro(state.macros, name) {
        Some(MacroModel::Instruction { parameters, contents, .. }) => {
            let fresh = macros::fresh_upto(name, contents, contents.len(), used, draws);
            fresh_draws(name, contents, contents.len(), used, draws);
            match macros::instantiated_upto(
                fresh.contents,
                fresh.contents.len(),
                fresh.table,
                parameters,
                arguments,
                state.macros,
            ) {
                Ok(ops) => {
                    if depth > 0 {
                        ops_draw(state, fresh.used, ops, ops.len(), draws, (depth - 1) as nat);
                    }
                },
                Err(_) => {},
            }
        },
        _ => {},
    }
}

/// Numbers are drawn one after the other.
pub proof fn ops_draw(
    state: State,
    used: nat,
    ops: Seq<OpModel>,
    count: nat,
    draws: Seq<u64>,
    depth: nat,
)
    ensures
        used <= state::ops_pushed(state, used, ops, count, draws, depth).used,
    decreases depth, count + 1,
{
    if count > 0 {
        let before = state::ops_pushed(state, used, ops, (count - 1) as nat, draws, depth);
        ops_draw(state, used, ops, (count - 1) as nat, draws, depth);
        if before.failure is None {
            op_draws(before.state, before.used, ops[count - 1], draws, depth);
        }
    }
}

/// Numbers are drawn one after the other.
pub proof fn raw_draws(state: State, used: nat, op: RawModel, draws: Seq<u64>)
    ensures
        used <= state::raw_pushed(state, used, op, draws).used,
    decreases op, 0nat,
{
    match op {
        RawModel::Op(op) => {
            op_draws(state, used, op, draws, NESTING_LIMIT as nat);
        },
        RawModel::Scope(ops) => {
            program_draws(state::new_state(None), used, ops, draws);
        },
        RawModel::Raw(_) => {},
    }
}

/// Numbers are drawn one after the other.
pub proof fn raws_draw(
    state: State,
    used: nat,
    ops: Seq<RawModel>,
    count: nat,
    draws: Seq<u64>,
)
    ensures
        used <= state::raws_pushed(state, used, ops, count, draws).used,
    decreases ops, count,
{
    if 0 < count <= ops.len() {
        let before = state::raws_pushed(state, used, ops, (count - 1) as nat, draws);
        raws_draw(state, used, ops, (count - 1) as nat, draws);
        if before.failure is None {
            raw_draws(before.state, before.used, ops[count - 1], draws);
        }
    }
}

/// Numbers are drawn, never given back.
pub proof fn program_draws(state: State, used: nat, ops: Seq<RawModel>, draws: Seq<u64>)
    ensures
        used <= state::assembled(state, used, ops, draws).used,
    decreases ops, ops.len() + 1,
{
    let declared = state::macros_declared(state, ops, ops.len());
    raws_draw(declared.state, used, ops, ops.len(), draws);
}

/// The first `count` numbers are the same.
pub open spec fn draws_agree(draws: Seq<u64>, others: Seq<u64>, count: nat) -> bool {
    forall|i: int| 0 <= i < count ==> #[trigger] draws[i] == others[i]
}

proof fn fresh_depends(
    name: Seq<char>,
    contents: Seq<OpModel>,
    count: nat,
    used: nat,
    draws: Seq<u64>,
    others: Seq<u64>,
)
    requires
        draws_agree(
            draws,
            others,
            macros::fresh_upto(name, contents, count, used, draws).used,
        ),
    ensures
        macros::fresh_upto(name, contents, count, used, others) == macros::fresh_upto(
            name,
            contents,
            count,
            used,
            draws,
        ),
    decreases count,
{
    if count > 0 {
        fresh_depends(name, contents, (count - 1) as nat, used, draws, others);
        let before = macros::fresh_upto(name, contents, (count - 1) as nat, used, draws);
        let after = macros::fresh_upto(name, contents, count, used, draws);
        if before.used < after.used {
            assert(draws[before.used as int] == others[before.used as int]);
        }
    }
}

proof fn op_depends(
    state: State,
    used: nat,
    op: OpModel,
    draws: Seq<u64>,
    others: Seq<u64>,
    depth: nat,
)
    requires
        draws_agree(draws, others, state::op_pushed(state, used, op, draws, depth).used),
    ensures
        state::op_pushed(state, used, op, others, depth) == state::op_pushed(
            state,
            used,
            op,
            draws,
            depth,
        ),
    decreases depth, 1nat,
{
    match op {
        OpModel::Macro(name, arguments) => {
            macro_depends(state, used, name, arguments, draws, others, depth);
        },
        _ => {},
    }
}

proof fn macro_depends(
    state: State,
    used: nat,
    name: Seq<char>,
    arguments: Seq<Term>,
    draws: Seq<u64>,
    others: Seq<u64>,
    depth: nat,
)
    requires
        draws_agree(
            draws,
            others,
            state::macro_expanded(state, used, name, arguments, draws, depth).used,
        ),
    ensures
        state::macro_expanded(state, used, name, arguments, others, depth)
            == state::macro_expanded(state, used, name, arguments, draws, depth),
    decreases depth, 0nat,
{
    match context::find_macro(state.macros, name) {
        Some(MacroModel::Instruction { parameters, contents, .. }) => {
            if parameters.len() == arguments.len() {
                let fresh = macros::fresh_upto(name, contents, contents.len(), used, draws);
                let instantiated = macros::instantiated_upto(
                    fresh.contents,
                    fresh.contents.len(),
                    fresh.table,
                    parameters,
                    arguments,
                    state.macros,
                );
                if fresh.duplicate is None && instantiated is Ok && depth > 0 {
                    let ops = instantiated->Ok_0;
                    ops_draw(state, fresh.used, ops, ops.len(), draws, (depth - 1) as nat);
                    ops_depend(
                        state,
                        fresh.used,
                        ops,
                        ops.len(),
                        draws,
                        others,
                        (depth - 1) as nat,
                    );
                }
                fresh_depends(name, contents, contents.len(), used, draws, others);
            }
        },
        _ => {},
    }
}

proof fn ops_depend(
    state: State,
    used: nat,
    ops: Seq<OpModel>,
    count: nat,
    draws: Seq<u64>,
    others: Seq<u64>,
    depth: nat,
)
    requires
        draws_agree(
            draws,
            others,
            state::ops_pushed(state, used, ops, count, draws, depth).used,
        ),
    ensures
        state::ops_pushed(state, used, ops, count, others, depth) == state::ops_pushed(
            state,
            used,
            ops,
            count,
            draws,
            depth,
        ),
    decreases depth, count + 1,
{
    if count > 0 {
        let before = state::ops_pushed(state, used, ops, (count - 1) as nat, draws, depth);
        if before.failure is None {
            op_draws(before.state, before.used, ops[count - 1], draws, depth);
        }
        ops_depend(state, used, ops, (count - 1) as nat, draws, others, depth);
        if before.failure is None {
            op_depends(before.state, before.used, ops[count - 1], draws, others, depth);
        }
    }
}

proof fn raw_depends(
    state: State,
    used: nat,
    op: RawModel,
    draws: Seq<u64>,
    others: Seq<u64>,
)
    requires
        draws_agree(draws, others, state::raw_pushed(state, used, op, draws).used),
    ensures
        state::raw_pushed(state, used, op, others) == state::raw_pushed(state, used, op, draws),
    decreases op, 0nat,
{
    match op {
        RawModel::Op(op) => {
            op_depends(state, used, op, draws, others, NESTING_LIMIT as nat);
        },
        RawModel::Scope(ops) => {
            output_depends_on_draws(state::new_state(None), used, ops, draws, others);
        },
        RawModel::Raw(_) => {},
    }
}

proof fn raws_depend(
    state: State,
    used: nat,
    ops: Seq<RawModel>,
    count: nat,
    draws: Seq<u64>,
    others: Seq<u64>,
)
    requires
        draws_agree(draws, others, state::raws_pushed(state, used, ops, count, draws).used),
    ensures
        state::raws_pushed(state, used, ops, count, others) == state::raws_pushed(
            state,
            used,
            ops,
            count,
            draws,
        ),
    decreases ops, count,
{
    if 0 < count <= ops.len() {
        let before = state::raws_pushed(state, used, ops, (count - 1) as nat, draws);
        if before.failure is None {
            raw_draws(before.state, before.used, ops[count - 1], draws);
        }
        raws_depend(state, used, ops, (count - 1) as nat, draws, others);
        if before.failure is None {
            raw_depends(before.state, before.used, ops[count - 1], draws, others);
        }
    }
}

/// The output depends on the program and on the numbers that were drawn, and on nothing else.
pub proof fn output_depends_on_draws(
    state: State,
    used: nat,
    ops: Seq<RawModel>,
    draws: Seq<u64>,
    others: Seq<u64>,
)
    requires
        draws_agree(draws, others, state::assembled(state, used, ops, draws).used),
    ensures
        state::assembled(state, used, ops, others) == state::assembled(state, used, ops, draws),
    decreases ops, ops.len() + 1,
{
    let declared = state::macros_declared(state, ops, ops.len());
    if declared.failure is None {
        raws_depend(declared.state, used, ops, ops.len(), draws, others);
    }
}

/// No instruction macro among `macros` declares a label.
pub open spec fn without_local_labels(macros: Seq<MacroModel>) -> bool {
    forall|i: int|
        0 <= i < macros.len() ==> match #[trigger] macros[i] {
            MacroModel::Instruction { contents, .. } => declares_no_label(contents),
            MacroModel::Expression { .. } => true,
        }
}

/// None of `ops` declares a label.
pub open spec fn declares_no_label(ops: Seq<OpModel>) -> bool {
    forall|i: int| 0 <= i < ops.len() ==> !(#[trigger] ops[i] is Label)
}

/// No instruction macro that `op` defines, itself or in a scope, declares a label.
pub open spec fn item_without_local_labels(op: RawModel) -> bool
    decreases op,
{
    match op {
        RawModel::Op(OpModel::MacroDefinition(MacroModel::Instruction { contents, .. })) =>
            declares_no_label(contents),
        RawModel::Scope(ops) => program_without_local_labels(ops),
        _ => true,
    }
}

/// No instruction macro of the program declares a label.
pub open spec fn program_without_local_labels(ops: Seq<RawModel>) -> bool
    decreases ops,
{
    forall|k: int| 0 <= k < ops.len() ==> item_without_local_labels(#[trigger] ops[k])
}

proof fn fresh_draws_nothing(
    name: Seq<char>,
    contents: Seq<OpModel>,
    count: nat,
    used: nat,
    draws: Seq<u64>,
)
    requires
        declares_no_label(contents),
        count <= contents.len(),
    ensures
        macros::fresh_upto(name, contents, count, used, draws).used == used,
    decreases count,
{
    if count > 0 {
        fresh_draws_nothing(name, contents, (count - 1) as nat, used, draws);
        assert(!(contents[count - 1] is Label));
    }
}

proof fn op_draws_nothing(state: State, used: nat, op: OpModel, draws: Seq<u64>, depth: nat)
    requires
        without_local_labels(state.macros),
    ensures
        state::op_pushed(state, used, op, draws, depth).used == used,
    decreases depth, 1nat,
{
    match op {
        OpModel::Macro(name, arguments) => {
            macro_draws_nothing(state, used, name, arguments, draws, depth);
        },
        _ => {},
    }
}

proof fn macro_draws_nothing(
    state: State,
    used: nat,
    name: Seq<char>,
    arguments: Seq<Term>,
    draws: Seq<u64>,
    depth: nat,
)
    requires
        without_local_labels(state.macros),
    ensures
        state::macro_expanded(state, used, name, arguments, draws, depth).used == used,
    decreases depth, 0nat,
{
    progress::find_macro_finds(state.macros, name);
    match context::find_macro(state.macros, name) {
        Some(MacroModel::Instruction { parameters, contents, .. }) => {
            let definition = context::find_macro(state.macros, name)->0;
            let i = choose|i: int| 0 <= i < state.macros.len() && state.macros[i] == definition;
            assert(match state.macros[i] {
                MacroModel::Instruction { contents, .. } => declares_no_label(contents),
                MacroModel::Expression { .. } => true,
            });
            let fresh = macros::fresh_upto(name, contents, contents.len(), used, draws);
            fresh_draws_nothing(name, contents, contents.len(), used, draws);
            match macros::instantiated_upto(
                fresh.contents,
                fresh.contents.len(),
                fresh.table,
                parameters,
                arguments,
                state.macros,
            ) {
                Ok(ops) => {
                    if depth > 0 {
                        ops_draw_nothing(
                            state,
                            fresh.used,
                            ops,
                            ops.len(),
                            draws,
                            (depth - 1) as nat,
                        );
                    }
                },
                Err(_) => {},
            }
        },
        _ => {},
    }
}

proof fn ops_draw_nothing(
    state: State,
    used: nat,
    ops: Seq<OpModel>,
    count: nat,
    draws: Seq<u64>,
    depth: nat,
)
    requires
        without_local_labels(state.macros),
    ensures
        state::ops_pushed(state, used, ops, count, draws, depth).used == used,
        state::ops_pushed(state, used, ops, count, draws, depth).state.macros == state.macros,
    decreases depth, count + 1,
{
    if count > 0 {
        let before = state::ops_pushed(state, used, ops, (count - 1) as nat, draws, depth);
        ops_draw_nothing(state, used, ops, (count - 1) as nat, draws, depth);
        if before.failure is None {
            op_draws_nothing(before.state, before.used, ops[count - 1], draws, depth);
            progress::op_continues(before.state, before.used, ops[count - 1], draws, depth);
        }
    }
}

proof fn raw_draws_nothing(state: State, used: nat, op: RawModel, draws: Seq<u64>)
    requires
        without_local_labels(state.macros),
        item_without_local_labels(op),
    ensures
        state::raw_pushed(state, used, op, draws).used == used,
    decreases op, 0nat,
{
    match op {
        RawModel::Op(op) => {
            op_draws_nothing(state, used, op, draws, NESTING_LIMIT as nat);
        },
        RawModel::Scope(ops) => {
            program_draws_nothing(state::new_state(None), used, ops, draws);
        },
        RawModel::Raw(_) => {},
    }
}

proof fn raws_draw_nothing(
    state: State,
    used: nat,
    ops: Seq<RawModel>,
    count: nat,
    draws: Seq<u64>,
)
    requires
        without_local_labels(state.macros),
        program_without_local_labels(ops),
        count <= ops.len(),
    ensures
        state::raws_pushed(state, used, ops, count, draws).used == used,
    decreases ops, count,
{
    if 0 < count {
        let before = state::raws_pushed(state, used, ops, (count - 1) as nat, draws);
        raws_draw_nothing(state, used, ops, (count - 1) as nat, draws);
        progress::raws_continue(state, used, ops, 0, (count - 1) as nat, draws);
        if before.failure is None {
            assert(item_without_local_labels(ops[count - 1]));
            raw_draws_nothing(before.state, before.used, ops[count - 1], draws);
        }
    }
}

proof fn definitions_stay_without_local_labels(state: State, ops: Seq<RawModel>, count: nat)
    requires
        without_local_labels(state.macros),
        program_without_local_labels(ops),
        count <= ops.len(),
    ensures
        without_local_labels(state::macros_declared(state, ops, count).state.macros),
    decreases count,
{
    if count > 0 {
        definitions_stay_without_local_labels(state, ops, (count - 1) as nat);
        assert(item_without_local_labels(ops[count - 1]));
    }
}

/// Numbers are drawn for the local labels of instruction macros only.
pub proof fn program_draws_nothing(
    state: State,
    used: nat,
    ops: Seq<RawModel>,
    draws: Seq<u64>,
)
    requires
        without_local_labels(state.macros),
        program_without_local_labels(ops),
    ensures
        state::assembled(state, used, ops, draws).used == used,
    decreases ops, ops.len() + 1,
{
    let declared = state::macros_declared(state, ops, ops.len());
    definitions_stay_without_local_labels(state, ops, ops.len());
    raws_draw_nothing(declared.state, used, ops, ops.len(), draws);
}

/// A program whose instruction macros declare no label is always assembled alike.
pub proof fn output_is_determined(
    state: State,
    ops: Seq<RawModel>,
    draws: Seq<u64>,
    others: Seq<u64>,
)
    requires
        without_local_labels(state.macros),
        program_without_local_labels(ops),
    ensures
        state::assembled(state, 0, ops, draws) == state::assembled(state, 0, ops, others),
{
    program_draws_nothing(state, 0, ops, draws);
    output_depends_on_draws(state, 0, ops, draws, others);
}

} // verus!
