//! Programs that are assembled alike: what neither other numbers for local labels nor other places
//! for the definitions of macros change.

use vstd::prelude::*;

use crate::context;
use crate::context::NESTING_LIMIT;
use crate::determinism;
use crate::encode;
use crate::error::FailureModel;
use crate::evmgif;
use crate::expression::Term;
use crate::labels::LabelDef;
use crate::macros;
use crate::opcode;
use crate::ops::{MacroModel, OpModel, RawModel};
use crate::packing;
use crate::placement;
use crate::progress;
use crate::renaming;
use crate::renaming::Renaming;
use crate::state;
use crate::state::{Emission, ItemModel, Outcome, PushRefModel, State, Step};

verus! {

/// `item` with new names.
pub open spec fn new_item(r: Renaming, item: ItemModel) -> ItemModel {
    match item {
        ItemModel::Instruction(op) => ItemModel::Instruction(renaming::new_op(r, op)),
        _ => item,
    }
}

/// `items` with new names.
pub open spec fn new_items(r: Renaming, items: Seq<ItemModel>) -> Seq<ItemModel> {
    Seq::new(items.len(), |i: int| new_item(r, items[i]))
}

/// Whether the names in `item` fit.
pub open spec fn item_fits(r: Renaming, item: ItemModel) -> bool {
    match item {
        ItemModel::Instruction(op) => renaming::op_fits(r, op),
        _ => true,
    }
}

/// `pushes` with new names.
pub open spec fn new_pushes(r: Renaming, pushes: Seq<(OpModel, nat)>) -> Seq<(OpModel, nat)> {
    Seq::new(pushes.len(), |i: int| (renaming::new_op(r, pushes[i].0), pushes[i].1))
}

/// Whether `other` is `state` with new names for local labels, and with the same macros.
pub open spec fn alike(r: Renaming, state: State, other: State) -> bool {
    &&& other.ready == new_items(r, state.ready)
    &&& other.sizes == state.sizes
    &&& other.origin == state.origin
    &&& other.concrete_len == state.concrete_len
    &&& other.labels == renaming::new_entries(r, state.labels)
    &&& other.marks == state.marks
    &&& renaming::same_macros(state.macros, other.macros)
    &&& other.undeclared == renaming::new_texts(r, state.undeclared)
    &&& other.pushes == new_pushes(r, state.pushes)
    &&& forall|i: int| 0 <= i < state.ready.len() ==> item_fits(r, #[trigger] state.ready[i])
    &&& renaming::entries_fit(r, state.labels)
    &&& renaming::macros_plain(r, state.macros)
    &&& renaming::texts_fit(r, state.undeclared)
    &&& forall|i: int|
        0 <= i < state.pushes.len() ==> renaming::op_fits(r, (#[trigger] state.pushes[i]).0)
}

/// Both went wrong, or neither, and then they are alike.
pub open spec fn same_outcome(r: Renaming, outcome: Outcome, other: Outcome) -> bool {
    &&& outcome.failure is Some <==> other.failure is Some
    &&& outcome.failure is None ==> alike(r, outcome.state, other.state)
}

/// Both went wrong, or neither, and then they are alike; the same count of numbers was drawn.
pub open spec fn same_step(r: Renaming, step: Step, other: Step) -> bool {
    &&& other.used == step.used
    &&& step.failure is Some <==> other.failure is Some
    &&& step.failure is None ==> alike(r, step.state, other.state)
}

/// Both went wrong, or neither, and then the same bytes came out.
pub open spec fn same_emission(r: Renaming, emission: Emission, other: Emission) -> bool {
    &&& emission.result is Ok <==> other.result is Ok
    &&& emission.result is Ok ==> other.result == emission.result && alike(
        r,
        emission.state,
        other.state,
    )
}

proof fn accepted_alike(r: Renaming, state: State, other: State, item: ItemModel, size: nat)
    requires
        alike(r, state, other),
        item_fits(r, item),
    ensures
        same_outcome(
            r,
            state::accepted(state, item, size),
            state::accepted(other, new_item(r, item), size),
        ),
{
    let after = state::accepted(state, item, size).state;
    let other_after = state::accepted(other, new_item(r, item), size).state;
    assert(state.ready.push(item).len() == state.ready.len() + 1);
    assert(new_items(r, state.ready.push(item)) =~= new_items(r, state.ready).push(
        new_item(r, item),
    ));
    assert(other_after.pushes =~= new_pushes(r, after.pushes));
}

/// A name is among others if and only if its new name is among theirs.
proof fn contained_alike(r: Renaming, texts: Seq<Seq<char>>, text: Seq<char>)
    requires
        renaming::is_renaming(r),
        renaming::texts_fit(r, texts),
        renaming::fits(r, text),
    ensures
        renaming::new_texts(r, texts).contains(renaming::new_text(r, text)) <==> texts.contains(
            text,
        ),
{
    let others = renaming::new_texts(r, texts);
    if texts.contains(text) {
        let i = choose|i: int| 0 <= i < texts.len() && texts[i] == text;
        assert(others[i] == renaming::new_text(r, text));
    }
    if others.contains(renaming::new_text(r, text)) {
        let i = choose|i: int|
            0 <= i < others.len() && others[i] == renaming::new_text(r, text);
        assert(renaming::fits(r, texts[i]));
        renaming::names_stay_different(r, texts[i], text);
    }
}

proof fn without_label_alike(r: Renaming, undeclared: Seq<Seq<char>>, label: Seq<char>)
    requires
        renaming::is_renaming(r),
        renaming::texts_fit(r, undeclared),
        renaming::fits(r, label),
    ensures
        renaming::texts_fit(r, state::without_label(undeclared, label)),
        state::without_label(
            renaming::new_texts(r, undeclared),
            renaming::new_text(r, label),
        ) == renaming::new_texts(r, state::without_label(undeclared, label)),
    decreases undeclared.len(),
{
    reveal(Seq::filter);
    let others = renaming::new_texts(r, undeclared);
    let rest = state::without_label(undeclared, label);
    if undeclared.len() > 0 {
        let before = undeclared.drop_last();
        let last = undeclared.last();
        assert(others.drop_last() =~= renaming::new_texts(r, before));
        assert(renaming::fits(r, undeclared[undeclared.len() - 1]));
        assert(renaming::texts_fit(r, before)) by {
            assert forall|i: int| 0 <= i < before.len() implies renaming::fits(
                r,
                #[trigger] before[i],
            ) by {
                assert(renaming::fits(r, undeclared[i]));
            }
        }
        without_label_alike(r, before, label);
        let rest_before = state::without_label(before, label);
        if last != label {
            if renaming::new_text(r, last) == renaming::new_text(r, label) {
                renaming::names_stay_different(r, last, label);
            }
            assert(rest == rest_before.push(last));
            assert(renaming::new_texts(r, rest) =~= renaming::new_texts(r, rest_before).push(
                renaming::new_text(r, last),
            ));
        } else {
            assert(rest == rest_before);
        }
    } else {
        assert(rest =~= undeclared);
        assert(others =~= undeclared);
        assert(state::without_label(others, renaming::new_text(r, label)) =~= others);
        assert(renaming::new_texts(r, rest) =~= rest);
    }
}

proof fn with_undeclared_alike(
    r: Renaming,
    undeclared: Seq<Seq<char>>,
    used_labels: Seq<Seq<char>>,
    count: nat,
    entries: Seq<(Seq<char>, Option<LabelDef>)>,
)
    requires
        renaming::is_renaming(r),
        count <= used_labels.len(),
        renaming::texts_fit(r, undeclared),
        renaming::texts_fit(r, used_labels),
        renaming::entries_fit(r, entries),
    ensures
        renaming::texts_fit(r, state::with_undeclared(undeclared, used_labels, count, entries)),
        state::with_undeclared(
            renaming::new_texts(r, undeclared),
            renaming::new_texts(r, used_labels),
            count,
            renaming::new_entries(r, entries),
        ) == renaming::new_texts(
            r,
            state::with_undeclared(undeclared, used_labels, count, entries),
        ),
    decreases count,
{
    if count > 0 {
        with_undeclared_alike(r, undeclared, used_labels, (count - 1) as nat, entries);
        let before = state::with_undeclared(
            undeclared,
            used_labels,
            (count - 1) as nat,
            entries,
        );
        let label = used_labels[count - 1];
        assert(renaming::fits(r, label));
        contained_alike(r, before, label);
        renaming::labels_are_found_again(r, entries, label);
        assert(renaming::new_texts(r, before.push(label)) =~= renaming::new_texts(r, before).push(
            renaming::new_text(r, label),
        ));
    }
}

proof fn label_alike(r: Renaming, state: State, other: State, label: Seq<char>)
    requires
        renaming::is_renaming(r),
        alike(r, state, other),
        renaming::fits(r, label),
    ensures
        same_outcome(
            r,
            state::label_declared(state, label),
            state::label_declared(other, renaming::new_text(r, label)),
        ),
{
    renaming::labels_are_found_again(r, state.labels, label);
    without_label_alike(r, state.undeclared, label);
    let after = state::label_declared(state, label).state;
    let other_after = state::label_declared(other, renaming::new_text(r, label)).state;
    assert(other_after.labels =~= renaming::new_entries(r, after.labels));
}

proof fn org_alike(r: Renaming, state: State, other: State, offset: nat)
    requires
        alike(r, state, other),
    ensures
        same_outcome(
            r,
            state::org_accepted(state, offset),
            state::org_accepted(other, offset),
        ),
{
    let item = ItemModel::Org(offset);
    assert(new_items(r, state.ready.push(item)) =~= new_items(r, state.ready).push(item));
}

proof fn instruction_alike(r: Renaming, state: State, other: State, op: OpModel)
    requires
        renaming::is_renaming(r),
        alike(r, state, other),
        renaming::op_fits(r, op),
    ensures
        same_outcome(
            r,
            state::instruction_accepted(state, op),
            state::instruction_accepted(other, renaming::new_op(r, op)),
        ),
{
    let item = ItemModel::Instruction(op);
    renaming::encodings_are_not_renamed(r, op, 0, state.labels, state.macros, other.macros);
    match encode::encoding(op, state.labels, state.macros) {
        Ok(bytes) => {
            accepted_alike(r, state, other, item, bytes.len());
        },
        Err(_) => {
            let term = encode::expression_in(op)->0;
            renaming::references_are_renamed(
                r,
                term,
                state.macros,
                other.macros,
                NESTING_LIMIT as nat,
            );
            match context::labels_in(term, state.macros, NESTING_LIMIT as nat) {
                Ok(used_labels) => {
                    let size = match op {
                        OpModel::Op { code, .. } => opcode::instruction_size(code),
                        _ => 2,
                    };
                    accepted_alike(r, state, other, item, size);
                    with_undeclared_alike(
                        r,
                        state.undeclared,
                        used_labels,
                        used_labels.len(),
                        state.labels,
                    );
                },
                Err(_) => {},
            }
        },
    }
}

proof fn op_alike(
    r: Renaming,
    state: State,
    other: State,
    used: nat,
    op: OpModel,
    draws: Seq<u64>,
    others: Seq<u64>,
    depth: nat,
    limit: nat,
)
    requires
        renaming::is_renaming(r),
        alike(r, state, other),
        renaming::op_fits(r, op),
        renaming::drawn_for(r, draws, others, limit),
        state::op_pushed(state, used, op, draws, depth).used <= limit,
    ensures
        same_step(
            r,
            state::op_pushed(state, used, op, draws, depth),
            state::op_pushed(other, used, renaming::new_op(r, op), others, depth),
        ),
    decreases depth, 1nat,
{
    match op {
        OpModel::Label(label) => {
            label_alike(r, state, other, label);
        },
        OpModel::MacroDefinition(_) => {},
        OpModel::Macro(name, arguments) => {
            macro_alike(r, state, other, used, name, arguments, draws, others, depth, limit);
        },
        OpModel::Org(offset) => {
            org_alike(r, state, other, offset);
        },
        _ => {
            instruction_alike(r, state, other, op);
        },
    }
}

proof fn macro_alike(
    r: Renaming,
    state: State,
    other: State,
    used: nat,
    name: Seq<char>,
    arguments: Seq<Term>,
    draws: Seq<u64>,
    others: Seq<u64>,
    depth: nat,
    limit: nat,
)
    requires
        renaming::is_renaming(r),
        alike(r, state, other),
        renaming::terms_plain(r, arguments),
        renaming::drawn_for(r, draws, others, limit),
        state::macro_expanded(state, used, name, arguments, draws, depth).used <= limit,
    ensures
        same_step(
            r,
            state::macro_expanded(state, used, name, arguments, draws, depth),
            state::macro_expanded(other, used, name, arguments, others, depth),
        ),
    decreases depth, 0nat,
{
    assert(context::find_macro(other.macros, name) == context::find_macro(state.macros, name));
    match context::find_macro(state.macros, name) {
        Some(MacroModel::Instruction { parameters, contents, .. }) => {
            if parameters.len() == arguments.len() {
                let fresh = macros::fresh_upto(name, contents, contents.len(), used, draws);
                match macros::instantiated_upto(
                    fresh.contents,
                    fresh.contents.len(),
                    fresh.table,
                    parameters,
                    arguments,
                    state.macros,
                ) {
                    Ok(ops) => {
                        if depth > 0 {
                            determinism::ops_draw(
                                state,
                                fresh.used,
                                ops,
                                ops.len(),
                                draws,
                                (depth - 1) as nat,
                            );
                        }
                    },
                    Err(_) => {},
                }
                assert(fresh.used <= limit);
                renaming::fresh_contents_are_renamed(
                    r,
                    name,
                    contents,
                    contents.len(),
                    used,
                    draws,
                    others,
                    limit,
                );
                if fresh.duplicate is None {
                    renaming::instantiated_is_renamed(
                        r,
                        fresh.contents,
                        fresh.contents.len(),
                        fresh.table,
                        parameters,
                        arguments,
                        state.macros,
                        other.macros,
                    );
                    match macros::instantiated_upto(
                        fresh.contents,
                        fresh.contents.len(),
                        fresh.table,
                        parameters,
                        arguments,
                        state.macros,
                    ) {
                        Ok(ops) => {
                            if depth > 0 {
                                ops_alike(
                                    r,
                                    state,
                                    other,
                                    fresh.used,
                                    ops,
                                    ops.len(),
                                    draws,
                                    others,
                                    (depth - 1) as nat,
                                    limit,
                                );
                            }
                        },
                        Err(_) => {},
                    }
                }
            }
        },
        _ => {},
    }
}

proof fn ops_alike(
    r: Renaming,
    state: State,
    other: State,
    used: nat,
    ops: Seq<OpModel>,
    count: nat,
    draws: Seq<u64>,
    others: Seq<u64>,
    depth: nat,
    limit: nat,
)
    requires
        renaming::is_renaming(r),
        alike(r, state, other),
        count <= ops.len(),
        renaming::ops_fit(r, ops),
        renaming::drawn_for(r, draws, others, limit),
        state::ops_pushed(state, used, ops, count, draws, depth).used <= limit,
    ensures
        same_step(
            r,
            state::ops_pushed(state, used, ops, count, draws, depth),
            state::ops_pushed(other, used, renaming::new_ops(r, ops), count, others, depth),
        ),
    decreases depth, count + 1,
{
    if count > 0 {
        let before = state::ops_pushed(state, used, ops, (count - 1) as nat, draws, depth);
        if before.failure is None {
            determinism::op_draws(before.state, before.used, ops[count - 1], draws, depth);
        }
        ops_alike(
            r,
            state,
            other,
            used,
            ops,
            (count - 1) as nat,
            draws,
            others,
            depth,
            limit,
        );
        let other_before = state::ops_pushed(
            other,
            used,
            renaming::new_ops(r, ops),
            (count - 1) as nat,
            others,
            depth,
        );
        if before.failure is None {
            assert(renaming::op_fits(r, ops[count - 1]));
            op_alike(
                r,
                before.state,
                other_before.state,
                before.used,
                ops[count - 1],
                draws,
                others,
                depth,
                limit,
            );
        }
    }
}

proof fn positions_alike(
    r: Renaming,
    origin: nat,
    ready: Seq<ItemModel>,
    sizes: Seq<nat>,
    count: int,
)
    requires
        count <= ready.len(),
    ensures
        state::position_at(origin, new_items(r, ready), sizes, count) == state::position_at(
            origin,
            ready,
            sizes,
            count,
        ),
    decreases count,
{
    if count > 0 {
        positions_alike(r, origin, ready, sizes, count - 1);
        assert(new_items(r, ready)[count - 1] == new_item(r, ready[count - 1]));
    }
}

proof fn labels_placed_alike(r: Renaming, state: State, other: State, count: nat)
    requires
        alike(r, state, other),
    ensures
        renaming::entries_fit(r, state::labels_placed(state, count)),
        state::labels_placed(other, count) == renaming::new_entries(
            r,
            state::labels_placed(state, count),
        ),
    decreases count,
{
    if count > 0 {
        labels_placed_alike(r, state, other, (count - 1) as nat);
        let before = state::labels_placed(state, (count - 1) as nat);
        let after = state::labels_placed(state, count);
        let (i, mark) = state.marks[count - 1];
        if i < before.len() && mark <= state.ready.len() {
            positions_alike(r, state.origin, state.ready, state.sizes, mark as int);
            assert forall|k: int| 0 <= k < after.len() implies renaming::fits(
                r,
                (#[trigger] after[k]).0,
            ) by {
                assert(renaming::fits(r, before[k].0));
            }
        }
        assert(state::labels_placed(other, count) =~= renaming::new_entries(r, after));
    }
}

proof fn placed_alike(r: Renaming, state: State, other: State)
    requires
        alike(r, state, other),
    ensures
        same_outcome(r, state::placed(state), state::placed(other)),
{
    assert forall|k: int| 0 <= k <= state.ready.len() implies #[trigger] state::position_at(
        other.origin,
        other.ready,
        other.sizes,
        k,
    ) == state::position_at(state.origin, state.ready, state.sizes, k) by {
        positions_alike(r, state.origin, state.ready, state.sizes, k);
    }
    if state::positions_fit(state.origin, state.ready, state.sizes) {
        assert forall|k: int| 0 <= k <= other.ready.len() implies #[trigger] state::position_at(
            other.origin,
            other.ready,
            other.sizes,
            k,
        ) <= usize::MAX by {
            assert(state::position_at(state.origin, state.ready, state.sizes, k) <= usize::MAX);
        }
        positions_alike(
            r,
            state.origin,
            state.ready,
            state.sizes,
            state.ready.len() as int,
        );
    }
    if state::positions_fit(other.origin, other.ready, other.sizes) {
        assert forall|k: int| 0 <= k <= state.ready.len() implies #[trigger] state::position_at(
            state.origin,
            state.ready,
            state.sizes,
            k,
        ) <= usize::MAX by {
            assert(state::position_at(other.origin, other.ready, other.sizes, k) <= usize::MAX);
        }
    }
    labels_placed_alike(r, state, other, state.marks.len());
}

proof fn widened_alike(r: Renaming, state: State, other: State, count: nat)
    requires
        renaming::is_renaming(r),
        alike(r, state, other),
        count <= state.pushes.len(),
    ensures
        same_outcome(
            r,
            state::pushes_widened(state, count),
            state::pushes_widened(other, count),
        ),
    decreases count,
{
    if count > 0 {
        widened_alike(r, state, other, (count - 1) as nat);
        let before = state::pushes_widened(state, (count - 1) as nat);
        let other_before = state::pushes_widened(other, (count - 1) as nat);
        if before.failure is None {
            let (op, item) = state.pushes[count - 1];
            assert(renaming::op_fits(r, state.pushes[count - 1].0));
            assert(other.pushes[count - 1] == (renaming::new_op(r, op), item));
            match op {
                OpModel::Push(term) => {
                    renaming::values_are_not_renamed(
                        r,
                        term,
                        context::top_context(before.state.labels, before.state.macros),
                        other_before.state.macros,
                        NESTING_LIMIT as nat,
                    );
                    match encode::value_of(term, before.state.labels, before.state.macros) {
                        Ok(value) => {
                            let room = 1 + encode::width_needed(value);
                            let sizes = before.state.sizes.update(item as int, room);
                            placed_alike(
                                r,
                                State { sizes, ..before.state },
                                State { sizes, ..other_before.state },
                            );
                        },
                        Err(_) => {},
                    }
                },
                _ => {},
            }
        }
    }
}

proof fn backpatched_alike(r: Renaming, state: State, other: State)
    requires
        renaming::is_renaming(r),
        alike(r, state, other),
    ensures
        same_outcome(r, state::backpatched(state), state::backpatched(other)),
    decreases state::slack(state.sizes),
{
    let after = state::pushes_widened(state, state.pushes.len());
    let other_after = state::pushes_widened(other, other.pushes.len());
    widened_alike(r, state, other, state.pushes.len());
    if !(after.failure is Some || after.state.sizes == state.sizes) {
        state::widening_grows(state, state.pushes.len());
        state::growing_takes_slack(state.sizes, after.state.sizes);
        backpatched_alike(r, after.state, other_after.state);
    }
}

/// `pushes` with new names.
pub open spec fn new_notes(r: Renaming, pushes: Seq<PushRefModel>) -> Seq<PushRefModel> {
    Seq::new(
        pushes.len(),
        |j: int| PushRefModel { expr: renaming::new_term(r, pushes[j].expr), ..pushes[j] },
    )
}

/// Whether the names in `pushes` fit.
pub open spec fn notes_fit(r: Renaming, pushes: Seq<PushRefModel>) -> bool {
    forall|j: int| 0 <= j < pushes.len() ==> renaming::term_fits(r, (#[trigger] pushes[j]).expr)
}

proof fn emitted_alike(r: Renaming, state: State, other: State, count: nat)
    requires
        renaming::is_renaming(r),
        alike(r, state, other),
        other.offset is Some <==> state.offset is Some,
        count <= state.ready.len(),
    ensures
        ({
            let (pushes, result) = state::emitted(state, count);
            let (others, other_result) = state::emitted(other, count);
            &&& notes_fit(r, pushes)
            &&& result is Ok <==> other_result is Ok
            &&& result is Ok ==> other_result == result && others == new_notes(r, pushes)
        }),
    decreases count,
{
    if count > 0 {
        emitted_alike(r, state, other, (count - 1) as nat);
        let (before, result) = state::emitted(state, (count - 1) as nat);
        let (pushes, after) = state::emitted(state, count);
        let others = state::emitted(other, count).0;
        assert(item_fits(r, state.ready[count - 1]));
        assert(other.ready[count - 1] == new_item(r, state.ready[count - 1]));
        match state.ready[count - 1] {
            ItemModel::Instruction(op) => {
                renaming::encodings_are_not_renamed(
                    r,
                    op,
                    state.sizes[count - 1],
                    state.labels,
                    state.macros,
                    other.macros,
                );
                match encode::expression_in(op) {
                    Some(term) => {
                        renaming::references_are_renamed(
                            r,
                            term,
                            state.macros,
                            other.macros,
                            NESTING_LIMIT as nat,
                        );
                    },
                    None => {},
                }
                assert(state::refers_to_label(
                    renaming::new_op(r, op),
                    other.macros,
                ) == state::refers_to_label(op, state.macros));
            },
            _ => {},
        }
        if after is Ok {
            assert(others =~= new_notes(r, pushes));
        }
    } else {
        assert(new_notes(r, Seq::empty()) =~= Seq::empty());
    }
}

proof fn relocated_alike(
    r: Renaming,
    state: State,
    other: State,
    count: nat,
    map: Map<usize, usize>,
    offset: u64,
)
    requires
        alike(r, state, other),
    ensures
        ({
            let (entries, fault) = state::relocated(state, count, map, offset);
            let (others, other_fault) = state::relocated(other, count, map, offset);
            &&& renaming::entries_fit(r, entries)
            &&& others == renaming::new_entries(r, entries)
            &&& other_fault == fault
        }),
    decreases count,
{
    if count > 0 {
        relocated_alike(r, state, other, (count - 1) as nat, map, offset);
        let before = state::relocated(state, (count - 1) as nat, map, offset).0;
        let (entries, fault) = state::relocated(state, count, map, offset);
        let others = state::relocated(other, count, map, offset).0;
        assert forall|k: int| 0 <= k < entries.len() implies renaming::fits(
            r,
            (#[trigger] entries[k]).0,
        ) by {
            assert(renaming::fits(r, before[k].0));
        }
        assert(others =~= renaming::new_entries(r, entries));
    }
}

proof fn moved_alike(r: Renaming, state: State, other: State, bytes: Seq<u8>, offset: u64)
    requires
        alike(r, state, other),
    ensures
        same_outcome(
            r,
            state::moved_to_gif(state, bytes, offset),
            state::moved_to_gif(other, bytes, offset),
        ),
        state::moved_to_gif(state, bytes, offset).state == (State {
            labels: state::moved_to_gif(state, bytes, offset).state.labels,
            ..state
        }),
        state::moved_to_gif(other, bytes, offset).state == (State {
            labels: state::moved_to_gif(other, bytes, offset).state.labels,
            ..other
        }),
{
    relocated_alike(r, state, other, state.marks.len(), evmgif::map_of(bytes), offset);
}

proof fn sizes_alike(
    r: Renaming,
    state: State,
    other: State,
    pushes: Seq<PushRefModel>,
    count: nat,
)
    requires
        renaming::is_renaming(r),
        alike(r, state, other),
        notes_fit(r, pushes),
        count <= pushes.len(),
    ensures
        state::sizes_widened(other, new_notes(r, pushes), count) == state::sizes_widened(
            state,
            pushes,
            count,
        ),
    decreases count,
{
    if count > 0 {
        sizes_alike(r, state, other, pushes, (count - 1) as nat);
        let push = pushes[count - 1];
        assert(renaming::term_fits(r, push.expr));
        renaming::values_are_not_renamed(
            r,
            push.expr,
            context::top_context(state.labels, state.macros),
            other.macros,
            NESTING_LIMIT as nat,
        );
    }
}

proof fn patched_alike(
    r: Renaming,
    state: State,
    other: State,
    bytes: Seq<u8>,
    pushes: Seq<PushRefModel>,
    count: nat,
    map: Map<usize, usize>,
)
    requires
        renaming::is_renaming(r),
        alike(r, state, other),
        notes_fit(r, pushes),
        count <= pushes.len(),
    ensures
        ({
            let result = state::patched(state, bytes, pushes, count, map);
            let other_result = state::patched(other, bytes, new_notes(r, pushes), count, map);
            &&& result is Ok <==> other_result is Ok
            &&& result is Ok ==> other_result == result
        }),
    decreases count,
{
    if count > 0 {
        patched_alike(r, state, other, bytes, pushes, (count - 1) as nat, map);
        let push = pushes[count - 1];
        assert(renaming::term_fits(r, push.expr));
        renaming::values_are_not_renamed(
            r,
            push.expr,
            context::top_context(state.labels, state.macros),
            other.macros,
            NESTING_LIMIT as nat,
        );
    }
}

proof fn laid_out_alike(r: Renaming, state: State, other: State)
    requires
        renaming::is_renaming(r),
        alike(r, state, other),
        other.offset == state.offset,
    ensures
        same_outcome(r, state::laid_out(state), state::laid_out(other)),
        state::laid_out(state).failure is None ==> state::laid_out(state).state.offset
            == state.offset && state::laid_out(other).state.offset == state.offset,
    decreases state::slack(state.sizes),
{
    let plain = state::backpatched(state);
    let other_plain = state::backpatched(other);
    backpatched_alike(r, state, other);
    state::backpatching_grows(state);
    state::backpatching_grows(other);
    let (pushes, output) = state::emitted(plain.state, plain.state.ready.len());
    if plain.failure is None {
        emitted_alike(r, plain.state, other_plain.state, plain.state.ready.len());
        match (output, state.offset) {
            (Ok(bytes), Some(offset)) => {
                let in_gif = state::moved_to_gif(plain.state, bytes, offset);
                let other_in_gif = state::moved_to_gif(other_plain.state, bytes, offset);
                moved_alike(r, plain.state, other_plain.state, bytes, offset);
                if in_gif.failure is None {
                    let sizes = state::sizes_widened(in_gif.state, pushes, pushes.len());
                    sizes_alike(r, in_gif.state, other_in_gif.state, pushes, pushes.len());
                    if sizes != in_gif.state.sizes {
                        let after = state::resized(in_gif.state, sizes);
                        let other_after = state::resized(other_in_gif.state, sizes);
                        placed_alike(
                            r,
                            State { sizes, ..in_gif.state },
                            State { sizes, ..other_in_gif.state },
                        );
                        if after.failure is None {
                            state::widening_for_gif_grows(in_gif.state, pushes, pushes.len());
                            state::growing_takes_slack(plain.state.sizes, sizes);
                            state::growing_takes_slack(state.sizes, plain.state.sizes);
                            laid_out_alike(r, after.state, other_after.state);
                        }
                    }
                }
            },
            _ => {},
        }
    }
}

/// Programs that are alike give the same output.
pub proof fn finished_alike(r: Renaming, state: State, other: State)
    requires
        renaming::is_renaming(r),
        alike(r, state, other),
        other.offset == state.offset,
    ensures
        same_emission(r, state::finished(state), state::finished(other)),
{
    laid_out_alike(r, state, other);
    let layout = state::laid_out(state);
    let other_layout = state::laid_out(other);
    if state.undeclared.len() == 0 && layout.failure is None {
        emitted_alike(r, layout.state, other_layout.state, layout.state.ready.len());
        let (pushes, result) = state::emitted(layout.state, layout.state.ready.len());
        match (result, layout.state.offset) {
            (Ok(bytes), Some(offset)) => {
                let in_gif = state::moved_to_gif(layout.state, bytes, offset);
                let other_in_gif = state::moved_to_gif(other_layout.state, bytes, offset);
                moved_alike(r, layout.state, other_layout.state, bytes, offset);
                if in_gif.failure is None {
                    patched_alike(
                        r,
                        in_gif.state,
                        other_in_gif.state,
                        evmgif::packed(bytes),
                        pushes,
                        pushes.len(),
                        evmgif::map_of(bytes),
                    );
                }
            },
            _ => {},
        }
    }
}

/// Whether no label that `op` declares or refers to ends in one of the numbers.
pub open spec fn raw_plain(r: Renaming, op: RawModel) -> bool
    decreases op,
{
    match op {
        RawModel::Op(OpModel::Label(label)) => renaming::plain(r, label),
        RawModel::Op(OpModel::MacroDefinition(definition)) => renaming::macro_plain(
            r,
            definition,
        ),
        RawModel::Op(op) => renaming::content_plain(r, op),
        RawModel::Scope(ops) => program_plain(r, ops),
        RawModel::Raw(_) => true,
    }
}

/// Whether no label of the program ends in one of the numbers.
pub open spec fn program_plain(r: Renaming, ops: Seq<RawModel>) -> bool
    decreases ops,
{
    forall|k: int| 0 <= k < ops.len() ==> raw_plain(r, #[trigger] ops[k])
}

/// What an item of the program is under other names.
proof fn plain_ops_stay(r: Renaming, op: OpModel)
    requires
        raw_plain(r, RawModel::Op(op)),
    ensures
        renaming::op_fits(r, op),
        renaming::new_op(r, op) == op,
{
    match op {
        OpModel::Label(_) => {},
        OpModel::MacroDefinition(_) => {},
        _ => {
            renaming::plain_contents_stay(r, op);
        },
    }
}

proof fn raw_alike(
    r: Renaming,
    state: State,
    other: State,
    used: nat,
    op: RawModel,
    draws: Seq<u64>,
    others: Seq<u64>,
    limit: nat,
)
    requires
        renaming::is_renaming(r),
        alike(r, state, other),
        raw_plain(r, op),
        renaming::drawn_for(r, draws, others, limit),
        state::raw_pushed(state, used, op, draws).used <= limit,
    ensures
        same_step(
            r,
            state::raw_pushed(state, used, op, draws),
            state::raw_pushed(other, used, op, others),
        ),
    decreases op, 0nat,
{
    match op {
        RawModel::Op(op) => {
            plain_ops_stay(r, op);
            op_alike(
                r,
                state,
                other,
                used,
                op,
                draws,
                others,
                NESTING_LIMIT as nat,
                limit,
            );
        },
        RawModel::Raw(bytes) => {
            accepted_alike(r, state, other, ItemModel::Raw(bytes), bytes.len());
        },
        RawModel::Scope(ops) => {
            new_states_alike(r, None, None);
            assert(program_plain(r, ops));
            let inner = state::assembled(state::new_state(None), used, ops, draws);
            program_alike(
                r,
                state::new_state(None),
                state::new_state(None),
                used,
                ops,
                draws,
                others,
                limit,
            );
            match inner.result {
                Ok(bytes) => {
                    accepted_alike(r, state, other, ItemModel::Raw(bytes), bytes.len());
                },
                Err(_) => {},
            }
        },
    }
}

/// New assemblers are alike.
pub proof fn new_states_alike(r: Renaming, offset: Option<u64>, other_offset: Option<u64>)
    ensures
        alike(r, state::new_state(offset), state::new_state(other_offset)),
{
    let state = state::new_state(offset);
    assert(new_items(r, state.ready) =~= state.ready);
    assert(renaming::new_entries(r, state.labels) =~= state.labels);
    assert(renaming::new_texts(r, state.undeclared) =~= state.undeclared);
    assert(new_pushes(r, state.pushes) =~= state.pushes);
}

/// Accepting the same items leaves assemblers alike.
pub proof fn raws_alike(
    r: Renaming,
    state: State,
    other: State,
    used: nat,
    ops: Seq<RawModel>,
    count: nat,
    draws: Seq<u64>,
    others: Seq<u64>,
    limit: nat,
)
    requires
        renaming::is_renaming(r),
        alike(r, state, other),
        count <= ops.len(),
        program_plain(r, ops),
        renaming::drawn_for(r, draws, others, limit),
        state::raws_pushed(state, used, ops, count, draws).used <= limit,
    ensures
        same_step(
            r,
            state::raws_pushed(state, used, ops, count, draws),
            state::raws_pushed(other, used, ops, count, others),
        ),
    decreases ops, count,
{
    if count > 0 {
        let before = state::raws_pushed(state, used, ops, (count - 1) as nat, draws);
        let other_before = state::raws_pushed(other, used, ops, (count - 1) as nat, others);
        if before.failure is None {
            determinism::raw_draws(before.state, before.used, ops[count - 1], draws);
            assert(state::raws_pushed(state, used, ops, count, draws) == state::raw_pushed(
                before.state,
                before.used,
                ops[count - 1],
                draws,
            ));
        }
        raws_alike(r, state, other, used, ops, (count - 1) as nat, draws, others, limit);
        if before.failure is None {
            assert(raw_plain(r, ops[count - 1]));
            raw_alike(
                r,
                before.state,
                other_before.state,
                before.used,
                ops[count - 1],
                draws,
                others,
                limit,
            );
            assert(state::raws_pushed(other, used, ops, count, others) == state::raw_pushed(
                other_before.state,
                other_before.used,
                ops[count - 1],
                others,
            ));
        }
    }
}

/// The macros with one more definition.
proof fn more_macros_alike(
    r: Renaming,
    macros: Seq<MacroModel>,
    others: Seq<MacroModel>,
    definition: MacroModel,
)
    requires
        renaming::macros_plain(r, macros),
        renaming::same_macros(macros, others),
        renaming::macro_plain(r, definition),
    ensures
        renaming::macros_plain(r, macros.push(definition)),
        renaming::same_macros(macros.push(definition), others.push(definition)),
{
    let more = macros.push(definition);
    let other_more = others.push(definition);
    assert(more.drop_last() =~= macros);
    assert(other_more.drop_last() =~= others);
    assert forall|name: Seq<char>| match #[trigger] context::find_macro(more, name) {
        Some(definition) => renaming::macro_plain(r, definition),
        None => true,
    } by {
        assert(match context::find_macro(macros, name) {
            Some(definition) => renaming::macro_plain(r, definition),
            None => true,
        });
    }
    assert forall|name: Seq<char>| #[trigger]
        context::find_macro(other_more, name) == context::find_macro(more, name) by {
        assert(context::find_macro(others, name) == context::find_macro(macros, name));
    }
}

proof fn definitions_alike(
    r: Renaming,
    state: State,
    other: State,
    ops: Seq<RawModel>,
    count: nat,
)
    requires
        alike(r, state, other),
        program_plain(r, ops),
        count <= ops.len(),
    ensures
        same_outcome(
            r,
            state::macros_declared(state, ops, count),
            state::macros_declared(other, ops, count),
        ),
    decreases count,
{
    if count > 0 {
        definitions_alike(r, state, other, ops, (count - 1) as nat);
        let before = state::macros_declared(state, ops, (count - 1) as nat);
        let other_before = state::macros_declared(other, ops, (count - 1) as nat);
        assert(raw_plain(r, ops[count - 1]));
        if before.failure is None {
            match ops[count - 1] {
                RawModel::Op(OpModel::MacroDefinition(definition)) => {
                    assert(context::find_macro(
                        other_before.state.macros,
                        definition.macro_name(),
                    ) == context::find_macro(before.state.macros, definition.macro_name()));
                    more_macros_alike(
                        r,
                        before.state.macros,
                        other_before.state.macros,
                        definition,
                    );
                },
                _ => {},
            }
        }
    }
}

/// A program is assembled alike by assemblers that are alike.
pub proof fn program_alike(
    r: Renaming,
    state: State,
    other: State,
    used: nat,
    ops: Seq<RawModel>,
    draws: Seq<u64>,
    others: Seq<u64>,
    limit: nat,
)
    requires
        renaming::is_renaming(r),
        alike(r, state, other),
        other.offset == state.offset,
        program_plain(r, ops),
        renaming::drawn_for(r, draws, others, limit),
        state::assembled(state, used, ops, draws).used <= limit,
    ensures
        ({
            let assembly = state::assembled(state, used, ops, draws);
            let other_assembly = state::assembled(other, used, ops, others);
            &&& other_assembly.used == assembly.used
            &&& assembly.result is Ok <==> other_assembly.result is Ok
            &&& assembly.result is Ok ==> {
                &&& other_assembly.result == assembly.result
                &&& other_assembly.state.labels == renaming::new_entries(
                    r,
                    assembly.state.labels,
                )
            }
        }),
    decreases ops, ops.len() + 1,
{
    let declared = state::macros_declared(state, ops, ops.len());
    let other_declared = state::macros_declared(other, ops, ops.len());
    definitions_alike(r, state, other, ops, ops.len());
    placement::definitions_change_macros_only(state, ops, ops.len());
    placement::definitions_change_macros_only(other, ops, ops.len());
    if declared.failure is None {
        raws_alike(
            r,
            declared.state,
            other_declared.state,
            used,
            ops,
            ops.len(),
            draws,
            others,
            limit,
        );
        let pushed = state::raws_pushed(declared.state, used, ops, ops.len(), draws);
        let other_pushed = state::raws_pushed(other_declared.state, used, ops, ops.len(), others);
        if pushed.failure is None {
            progress::raws_continue(declared.state, used, ops, 0, ops.len(), draws);
            progress::raws_continue(other_declared.state, used, ops, 0, ops.len(), others);
            finished_alike(r, pushed.state, other_pushed.state);
        }
    }
}

/// The numbers that are drawn for local labels do not matter, as long as none is drawn twice and
/// no label of the program looks like one that was made from them: whatever they are, the program
/// is refused, or it is not, and then the output is the same.
pub proof fn numbers_do_not_matter(
    offset: Option<u64>,
    ops: Seq<RawModel>,
    draws: Seq<u64>,
    others: Seq<u64>,
)
    requires
        draws.len() == others.len(),
        draws.no_duplicates(),
        others.no_duplicates(),
        program_plain((Renaming { from: draws, to: others }), ops),
        state::assembled(state::new_state(offset), 0, ops, draws).used <= draws.len(),
    ensures
        ({
            let assembly = state::assembled(state::new_state(offset), 0, ops, draws);
            let other = state::assembled(state::new_state(offset), 0, ops, others);
            &&& other.used == assembly.used
            &&& assembly.result is Ok <==> other.result is Ok
            &&& assembly.result is Ok ==> other.result == assembly.result
        }),
{
    let r = Renaming { from: draws, to: others };
    new_states_alike(r, offset, offset);
    program_alike(
        r,
        state::new_state(offset),
        state::new_state(offset),
        0,
        ops,
        draws,
        others,
        draws.len(),
    );
}

/// No other number for any.
pub open spec fn no_renaming() -> Renaming {
    Renaming { from: Seq::empty(), to: Seq::empty() }
}

proof fn nothing_ends_in_no_number(text: Seq<char>)
    ensures
        renaming::plain(no_renaming(), text),
        renaming::fits(no_renaming(), text),
        renaming::new_text(no_renaming(), text) == text,
{
}

proof fn every_term_is_plain(term: Term)
    ensures
        renaming::term_plain(no_renaming(), term),
    decreases term,
{
    match term {
        Term::Label(label) => {
            nothing_ends_in_no_number(label);
        },
        Term::Macro(_, arguments) => {
            every_argument_is_plain(arguments);
        },
        Term::Plus(left, right) => {
            every_term_is_plain(*left);
            every_term_is_plain(*right);
        },
        Term::Minus(left, right) => {
            every_term_is_plain(*left);
            every_term_is_plain(*right);
        },
        _ => {},
    }
}

proof fn every_argument_is_plain(terms: Seq<Term>)
    ensures
        renaming::terms_plain(no_renaming(), terms),
    decreases terms,
{
    assert forall|i: int| 0 <= i < terms.len() implies renaming::term_plain(
        no_renaming(),
        #[trigger] terms[i],
    ) by {
        every_term_is_plain(terms[i]);
    }
}

proof fn every_content_is_plain(op: OpModel)
    ensures
        renaming::content_plain(no_renaming(), op),
        renaming::op_fits(no_renaming(), op),
        renaming::new_op(no_renaming(), op) == op,
{
    match op {
        OpModel::Op { immediate: Some(term), .. } => {
            every_term_is_plain(term);
            renaming::plain_terms_stay(no_renaming(), term);
        },
        OpModel::Push(term) => {
            every_term_is_plain(term);
            renaming::plain_terms_stay(no_renaming(), term);
        },
        OpModel::Label(label) => {
            nothing_ends_in_no_number(label);
        },
        OpModel::Macro(_, arguments) => {
            every_argument_is_plain(arguments);
        },
        _ => {},
    }
}

proof fn every_macro_is_plain(definition: MacroModel)
    ensures
        renaming::macro_plain(no_renaming(), definition),
{
    match definition {
        MacroModel::Expression { content, .. } => {
            every_term_is_plain(content);
        },
        MacroModel::Instruction { contents, .. } => {
            assert forall|i: int| 0 <= i < contents.len() implies renaming::content_plain(
                no_renaming(),
                #[trigger] contents[i],
            ) by {
                every_content_is_plain(contents[i]);
            }
        },
    }
}

proof fn every_item_is_plain(op: RawModel)
    ensures
        raw_plain(no_renaming(), op),
    decreases op,
{
    match op {
        RawModel::Op(OpModel::Label(label)) => {
            nothing_ends_in_no_number(label);
        },
        RawModel::Op(OpModel::MacroDefinition(definition)) => {
            every_macro_is_plain(definition);
        },
        RawModel::Op(op) => {
            every_content_is_plain(op);
        },
        RawModel::Scope(ops) => {
            every_program_is_plain(ops);
        },
        RawModel::Raw(_) => {},
    }
}

proof fn every_program_is_plain(ops: Seq<RawModel>)
    ensures
        program_plain(no_renaming(), ops),
    decreases ops,
{
    assert forall|k: int| 0 <= k < ops.len() implies raw_plain(
        no_renaming(),
        #[trigger] ops[k],
    ) by {
        every_item_is_plain(ops[k]);
    }
}

proof fn every_name_stays(state: State)
    ensures
        new_items(no_renaming(), state.ready) == state.ready,
        renaming::new_entries(no_renaming(), state.labels) == state.labels,
        renaming::new_texts(no_renaming(), state.undeclared) == state.undeclared,
        new_pushes(no_renaming(), state.pushes) == state.pushes,
{
    let r = no_renaming();
    assert forall|text: Seq<char>| #[trigger] renaming::new_text(r, text) == text by {
        nothing_ends_in_no_number(text);
    }
    assert forall|op: OpModel| #[trigger] renaming::new_op(r, op) == op by {
        every_content_is_plain(op);
    }
    assert(new_items(r, state.ready) =~= state.ready);
    assert(renaming::new_entries(r, state.labels) =~= state.labels);
    assert(renaming::new_texts(r, state.undeclared) =~= state.undeclared);
    assert(new_pushes(r, state.pushes) =~= state.pushes);
}

/// Assemblers that differ at most in the order of their macros, and in where the output goes, are
/// alike.
proof fn same_macros_are_alike(state: State, other: State)
    requires
        other == (State { macros: other.macros, offset: other.offset, ..state }),
        renaming::same_macros(state.macros, other.macros),
    ensures
        renaming::is_renaming(no_renaming()),
        alike(no_renaming(), state, other),
{
    let r = no_renaming();
    every_name_stays(state);
    assert forall|i: int| 0 <= i < state.ready.len() implies item_fits(
        r,
        #[trigger] state.ready[i],
    ) by {
        match state.ready[i] {
            ItemModel::Instruction(op) => {
                every_content_is_plain(op);
            },
            _ => {},
        }
    }
    assert forall|i: int| 0 <= i < state.labels.len() implies renaming::fits(
        r,
        (#[trigger] state.labels[i]).0,
    ) by {
        nothing_ends_in_no_number(state.labels[i].0);
    }
    assert forall|name: Seq<char>| match #[trigger] context::find_macro(state.macros, name) {
        Some(definition) => renaming::macro_plain(r, definition),
        None => true,
    } by {
        match context::find_macro(state.macros, name) {
            Some(definition) => {
                every_macro_is_plain(definition);
            },
            None => {},
        }
    }
    assert forall|i: int| 0 <= i < state.undeclared.len() implies renaming::fits(
        r,
        #[trigger] state.undeclared[i],
    ) by {
        nothing_ends_in_no_number(state.undeclared[i]);
    }
    assert forall|i: int| 0 <= i < state.pushes.len() implies renaming::op_fits(
        r,
        (#[trigger] state.pushes[i]).0,
    ) by {
        every_content_is_plain(state.pushes[i].0);
    }
}

/// Whether `op` defines a macro.
pub open spec fn is_definition(op: RawModel) -> bool {
    progress::definition_of(op) is Some
}

/// A definition among the items changes nothing when they are accepted.
proof fn definitions_are_skipped(
    state: State,
    used: nat,
    ops: Seq<RawModel>,
    at: int,
    definition: RawModel,
    count: nat,
    draws: Seq<u64>,
)
    requires
        0 <= at <= ops.len(),
        is_definition(definition),
        count <= ops.len(),
    ensures
        count < at ==> state::raws_pushed(state, used, ops.insert(at, definition), count, draws)
            == state::raws_pushed(state, used, ops, count, draws),
        count >= at ==> state::raws_pushed(
            state,
            used,
            ops.insert(at, definition),
            count + 1,
            draws,
        ) == state::raws_pushed(state, used, ops, count, draws),
    decreases count,
{
    let more = ops.insert(at, definition);
    assert(more.len() == ops.len() + 1);
    if count > 0 {
        definitions_are_skipped(state, used, ops, at, definition, (count - 1) as nat, draws);
        let before = state::raws_pushed(state, used, ops, (count - 1) as nat, draws);
        assert(before.failure is None ==> state::raws_pushed(state, used, ops, count, draws)
            == state::raw_pushed(before.state, before.used, ops[count - 1], draws));
        if count < at {
            assert(more[count - 1] == ops[count - 1]);
            assert(before.failure is None ==> state::raws_pushed(state, used, more, count, draws)
                == state::raw_pushed(before.state, before.used, more[count - 1], draws));
        } else if count > at {
            assert(more[count as int] == ops[count - 1]);
            assert(before.failure is None ==> state::raws_pushed(
                state,
                used,
                more,
                count + 1,
                draws,
            ) == state::raw_pushed(before.state, before.used, more[count as int], draws));
        } else {
            assert(more[count - 1] == ops[count - 1]);
            assert(before.failure is None ==> state::raws_pushed(state, used, more, count, draws)
                == state::raw_pushed(before.state, before.used, more[count - 1], draws));
        }
    }
    if count == at {
        let before = state::raws_pushed(state, used, more, count, draws);
        assert(more[count as int] == definition);
        if before.failure is None {
            assert(state::raws_pushed(state, used, more, count + 1, draws) == state::raw_pushed(
                before.state,
                before.used,
                definition,
                draws,
            ));
            let op = OpModel::MacroDefinition(progress::definition_of(definition)->0);
            assert(definition == RawModel::Op(op));
            assert(state::raw_pushed(before.state, before.used, definition, draws)
                == state::op_pushed(
                before.state,
                before.used,
                op,
                draws,
                NESTING_LIMIT as nat,
            ));
        }
    }
}

/// The definition of `name` among the first `count` of `ops`.
pub open spec fn defined_in(ops: Seq<RawModel>, count: nat, name: Seq<char>, k: int) -> bool {
    &&& 0 <= k < count
    &&& is_definition(ops[k])
    &&& progress::definition_of(ops[k])->0.macro_name() == name
}

/// Definitions are accepted if and only if no name is defined twice, and then each name stands for
/// its definition.
proof fn definitions_are_found(state: State, ops: Seq<RawModel>, count: nat)
    requires
        count <= ops.len(),
    ensures
        state::macros_declared(state, ops, count).failure is None <==> distinct_definitions(
            state,
            ops,
            count,
        ),
        state::macros_declared(state, ops, count).failure is None ==> forall|name: Seq<char>, k: int|
            #![trigger defined_in(ops, count, name, k)]
            defined_in(ops, count, name, k) ==> context::find_macro(
                state::macros_declared(state, ops, count).state.macros,
                name,
            ) == Some(progress::definition_of(ops[k])->0),
        state::macros_declared(state, ops, count).failure is None ==> forall|name: Seq<char>|
            (forall|k: int| !defined_in(ops, count, name, k)) ==> #[trigger] context::find_macro(
                state::macros_declared(state, ops, count).state.macros,
                name,
            ) == context::find_macro(state.macros, name),
    decreases count,
{
    if count > 0 {
        let last = (count - 1) as nat;
        definitions_are_found(state, ops, last);
        let before = state::macros_declared(state, ops, last);
        let after = state::macros_declared(state, ops, count);
        if distinct_definitions(state, ops, count) {
            assert(distinct_definitions(state, ops, last));
        }
        if before.failure is None {
            match ops[last as int] {
                RawModel::Op(OpModel::MacroDefinition(definition)) => {
                    let name = definition.macro_name();
                    assert(is_definition(ops[last as int]));
                    assert(defined_in(ops, count, name, last as int));
                    let known = context::find_macro(before.state.macros, name);
                    if known is Some {
                        if exists|k: int| defined_in(ops, last, name, k) {
                            let k = choose|k: int| defined_in(ops, last, name, k);
                            assert(!distinct_definitions(state, ops, count));
                        } else {
                            assert(context::find_macro(state.macros, name) is Some);
                            assert(!distinct_definitions(state, ops, count));
                        }
                    } else {
                        let more = before.state.macros.push(definition);
                        assert(more.drop_last() =~= before.state.macros);
                        assert forall|j: int, k: int|
                            0 <= j < k < count && is_definition(#[trigger] ops[j])
                                && is_definition(#[trigger] ops[k]) implies progress::definition_of(
                            ops[j],
                        )->0.macro_name() != progress::definition_of(ops[k])->0.macro_name() by {
                            if k == last {
                                let other = progress::definition_of(ops[j])->0.macro_name();
                                assert(defined_in(ops, last, other, j));
                            }
                        }
                        assert forall|k: int|
                            0 <= k < count && is_definition(
                                #[trigger] ops[k],
                            ) implies context::find_macro(
                            state.macros,
                            progress::definition_of(ops[k])->0.macro_name(),
                        ) is None by {
                            if k == last {
                                assert(forall|k: int| !defined_in(ops, last, name, k));
                            }
                        }
                        assert(distinct_definitions(state, ops, count));
                        assert forall|other: Seq<char>, k: int|
                            #![trigger defined_in(ops, count, other, k)]
                            defined_in(ops, count, other, k) implies context::find_macro(
                            more,
                            other,
                        ) == Some(progress::definition_of(ops[k])->0) by {
                            if k < last {
                                assert(defined_in(ops, last, other, k));
                                assert(other != name);
                            }
                        }
                        assert forall|other: Seq<char>|
                            (forall|k: int|
                                !defined_in(
                                    ops,
                                    count,
                                    other,
                                    k,
                                )) implies #[trigger] context::find_macro(more, other)
                            == context::find_macro(state.macros, other) by {
                            assert(other != name);
                            assert forall|k: int| !defined_in(ops, last, other, k) by {
                                assert(!defined_in(ops, count, other, k));
                            }
                            assert(context::find_macro(before.state.macros, other)
                                == context::find_macro(state.macros, other));
                        }
                    }
                },
                _ => {
                    assert(!is_definition(ops[last as int]));
                    assert forall|name: Seq<char>, k: int|
                        #![trigger defined_in(ops, count, name, k)]
                        defined_in(ops, count, name, k) implies defined_in(
                        ops,
                        last,
                        name,
                        k,
                    ) by {}
                    assert forall|name: Seq<char>|
                        (forall|k: int|
                            !defined_in(
                                ops,
                                count,
                                name,
                                k,
                            )) implies #[trigger] context::find_macro(after.state.macros, name)
                        == context::find_macro(state.macros, name) by {
                        assert forall|k: int| !defined_in(ops, last, name, k) by {
                            assert(!defined_in(ops, count, name, k));
                        }
                    }
                    assert(distinct_definitions(state, ops, last) ==> distinct_definitions(
                        state,
                        ops,
                        count,
                    ));
                },
            }
        }
    }
}

/// No name is defined twice among the first `count` of `ops`, nor defined already.
pub open spec fn distinct_definitions(state: State, ops: Seq<RawModel>, count: nat) -> bool {
    &&& forall|j: int, k: int|
        0 <= j < k < count && is_definition(#[trigger] ops[j]) && is_definition(#[trigger] ops[k])
            ==> progress::definition_of(ops[j])->0.macro_name() != progress::definition_of(
            ops[k],
        )->0.macro_name()
    &&& forall|k: int|
        0 <= k < count && is_definition(#[trigger] ops[k]) ==> context::find_macro(
            state.macros,
            progress::definition_of(ops[k])->0.macro_name(),
        ) is None
}

/// Where the item at `i` goes when it is moved to `j`, and where the others go.
spec fn moved_from(i: int, j: int, x: int) -> int {
    if x == j {
        i
    } else {
        let y = if x < j {
            x
        } else {
            x - 1
        };
        if y < i {
            y
        } else {
            y + 1
        }
    }
}

/// The items of a program in which one was moved.
pub open spec fn with_moved(ops: Seq<RawModel>, i: int, j: int) -> Seq<RawModel> {
    ops.remove(i).insert(j, ops[i])
}

proof fn moved_items(ops: Seq<RawModel>, i: int, j: int)
    requires
        0 <= i < ops.len(),
        0 <= j < ops.len(),
    ensures
        with_moved(ops, i, j).len() == ops.len(),
        forall|x: int|
            #![trigger with_moved(ops, i, j)[x]]
            0 <= x < ops.len() ==> 0 <= moved_from(i, j, x) < ops.len() && with_moved(
                ops,
                i,
                j,
            )[x] == ops[moved_from(i, j, x)],
{
}

/// Moving an item does not make a name be defined twice.
proof fn moved_definitions_stay_distinct(
    state: State,
    ops: Seq<RawModel>,
    i: int,
    j: int,
)
    requires
        0 <= i < ops.len(),
        0 <= j < ops.len(),
        distinct_definitions(state, ops, ops.len()),
    ensures
        distinct_definitions(state, with_moved(ops, i, j), ops.len()),
{
    let moved = with_moved(ops, i, j);
    moved_items(ops, i, j);
    assert forall|x: int, y: int|
        0 <= x < y < ops.len() && is_definition(#[trigger] moved[x]) && is_definition(
            #[trigger] moved[y],
        ) implies progress::definition_of(moved[x])->0.macro_name() != progress::definition_of(
        moved[y],
    )->0.macro_name() by {
        let a = moved_from(i, j, x);
        let b = moved_from(i, j, y);
        assert(moved[x] == ops[a]);
        assert(moved[y] == ops[b]);
        assert(a != b);
        if a < b {
            assert(is_definition(ops[a]) && is_definition(ops[b]));
        } else {
            assert(is_definition(ops[b]) && is_definition(ops[a]));
        }
    }
    assert forall|x: int| 0 <= x < ops.len() && is_definition(
        #[trigger] moved[x],
    ) implies context::find_macro(
        state.macros,
        progress::definition_of(moved[x])->0.macro_name(),
    ) is None by {
        assert(moved[x] == ops[moved_from(i, j, x)]);
    }
}

/// Moving an item back undoes the move.
proof fn moving_back(ops: Seq<RawModel>, i: int, j: int)
    requires
        0 <= i < ops.len(),
        0 <= j < ops.len(),
    ensures
        with_moved(with_moved(ops, i, j), j, i) == ops,
{
    assert(with_moved(ops, i, j).remove(j) =~= ops.remove(i));
    assert(with_moved(with_moved(ops, i, j), j, i) =~= ops);
}

/// Moving an item keeps what the names stand for.
proof fn moved_definitions_are_found(state: State, ops: Seq<RawModel>, i: int, j: int)
    requires
        0 <= i < ops.len(),
        0 <= j < ops.len(),
        distinct_definitions(state, ops, ops.len()),
    ensures
        ({
            let declared = state::macros_declared(state, ops, ops.len());
            let other = state::macros_declared(state, with_moved(ops, i, j), ops.len());
            &&& declared.failure is None
            &&& other.failure is None
            &&& renaming::same_macros(declared.state.macros, other.state.macros)
        }),
{
    let moved = with_moved(ops, i, j);
    moved_items(ops, i, j);
    moving_back(ops, i, j);
    moved_items(moved, j, i);
    moved_definitions_stay_distinct(state, ops, i, j);
    definitions_are_found(state, ops, ops.len());
    definitions_are_found(state, moved, moved.len());
    let declared = state::macros_declared(state, ops, ops.len()).state.macros;
    let other = state::macros_declared(state, moved, ops.len()).state.macros;
    assert forall|name: Seq<char>| #[trigger]
        context::find_macro(other, name) == context::find_macro(declared, name) by {
        if exists|k: int| defined_in(moved, moved.len(), name, k) {
            let k = choose|k: int| defined_in(moved, moved.len(), name, k);
            let x = moved_from(i, j, k);
            assert(moved[k] == ops[x]);
            assert(defined_in(ops, ops.len(), name, x));
        } else {
            assert forall|k: int| !defined_in(ops, ops.len(), name, k) by {
                if defined_in(ops, ops.len(), name, k) {
                    let x = moved_from(j, i, k);
                    assert(with_moved(moved, j, i)[k] == moved[x]);
                    assert(defined_in(moved, moved.len(), name, x));
                }
            }
            assert(context::find_macro(declared, name) == context::find_macro(
                state.macros,
                name,
            ));
        }
    }
}

/// Where a macro is defined does not matter: a program in which a definition is moved to another
/// place is refused, or it is not, and then the output is the same.
pub proof fn definitions_may_move(
    state: State,
    used: nat,
    ops: Seq<RawModel>,
    draws: Seq<u64>,
    i: int,
    j: int,
)
    requires
        0 <= i < ops.len(),
        0 <= j < ops.len(),
        is_definition(ops[i]),
    ensures
        ({
            let assembly = state::assembled(state, used, ops, draws);
            let other = state::assembled(state, used, with_moved(ops, i, j), draws);
            &&& assembly.result is Ok <==> other.result is Ok
            &&& assembly.result is Ok ==> other.result == assembly.result && other.used
                == assembly.used
        }),
{
    let moved = with_moved(ops, i, j);
    let rest = ops.remove(i);
    moved_items(ops, i, j);
    moving_back(ops, i, j);
    definitions_are_found(state, ops, ops.len());
    definitions_are_found(state, moved, moved.len());
    let declared = state::macros_declared(state, ops, ops.len());
    let other = state::macros_declared(state, moved, moved.len());
    if distinct_definitions(state, moved, moved.len()) {
        moved_definitions_stay_distinct(state, moved, j, i);
    }
    if distinct_definitions(state, ops, ops.len()) {
        moved_definitions_are_found(state, ops, i, j);
        placement::definitions_change_macros_only(state, ops, ops.len());
        placement::definitions_change_macros_only(state, moved, moved.len());
        same_macros_are_alike(declared.state, other.state);
        every_program_is_plain(rest);
        assert(rest.insert(i, ops[i]) =~= ops);
        definitions_are_skipped(declared.state, used, rest, i, ops[i], rest.len(), draws);
        definitions_are_skipped(other.state, used, rest, j, ops[i], rest.len(), draws);
        let pushed = state::raws_pushed(declared.state, used, rest, rest.len(), draws);
        let other_pushed = state::raws_pushed(other.state, used, rest, rest.len(), draws);
        raws_alike(
            no_renaming(),
            declared.state,
            other.state,
            used,
            rest,
            rest.len(),
            draws,
            draws,
            pushed.used,
        );
        if pushed.failure is None {
            progress::raws_continue(declared.state, used, rest, 0, rest.len(), draws);
            progress::raws_continue(other.state, used, rest, 0, rest.len(), draws);
            finished_alike(no_renaming(), pushed.state, other_pushed.state);
        }
    }
}

/// A program in which items were moved, one after the other.
pub open spec fn with_moves(ops: Seq<RawModel>, moves: Seq<(int, int)>, count: nat) -> Seq<RawModel>
    decreases count,
{
    if count == 0 {
        ops
    } else {
        with_moved(
            with_moves(ops, moves, (count - 1) as nat),
            moves[count - 1].0,
            moves[count - 1].1,
        )
    }
}

/// Whether each move takes a definition to another place of the program.
pub open spec fn moves_definitions(ops: Seq<RawModel>, moves: Seq<(int, int)>) -> bool {
    forall|k: int|
        #![trigger moves[k]]
        0 <= k < moves.len() ==> {
            &&& 0 <= moves[k].0 < ops.len()
            &&& 0 <= moves[k].1 < ops.len()
            &&& is_definition(with_moves(ops, moves, k as nat)[moves[k].0])
        }
}

/// Moving items makes a program neither longer nor shorter.
proof fn moves_keep_items(
    ops: Seq<RawModel>,
    moves: Seq<(int, int)>,
    count: nat,
)
    requires
        moves_definitions(ops, moves),
        count <= moves.len(),
    ensures
        with_moves(ops, moves, count).len() == ops.len(),
    decreases count,
{
    if count > 0 {
        moves_keep_items(ops, moves, (count - 1) as nat);
        assert(0 <= moves[count - 1].0 < ops.len());
        moved_items(
            with_moves(ops, moves, (count - 1) as nat),
            moves[count - 1].0,
            moves[count - 1].1,
        );
    }
}

/// Where macros are defined does not matter, for any number of definitions.
pub proof fn all_definitions_may_move(
    state: State,
    used: nat,
    ops: Seq<RawModel>,
    draws: Seq<u64>,
    moves: Seq<(int, int)>,
    count: nat,
)
    requires
        moves_definitions(ops, moves),
        count <= moves.len(),
    ensures
        ({
            let assembly = state::assembled(state, used, ops, draws);
            let other = state::assembled(state, used, with_moves(ops, moves, count), draws);
            &&& assembly.result is Ok <==> other.result is Ok
            &&& assembly.result is Ok ==> other.result == assembly.result && other.used
                == assembly.used
        }),
    decreases count,
{
    if count > 0 {
        all_definitions_may_move(state, used, ops, draws, moves, (count - 1) as nat);
        moves_keep_items(ops, moves, (count - 1) as nat);
        let (i, j) = moves[count - 1];
        assert(is_definition(with_moves(ops, moves, (count - 1) as nat)[moves[count - 1].0]));
        definitions_may_move(
            state,
            used,
            with_moves(ops, moves, (count - 1) as nat),
            draws,
            i,
            j,
        );
    }
}

/// Neither the places of definitions nor the numbers that are drawn matter: two new assemblers give
/// the same output for a program and for the one with its definitions moved, whatever numbers each
/// of them draws, as long as neither draws one twice and no label of the program looks like one
/// that was made from them.
pub proof fn moved_programs_are_assembled_alike(
    offset: Option<u64>,
    ops: Seq<RawModel>,
    draws: Seq<u64>,
    others: Seq<u64>,
    moves: Seq<(int, int)>,
)
    requires
        moves_definitions(ops, moves),
        draws.len() == others.len(),
        draws.no_duplicates(),
        others.no_duplicates(),
        program_plain((Renaming { from: draws, to: others }), ops),
        state::assembled(state::new_state(offset), 0, ops, draws).used <= draws.len(),
        state::assembled(state::new_state(offset), 0, ops, draws).result is Ok,
    ensures
        state::assembled(
            state::new_state(offset),
            0,
            with_moves(ops, moves, moves.len()),
            others,
        ).result == state::assembled(state::new_state(offset), 0, ops, draws).result,
{
    numbers_do_not_matter(offset, ops, draws, others);
    all_definitions_may_move(state::new_state(offset), 0, ops, others, moves, moves.len());
}

/// Making room for a GIF file starts from the room that is needed without one.
proof fn laying_out_starts_plain(state: State)
    requires
        state::laid_out(state).failure is None,
    ensures
        state::backpatched(state).failure is None,
        state::no_smaller(
            state::backpatched(state).state.sizes,
            state::laid_out(state).state.sizes,
        ),
        state::laid_out(state).state.sizes == state::backpatched(state).state.sizes
            ==> state::laid_out(state) == state::backpatched(state),
    decreases state::slack(state.sizes),
{
    let plain = state::backpatched(state);
    let (pushes, output) = state::emitted(plain.state, plain.state.ready.len());
    match (plain.failure, output, state.offset) {
        (None, Ok(bytes), Some(offset)) => {
            let in_gif = state::moved_to_gif(plain.state, bytes, offset);
            let sizes = state::sizes_widened(in_gif.state, pushes, pushes.len());
            if !(in_gif.failure is Some || sizes == in_gif.state.sizes) {
                let after = state::resized(in_gif.state, sizes);
                if after.failure is None {
                    state::backpatching_grows(state);
                    state::widening_for_gif_grows(in_gif.state, pushes, pushes.len());
                    state::growing_takes_slack(plain.state.sizes, sizes);
                    state::growing_takes_slack(state.sizes, plain.state.sizes);
                    laying_out_starts_plain(after.state);
                    state::backpatching_grows(after.state);
                    let last = state::laid_out(state).state.sizes;
                    let next = state::backpatched(after.state).state.sizes;
                    state::growing_goes_on(sizes, next, last);
                    state::growing_goes_on(plain.state.sizes, sizes, last);
                    state::growing_takes_slack(sizes, last);
                }
            }
        },
        _ => {},
    }
}

/// Noting pushes does not change the output.
proof fn notes_cost_nothing(state: State, other: State, count: nat)
    requires
        other == (State { offset: other.offset, ..state }),
        state.offset is None,
        state::emitted(other, count).1 is Ok,
    ensures
        state::emitted(state, count).1 == state::emitted(other, count).1,
    decreases count,
{
    if count > 0 {
        placement::emitted_before(other, (count - 1) as nat, count);
        notes_cost_nothing(state, other, (count - 1) as nat);
    }
}

/// How the output for a GIF file and the one without it are related: for the file, no push gets
/// less room. Where none gets more, the file carries the very output without it, but for the values
/// of labels; and where no push refers to a label, there are no such values.
pub proof fn gif_carries_plain_output(
    state: State,
    used: nat,
    ops: Seq<RawModel>,
    draws: Seq<u64>,
    offset: u64,
)
    requires
        placement::in_place(state),
        state.offset is None,
        state::assembled((State { offset: Some(offset), ..state }), used, ops, draws).result is Ok,
    ensures
        ({
            let gif = State { offset: Some(offset), ..state };
            let sizes = placement::layout_of(state, used, ops, draws).sizes;
            let gif_sizes = placement::layout_of(gif, used, ops, draws).sizes;
            let bytes = packing::program_of(gif, used, ops, draws);
            let pushes = packing::pushes_of(gif, used, ops, draws);
            let out = state::assembled(gif, used, ops, draws).result->Ok_0;
            &&& state::no_smaller(sizes, gif_sizes)
            &&& gif_sizes == sizes ==> state::assembled(state, used, ops, draws).result == Ok::<
                Seq<u8>,
                FailureModel,
            >(bytes)
            &&& forall|position: int|
                0 <= position < bytes.len() && !packing::in_immediate(
                    pushes,
                    pushes.len() as int,
                    position,
                ) ==> out[#[trigger] evmgif::chunked_position(evmgif::headers_of(bytes), position)]
                    == bytes[position]
            &&& pushes.len() == 0 ==> out == evmgif::packed(bytes)
        }),
{
    let gif = State { offset: Some(offset), ..state };
    placement::places_are_kept(state, gif);
    packing::program_in_gif(gif, used, ops, draws, offset);
    layouts_are_related(state, gif, used, ops, draws);
}

proof fn layouts_are_related(
    state: State,
    gif: State,
    used: nat,
    ops: Seq<RawModel>,
    draws: Seq<u64>,
)
    requires
        placement::in_place(gif),
        gif == (State { offset: gif.offset, ..state }),
        state.offset is None,
        state::assembled(gif, used, ops, draws).result is Ok,
    ensures
        ({
            let layout = placement::layout_of(state, used, ops, draws);
            let gif_layout = placement::layout_of(gif, used, ops, draws);
            &&& state::no_smaller(layout.sizes, gif_layout.sizes)
            &&& gif_layout.sizes == layout.sizes ==> state::assembled(
                state,
                used,
                ops,
                draws,
            ).result == state::emitted(gif_layout, gif_layout.ready.len()).1
        }),
{
    placement::program_layout_is_in_place(gif, used, ops, draws);
    let gif_layout = placement::layout_of(gif, used, ops, draws);
    let output = state::emitted(gif_layout, gif_layout.ready.len()).1;
    assert(output is Ok);
    programs_differ_in_offset(state, gif, used, ops, draws);
    let program = placement::accepted_program(state, used, ops, ops.len(), draws);
    let gif_program = placement::accepted_program(gif, used, ops, ops.len(), draws);
    assert(state::laid_out(gif_program).failure is None);
    laying_out_starts_plain(gif_program);
    backpatching_ignores_offset(program, gif_program);
    plain_layout(state, used, ops, draws);
    let plain = state::backpatched(program).state;
    if gif_layout.sizes == plain.sizes {
        notes_cost_nothing(plain, gif_layout, gif_layout.ready.len());
    }
}

/// Without a GIF file, a program is laid out once room is made for its pushes.
proof fn plain_layout(state: State, used: nat, ops: Seq<RawModel>, draws: Seq<u64>)
    requires
        state.offset is None,
        state::macros_declared(state, ops, ops.len()).failure is None,
        state::raws_pushed(
            state::macros_declared(state, ops, ops.len()).state,
            used,
            ops,
            ops.len(),
            draws,
        ).failure is None,
        ({
            let program = placement::accepted_program(state, used, ops, ops.len(), draws);
            &&& program.undeclared.len() == 0
            &&& state::backpatched(program).failure is None
        }),
    ensures
        ({
            let program = placement::accepted_program(state, used, ops, ops.len(), draws);
            let layout = placement::layout_of(state, used, ops, draws);
            &&& program.offset is None
            &&& layout == state::backpatched(program).state
            &&& layout.offset is None
            &&& state::assembled(state, used, ops, draws).result == state::emitted(
                layout,
                layout.ready.len(),
            ).1
        }),
{
    let declared = state::macros_declared(state, ops, ops.len()).state;
    placement::definitions_change_macros_only(state, ops, ops.len());
    progress::raws_continue(declared, used, ops, 0, ops.len(), draws);
    let program = placement::accepted_program(state, used, ops, ops.len(), draws);
    state::backpatching_grows(program);
}

/// Making room without a GIF file is the same whether there will be one or not.
proof fn backpatching_ignores_offset(state: State, other: State)
    requires
        other == (State { offset: other.offset, ..state }),
    ensures
        state::backpatched(state).failure is Some <==> state::backpatched(other).failure is Some,
        state::backpatched(state).failure is None ==> state::backpatched(other).state == (State {
            offset: other.offset,
            ..state::backpatched(state).state
        }),
{
    same_macros_are_alike(state, other);
    backpatched_alike(no_renaming(), state, other);
    state::backpatching_grows(state);
    state::backpatching_grows(other);
    every_name_stays(state::backpatched(state).state);
}

/// What was accepted is the same whether there will be a GIF file or not.
proof fn programs_differ_in_offset(
    state: State,
    other: State,
    used: nat,
    ops: Seq<RawModel>,
    draws: Seq<u64>,
)
    requires
        other == (State { offset: other.offset, ..state }),
        state::macros_declared(other, ops, ops.len()).failure is None,
        state::raws_pushed(
            state::macros_declared(other, ops, ops.len()).state,
            used,
            ops,
            ops.len(),
            draws,
        ).failure is None,
    ensures
        ({
            let declared = state::macros_declared(state, ops, ops.len());
            let pushed = state::raws_pushed(declared.state, used, ops, ops.len(), draws);
            &&& declared.failure is None
            &&& pushed.failure is None
            &&& placement::accepted_program(other, used, ops, ops.len(), draws) == (State {
                offset: other.offset,
                ..placement::accepted_program(state, used, ops, ops.len(), draws)
            })
        }),
{
    declaring_ignores_offset(state, other, ops, ops.len());
    let declared = state::macros_declared(state, ops, ops.len()).state;
    let other_declared = state::macros_declared(other, ops, ops.len()).state;
    same_macros_are_alike(declared, other_declared);
    every_program_is_plain(ops);
    let pushed = state::raws_pushed(declared, used, ops, ops.len(), draws);
    raws_alike(
        no_renaming(),
        declared,
        other_declared,
        used,
        ops,
        ops.len(),
        draws,
        draws,
        pushed.used,
    );
    progress::raws_continue(declared, used, ops, 0, ops.len(), draws);
    progress::raws_continue(other_declared, used, ops, 0, ops.len(), draws);
    every_name_stays(pushed.state);
}

proof fn declaring_ignores_offset(
    state: State,
    other: State,
    ops: Seq<RawModel>,
    count: nat,
)
    requires
        other == (State { offset: other.offset, ..state }),
    ensures
        state::macros_declared(other, ops, count).failure == state::macros_declared(
            state,
            ops,
            count,
        ).failure,
        state::macros_declared(other, ops, count).state == (State {
            offset: other.offset,
            ..state::macros_declared(state, ops, count).state
        }),
    decreases count,
{
    if count > 0 {
        declaring_ignores_offset(state, other, ops, (count - 1) as nat);
    }
}

} // verus!
