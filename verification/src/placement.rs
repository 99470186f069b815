//! Where labels end up: the position of a label is the offset of the bytes behind it.

use vstd::prelude::*;

use crate::context;
use crate::context::{EvalErrorModel, NESTING_LIMIT};
use crate::encode;
use crate::encode::EncodeErrorModel;
use crate::error;
use crate::evmgif;
use crate::expression::Term;
use crate::integer;
use crate::labels;
use crate::labels::LabelDef;
use crate::laws;
use crate::macros;
use crate::opcode;
use crate::opcode::PUSH1;
use crate::ops::{MacroModel, OpModel, RawModel};
use crate::progress;
use crate::state;
use crate::state::{ItemModel, PushRefModel, State};

verus! {

/// An assembler that is ready for a new program: no item waits.
pub open spec fn ready_for_program(state: State) -> bool {
    &&& state.ready.len() == 0
    &&& state.sizes.len() == 0
    &&& state.marks.len() == 0
    &&& state.pushes.len() == 0
    &&& state.origin == state.concrete_len <= usize::MAX
    &&& laws::distinct_labels(state.labels)
}

/// A new assembler is ready for a program.
pub proof fn new_assembler_is_ready(offset: Option<u64>)
    ensures
        ready_for_program(state::new_state(offset)),
{
}

/// Whether the item at index `i` has the room that it takes up.
pub open spec fn has_room(state: State, i: int) -> bool {
    match state.ready[i] {
        ItemModel::Raw(bytes) => state.sizes[i] == bytes.len(),
        ItemModel::Org(_) => true,
        ItemModel::Instruction(OpModel::Op { code, immediate }) => state.sizes[i] == match immediate {
            Some(_) => opcode::instruction_size(code),
            None => 1,
        },
        ItemModel::Instruction(OpModel::Push(_)) => 2 <= state.sizes[i] <= 33,
        ItemModel::Instruction(_) => false,
    }
}

/// Whether an item is a push without a size of its own.
pub open spec fn is_unsized(item: ItemModel) -> bool {
    match item {
        ItemModel::Instruction(op) => op is Push,
        _ => false,
    }
}

/// Whether the push at index `i` is listed.
pub open spec fn is_listed(state: State, i: int) -> bool {
    exists|j: int| 0 <= j < state.pushes.len() && (#[trigger] state.pushes[j]).1 == i
}

/// The items have room, the pushes without a size of their own are listed, and the labels of the
/// program stand between the items.
pub open spec fn well_formed(state: State) -> bool {
    &&& state.sizes.len() == state.ready.len()
    &&& forall|i: int| 0 <= i < state.ready.len() ==> #[trigger] has_room(state, i)
    &&& forall|m: int|
        0 <= m < state.marks.len() ==> (#[trigger] state.marks[m]).0 < state.labels.len()
            && state.marks[m].1 <= state.ready.len()
    &&& forall|m: int, k: int|
        0 <= m < k < state.marks.len() ==> (#[trigger] state.marks[m]).0 < (
        #[trigger] state.marks[k]).0
    &&& forall|j: int|
        0 <= j < state.pushes.len() ==> (#[trigger] state.pushes[j]).0 is Push
            && state.pushes[j].1 < state.ready.len() && state.ready[state.pushes[j].1 as int]
            == ItemModel::Instruction(state.pushes[j].0)
    &&& forall|i: int|
        0 <= i < state.ready.len() && is_unsized(#[trigger] state.ready[i]) ==> is_listed(state, i)
    &&& laws::distinct_labels(state.labels)
}

/// Whether the label at index `i` is at `position`.
pub open spec fn stands_at(
    entries: Seq<(Seq<char>, Option<LabelDef>)>,
    i: int,
    position: nat,
) -> bool {
    entries[i].1 is Some && entries[i].1->0.position == position
}

/// The position behind the first `count` items of the program.
pub open spec fn position_in(state: State, count: int) -> nat {
    state::position_at(state.origin, state.ready, state.sizes, count)
}

/// The labels of the program are at the positions where they stand, and the current position is
/// the one behind the last item.
pub open spec fn in_place(state: State) -> bool {
    &&& well_formed(state)
    &&& state.concrete_len == position_in(state, state.ready.len() as int) <= usize::MAX
    &&& forall|m: int|
        #![trigger state.marks[m]]
        0 <= m < state.marks.len() ==> stands_at(
            state.labels,
            state.marks[m].0 as int,
            position_in(state, state.marks[m].1 as int),
        )
}

/// A position depends on the items in front of it only.
pub proof fn position_depends_on_what_is_in_front(
    origin: nat,
    ready: Seq<ItemModel>,
    sizes: Seq<nat>,
    other_ready: Seq<ItemModel>,
    other_sizes: Seq<nat>,
    count: int,
)
    requires
        forall|i: int| 0 <= i < count ==> ready[i] == other_ready[i] && sizes[i] == other_sizes[i],
    ensures
        state::position_at(origin, ready, sizes, count) == state::position_at(
            origin,
            other_ready,
            other_sizes,
            count,
        ),
    decreases count,
{
    if count > 0 {
        position_depends_on_what_is_in_front(
            origin,
            ready,
            sizes,
            other_ready,
            other_sizes,
            count - 1,
        );
        assert(ready[count - 1] == other_ready[count - 1]);
    }
}

/// What is in front stays in place when something is put behind it.
proof fn front_stays(state: State, later: State)
    requires
        in_place(state),
        progress::continues(state, later),
        later.sizes.len() == later.ready.len(),
    ensures
        forall|k: int|
            0 <= k <= state.ready.len() ==> #[trigger] position_in(later, k) == position_in(
                state,
                k,
            ),
        forall|i: int| 0 <= i < state.ready.len() ==> #[trigger] has_room(later, i),
        forall|m: int|
            #![trigger later.marks[m]]
            0 <= m < state.marks.len() ==> {
                &&& later.marks[m].0 < state.labels.len()
                &&& later.marks[m].1 <= state.ready.len()
                &&& stands_at(
                    later.labels,
                    later.marks[m].0 as int,
                    position_in(later, later.marks[m].1 as int),
                )
            },
        forall|m: int, k: int|
            0 <= m < k < state.marks.len() ==> (#[trigger] later.marks[m]).0 < (
            #[trigger] later.marks[k]).0,
        forall|j: int|
            0 <= j < state.pushes.len() ==> (#[trigger] later.pushes[j]).0 is Push
                && later.pushes[j].1 < state.ready.len() && later.ready[later.pushes[j].1 as int]
                == ItemModel::Instruction(later.pushes[j].0),
        forall|i: int|
            0 <= i < state.ready.len() && is_unsized(#[trigger] later.ready[i]) ==> is_listed(later, i),
{
    let count = state.ready.len() as int;
    assert forall|i: int| 0 <= i < count implies #[trigger] later.ready[i] == state.ready[i] by {}
    assert forall|i: int| 0 <= i < count implies #[trigger] later.sizes[i] == state.sizes[i] by {}
    assert forall|k: int| 0 <= k <= count implies #[trigger] position_in(later, k) == position_in(
        state,
        k,
    ) by {
        position_depends_on_what_is_in_front(
            state.origin,
            later.ready,
            later.sizes,
            state.ready,
            state.sizes,
            k,
        );
    }
    assert forall|i: int| 0 <= i < count implies #[trigger] has_room(later, i) by {
        assert(has_room(state, i));
        assert(later.ready[i] == state.ready[i]);
        assert(later.sizes[i] == state.sizes[i]);
    }
    assert forall|m: int|
        #![trigger later.marks[m]]
        0 <= m < state.marks.len() implies {
        &&& later.marks[m].0 < state.labels.len()
        &&& later.marks[m].1 <= state.ready.len()
        &&& stands_at(
            later.labels,
            later.marks[m].0 as int,
            position_in(later, later.marks[m].1 as int),
        )
    } by {
        assert(later.marks[m] == state.marks[m]);
        let i = state.marks[m].0 as int;
        assert(later.labels[i] == state.labels[i]);
    }
    assert forall|m: int, k: int| 0 <= m < k < state.marks.len() implies (
    #[trigger] later.marks[m]).0 < (#[trigger] later.marks[k]).0 by {
        assert(later.marks[m] == state.marks[m]);
        assert(later.marks[k] == state.marks[k]);
    }
    assert forall|j: int| 0 <= j < state.pushes.len() implies (
    #[trigger] later.pushes[j]).0 is Push && later.pushes[j].1 < state.ready.len()
        && later.ready[later.pushes[j].1 as int] == ItemModel::Instruction(later.pushes[j].0) by {
        assert(later.pushes[j] == state.pushes[j]);
    }
    assert forall|i: int| 0 <= i < count && is_unsized(
        #[trigger] later.ready[i],
    ) implies is_listed(later, i) by {
        assert(later.ready[i] == state.ready[i]);
        if is_listed(state, i) {
            let j = choose|j: int| 0 <= j < state.pushes.len() && (#[trigger] state.pushes[j]).1 == i;
            assert(later.pushes[j] == state.pushes[j]);
        }
    }
}

/// The length of a fixed push.
proof fn fixed_push_len(code: u8, value: int)
    ensures
        encode::fixed_push(code, value) is Ok ==> encode::fixed_push(code, value)->Ok_0.len()
            == opcode::instruction_size(code),
{
}

/// An item that is accepted with the room that it takes up leaves everything in place.
proof fn item_is_in_place(state: State, item: ItemModel, size: nat)
    requires
        in_place(state),
        match item {
            ItemModel::Raw(bytes) => size == bytes.len(),
            ItemModel::Org(_) => false,
            ItemModel::Instruction(OpModel::Op { code, immediate }) => size == match immediate {
                Some(_) => opcode::instruction_size(code),
                None => 1,
            },
            ItemModel::Instruction(OpModel::Push(_)) => 2 <= size <= 33,
            ItemModel::Instruction(_) => false,
        },
    ensures
        in_place(state::accepted(state, item, size).state),
{
    let later = state::accepted(state, item, size).state;
    if state::accepted(state, item, size).failure is None {
        let count = state.ready.len() as int;
        assert(progress::continues(state, later));
        front_stays(state, later);
        assert(later.ready[count] == item);
        assert(later.sizes[count] == size);
        assert(position_in(later, count) == position_in(state, count));
        assert(position_in(later, count + 1) == state.concrete_len + size);
        assert(has_room(later, count));
        if is_unsized(item) {
            assert(later.pushes[state.pushes.len() as int].1 == count);
            assert(is_listed(later, count));
        }
    }
}

proof fn org_is_in_place(state: State, offset: nat)
    requires
        in_place(state),
    ensures
        in_place(state::org_accepted(state, offset).state),
{
    let later = state::org_accepted(state, offset).state;
    if state::org_accepted(state, offset).failure is None {
        let count = state.ready.len() as int;
        assert(progress::continues(state, later));
        front_stays(state, later);
        assert(later.ready[count] == ItemModel::Org(offset));
        assert(has_room(later, count));
    }
}

proof fn label_is_in_place(state: State, label: Seq<char>)
    requires
        in_place(state),
    ensures
        in_place(state::label_declared(state, label).state),
{
    let later = state::label_declared(state, label).state;
    if state::label_declared(state, label).failure is None {
        assert(progress::continues(state, later));
        front_stays(state, later);
        laws::label_index_finds(state.labels, label);
        let m = state.marks.len() as int;
        assert(later.marks[m] == (state.labels.len(), state.ready.len()));
        assert(position_in(later, state.ready.len() as int) == position_in(
            state,
            state.ready.len() as int,
        ));
        assert(stands_at(later.labels, state.labels.len() as int, state.concrete_len));
    }
}

proof fn instruction_is_in_place(state: State, op: OpModel)
    requires
        in_place(state),
        op is Op || op is Push,
    ensures
        in_place(state::instruction_accepted(state, op).state),
{
    let item = ItemModel::Instruction(op);
    match encode::encoding(op, state.labels, state.macros) {
        Ok(bytes) => {
            match op {
                OpModel::Op { code, immediate: Some(term) } => {
                    fixed_push_len(
                        code,
                        encode::value_of(term, state.labels, state.macros)->Ok_0,
                    );
                },
                OpModel::Push(term) => {
                    let value = encode::value_of(term, state.labels, state.macros)->Ok_0;
                    integer::be_bytes_represent(value as nat);
                },
                _ => {},
            }
            item_is_in_place(state, item, bytes.len());
        },
        Err(EncodeErrorModel::NoValue(EvalErrorModel::UnknownLabel(_))) => {
            let size = match op {
                OpModel::Op { code, .. } => opcode::instruction_size(code),
                _ => 2,
            };
            item_is_in_place(state, item, size);
            let accepted = state::accepted(state, item, size).state;
            let later = state::instruction_accepted(state, op).state;
            if later != state {
                other_undeclared_stay_in_place(accepted, later);
            }
        },
        Err(_) => {},
    }
}

proof fn other_undeclared_stay_in_place(state: State, later: State)
    requires
        in_place(state),
        later == (State { undeclared: later.undeclared, ..state }),
    ensures
        in_place(later),
{
    assert forall|i: int| 0 <= i < later.ready.len() implies #[trigger] has_room(later, i) by {
        assert(has_room(state, i));
    }
    assert forall|i: int| 0 <= i < later.ready.len() && is_unsized(
        #[trigger] later.ready[i],
    ) implies is_listed(later, i) by {
        assert(state.ready[i] == later.ready[i]);
        if is_listed(state, i) {
            let j = choose|j: int| 0 <= j < state.pushes.len() && (#[trigger] state.pushes[j]).1 == i;
            assert(later.pushes[j].1 == i);
        }
    }
    assert forall|k: int| #[trigger] position_in(later, k) == position_in(state, k) by {}
}

/// Accepting an instruction, a label, a directive or the use of a macro leaves everything in place.
pub proof fn op_is_in_place(state: State, used: nat, op: OpModel, draws: Seq<u64>, depth: nat)
    requires
        in_place(state),
    ensures
        in_place(state::op_pushed(state, used, op, draws, depth).state),
    decreases depth, 1nat,
{
    match op {
        OpModel::Label(label) => {
            label_is_in_place(state, label);
        },
        OpModel::MacroDefinition(_) => {},
        OpModel::Macro(name, arguments) => {
            macro_is_in_place(state, used, name, arguments, draws, depth);
        },
        OpModel::Org(offset) => {
            org_is_in_place(state, offset);
        },
        _ => {
            instruction_is_in_place(state, op);
        },
    }
}

proof fn macro_is_in_place(
    state: State,
    used: nat,
    name: Seq<char>,
    arguments: Seq<Term>,
    draws: Seq<u64>,
    depth: nat,
)
    requires
        in_place(state),
    ensures
        in_place(state::macro_expanded(state, used, name, arguments, draws, depth).state),
    decreases depth, 0nat,
{
    match context::find_macro(state.macros, name) {
        Some(MacroModel::Instruction { parameters, contents, .. }) => {
            let fresh = macros::fresh_upto(name, contents, contents.len(), used, draws);
            match macros::instantiated_upto(
                fresh.contents,
                fresh.contents.len(),
                fresh.table,
                parameters,
                arguments,
                state.macros,
            ) {
                Ok(ops) => {
                    if depth > 0 {
                        ops_are_in_place(
                            state,
                            fresh.used,
                            ops,
                            ops.len(),
                            draws,
                            (depth - 1) as nat,
                        );
                    }
                },
                Err(_) => {},
            }
        },
        _ => {},
    }
}

proof fn ops_are_in_place(
    state: State,
    used: nat,
    ops: Seq<OpModel>,
    count: nat,
    draws: Seq<u64>,
    depth: nat,
)
    requires
        in_place(state),
    ensures
        in_place(state::ops_pushed(state, used, ops, count, draws, depth).state),
    decreases depth, count + 1,
{
    if count > 0 {
        let before = state::ops_pushed(state, used, ops, (count - 1) as nat, draws, depth);
        ops_are_in_place(state, used, ops, (count - 1) as nat, draws, depth);
        if before.failure is None {
            op_is_in_place(before.state, before.used, ops[count - 1], draws, depth);
        }
    }
}

/// Accepting items leaves everything in place.
pub proof fn program_is_in_place(
    state: State,
    used: nat,
    ops: Seq<RawModel>,
    count: nat,
    draws: Seq<u64>,
)
    requires
        in_place(state),
        count <= ops.len(),
    ensures
        in_place(state::raws_pushed(state, used, ops, count, draws).state),
    decreases count,
{
    if count > 0 {
        let before = state::raws_pushed(state, used, ops, (count - 1) as nat, draws);
        program_is_in_place(state, used, ops, (count - 1) as nat, draws);
        if before.failure is None {
            assert(state::raws_pushed(state, used, ops, count, draws) == state::raw_pushed(
                before.state,
                before.used,
                ops[count - 1],
                draws,
            ));
            match ops[count - 1] {
                RawModel::Op(op) => {
                    op_is_in_place(before.state, before.used, op, draws, NESTING_LIMIT as nat);
                },
                RawModel::Raw(bytes) => {
                    item_is_in_place(before.state, ItemModel::Raw(bytes), bytes.len());
                },
                RawModel::Scope(scope) => {
                    let inner = state::assembled(
                        state::new_state(None),
                        before.used,
                        scope,
                        draws,
                    ).result;
                    if inner is Ok {
                        let bytes = inner->Ok_0;
                        item_is_in_place(before.state, ItemModel::Raw(bytes), bytes.len());
                    }
                },
            }
        }
    }
}

/// A program without items is in place.
pub proof fn start_is_in_place(state: State)
    requires
        ready_for_program(state),
    ensures
        in_place(state),
{
}

/// What placing labels does: the labels of the program are where they stand, and the others stay.
proof fn placing_labels(state: State, count: nat)
    requires
        well_formed(state),
        count <= state.marks.len(),
        state::positions_fit(state.origin, state.ready, state.sizes),
    ensures
        ({
            let entries = state::labels_placed(state, count);
            &&& entries.len() == state.labels.len()
            &&& forall|i: int|
                0 <= i < entries.len() ==> (#[trigger] entries[i]).0 == state.labels[i].0 && (
                state.labels[i].1 is Some ==> entries[i].1 is Some)
            &&& forall|m: int|
                #![trigger state.marks[m]]
                0 <= m < count ==> stands_at(
                    entries,
                    state.marks[m].0 as int,
                    position_in(state, state.marks[m].1 as int),
                )
        }),
    decreases count,
{
    if count > 0 {
        placing_labels(state, (count - 1) as nat);
        let before = state::labels_placed(state, (count - 1) as nat);
        let entries = state::labels_placed(state, count);
        let (i, mark) = state.marks[count - 1];
        assert(state::position_at(state.origin, state.ready, state.sizes, mark as int)
            <= usize::MAX);
        assert forall|m: int|
            #![trigger state.marks[m]]
            0 <= m < count implies stands_at(
            entries,
            state.marks[m].0 as int,
            position_in(state, state.marks[m].1 as int),
        ) by {
            if m < count - 1 {
                assert(state.marks[m].0 < state.marks[count - 1].0);
            }
        }
    }
}

/// Placing the labels of a well-formed program puts everything in place.
pub proof fn placed_is_in_place(state: State)
    requires
        well_formed(state),
        state::placed(state).failure is None,
    ensures
        in_place(state::placed(state).state),
        state::placed(state).state == (State {
            labels: state::placed(state).state.labels,
            concrete_len: state::placed(state).state.concrete_len,
            ..state
        }),
        same_names(state.labels, state::placed(state).state.labels),
{
    let later = state::placed(state).state;
    placing_labels(state, state.marks.len());
    assert forall|k: int| #[trigger] position_in(later, k) == position_in(state, k) by {}
    assert(state::position_at(
        state.origin,
        state.ready,
        state.sizes,
        state.ready.len() as int,
    ) <= usize::MAX);
    well_formed_with_names(state, later);
}

/// The same labels in the same order; none of them has lost its position.
pub open spec fn same_names(
    entries: Seq<(Seq<char>, Option<LabelDef>)>,
    others: Seq<(Seq<char>, Option<LabelDef>)>,
) -> bool {
    &&& others.len() == entries.len()
    &&& forall|i: int|
        0 <= i < entries.len() ==> (#[trigger] others[i]).0 == entries[i].0 && (
        entries[i].1 is Some ==> others[i].1 is Some)
}

/// Names that are kept twice are kept.
pub proof fn same_names_go_on(
    first: Seq<(Seq<char>, Option<LabelDef>)>,
    second: Seq<(Seq<char>, Option<LabelDef>)>,
    third: Seq<(Seq<char>, Option<LabelDef>)>,
)
    requires
        same_names(first, second),
        same_names(second, third),
    ensures
        same_names(first, third),
{
    assert forall|i: int| 0 <= i < first.len() implies (#[trigger] third[i]).0 == first[i].0 && (
    first[i].1 is Some ==> third[i].1 is Some) by {
        assert(second[i].0 == first[i].0);
    }
}

/// Where the names are the same, no label is declared twice.
pub proof fn same_names_are_distinct(
    entries: Seq<(Seq<char>, Option<LabelDef>)>,
    others: Seq<(Seq<char>, Option<LabelDef>)>,
)
    requires
        laws::distinct_labels(entries),
        same_names(entries, others),
    ensures
        laws::distinct_labels(others),
{
    assert forall|i: int, j: int| 0 <= i < j < others.len() implies (#[trigger] others[i]).0 != (
    #[trigger] others[j]).0 by {
        assert(others[i].0 == entries[i].0);
        assert(others[j].0 == entries[j].0);
    }
}

pub proof fn well_formed_with_names(state: State, later: State)
    requires
        well_formed(state),
        later == (State { labels: later.labels, concrete_len: later.concrete_len, ..state }),
        same_names(state.labels, later.labels),
    ensures
        well_formed(later),
{
    same_names_are_distinct(state.labels, later.labels);
    assert forall|i: int| 0 <= i < later.ready.len() implies #[trigger] has_room(later, i) by {
        assert(has_room(state, i));
    }
    assert forall|i: int| 0 <= i < later.ready.len() && is_unsized(
        #[trigger] later.ready[i],
    ) implies is_listed(later, i) by {
        assert(state.ready[i] == later.ready[i]);
        if is_listed(state, i) {
            let j = choose|j: int| 0 <= j < state.pushes.len() && (#[trigger] state.pushes[j]).1 == i;
            assert(later.pushes[j].1 == i);
        }
    }
}

/// Where pushes are given more room, the program stays well-formed.
pub proof fn wider_is_well_formed(state: State, sizes: Seq<nat>)
    requires
        well_formed(state),
        state::no_smaller(state.sizes, sizes),
        forall|i: int|
            0 <= i < sizes.len() && #[trigger] sizes[i] != state.sizes[i] ==> is_unsized(
                state.ready[i],
            ),
    ensures
        well_formed(State { sizes, ..state }),
{
    let later = State { sizes, ..state };
    assert forall|i: int| 0 <= i < later.ready.len() implies #[trigger] has_room(later, i) by {
        assert(has_room(state, i));
        assert(sizes[i] == state.sizes[i] || state.sizes[i] < sizes[i] <= 33);
    }
    assert forall|i: int| 0 <= i < later.ready.len() && is_unsized(
        #[trigger] later.ready[i],
    ) implies is_listed(later, i) by {
        assert(state.ready[i] == later.ready[i]);
        if is_listed(state, i) {
            let j = choose|j: int| 0 <= j < state.pushes.len() && (#[trigger] state.pushes[j]).1 == i;
            assert(later.pushes[j].1 == i);
        }
    }
}

/// Giving pushes the room that they need leaves everything in place.
pub proof fn widening_is_in_place(state: State, count: nat)
    requires
        in_place(state),
        count <= state.pushes.len(),
        state::pushes_widened(state, count).failure is None,
    ensures
        in_place(state::pushes_widened(state, count).state),
        same_names(state.labels, state::pushes_widened(state, count).state.labels),
    decreases count,
{
    if count > 0 {
        let before = state::pushes_widened(state, (count - 1) as nat).state;
        widening_is_in_place(state, (count - 1) as nat);
        state::widening_grows(state, (count - 1) as nat);
        let (op, item) = state.pushes[count - 1];
        assert(before.pushes[count - 1] == state.pushes[count - 1]);
        match op {
            OpModel::Push(term) => match encode::value_of(term, before.labels, before.macros) {
                Ok(value) => {
                    let room = 1 + encode::width_needed(value);
                    if before.sizes[item as int] < room {
                        let sizes = before.sizes.update(item as int, room);
                        wider_is_well_formed(before, sizes);
                        placed_is_in_place(State { sizes, ..before });
                        same_names_go_on(
                            state.labels,
                            before.labels,
                            state::pushes_widened(state, count).state.labels,
                        );
                    }
                },
                Err(_) => {},
            },
            _ => {},
        }
    }
}

/// Whether each push without a size of its own has room for its value.
pub open spec fn pushes_have_room(state: State) -> bool {
    forall|j: int|
        0 <= j < state.pushes.len() ==> match encode::value_of(
            (#[trigger] state.pushes[j]).0->Push_0,
            state.labels,
            state.macros,
        ) {
            Ok(value) => 1 + encode::width_needed(value) <= state.sizes[state.pushes[j].1 as int],
            Err(_) => true,
        }
}

/// Where nothing was widened, everything had room.
proof fn unwidened_has_room(state: State, count: nat)
    requires
        in_place(state),
        count <= state.pushes.len(),
        state::pushes_widened(state, state.pushes.len()).failure is None,
        state::pushes_widened(state, state.pushes.len()).state.sizes == state.sizes,
    ensures
        state::pushes_widened(state, count) == (state::Outcome { state, failure: None }),
        forall|j: int|
            0 <= j < count ==> match encode::value_of(
                (#[trigger] state.pushes[j]).0->Push_0,
                state.labels,
                state.macros,
            ) {
                Ok(value) => 1 + encode::width_needed(value)
                    <= state.sizes[state.pushes[j].1 as int],
                Err(_) => true,
            },
    decreases count,
{
    if count > 0 {
        unwidened_has_room(state, (count - 1) as nat);
        let (op, item) = state.pushes[count - 1];
        widening_goes_on(state, count, state.pushes.len());
        let after = state::pushes_widened(state, count);
        match encode::value_of(op->Push_0, state.labels, state.macros) {
            Ok(value) => {
                let room = 1 + encode::width_needed(value);
                if state.sizes[item as int] < room {
                    assert(after.state.sizes[item as int] == room);
                    let all = state::pushes_widened(state, state.pushes.len()).state.sizes;
                    assert(all[item as int] == after.state.sizes[item as int]
                        || after.state.sizes[item as int] < all[item as int]);
                }
            },
            Err(_) => {},
        }
    }
}

/// Widening more pushes takes no room away.
proof fn widening_goes_on(state: State, low: nat, high: nat)
    requires
        low <= high,
        state::pushes_widened(state, high).failure is None,
    ensures
        state::pushes_widened(state, low).failure is None,
        state::no_smaller(
            state::pushes_widened(state, low).state.sizes,
            state::pushes_widened(state, high).state.sizes,
        ),
    decreases high,
{
    if low < high {
        widening_goes_on(state, low, (high - 1) as nat);
        let before = state::pushes_widened(state, (high - 1) as nat).state.sizes;
        let after = state::pushes_widened(state, high).state.sizes;
        assert(state::no_smaller(before, after));
        state::growing_goes_on(
            state::pushes_widened(state, low).state.sizes,
            before,
            after,
        );
    }
}

/// Once room was made, everything is in place and every push has the room that it needs.
pub proof fn backpatching_is_in_place(state: State)
    requires
        in_place(state),
        state::backpatched(state).failure is None,
    ensures
        in_place(state::backpatched(state).state),
        pushes_have_room(state::backpatched(state).state),
        same_names(state.labels, state::backpatched(state).state.labels),
    decreases state::slack(state.sizes),
{
    let after = state::pushes_widened(state, state.pushes.len());
    state::widening_grows(state, state.pushes.len());
    widening_is_in_place(state, state.pushes.len());
    if after.state.sizes == state.sizes {
        unwidened_has_room(state, state.pushes.len());
    } else {
        state::growing_takes_slack(state.sizes, after.state.sizes);
        backpatching_is_in_place(after.state);
        same_names_go_on(
            state.labels,
            after.state.labels,
            state::backpatched(state).state.labels,
        );
    }
}

/// Once room was made, making room changes nothing any more.
pub proof fn backpatching_is_final(state: State)
    requires
        state::backpatched(state).failure is None,
    ensures
        state::backpatched(state::backpatched(state).state) == state::backpatched(state),
    decreases state::slack(state.sizes),
{
    let after = state::pushes_widened(state, state.pushes.len());
    state::widening_grows(state, state.pushes.len());
    if after.state.sizes == state.sizes {
        unwidened_changes_nothing(state, state.pushes.len());
    } else {
        state::growing_takes_slack(state.sizes, after.state.sizes);
        backpatching_is_final(after.state);
    }
}

proof fn unwidened_changes_nothing(state: State, count: nat)
    requires
        count <= state.pushes.len(),
        state::pushes_widened(state, state.pushes.len()).failure is None,
        state::pushes_widened(state, state.pushes.len()).state.sizes == state.sizes,
    ensures
        state::pushes_widened(state, count) == (state::Outcome { state, failure: None }),
    decreases count,
{
    if count > 0 {
        unwidened_changes_nothing(state, (count - 1) as nat);
        widening_goes_on(state, count, state.pushes.len());
        let (op, item) = state.pushes[count - 1];
        let after = state::pushes_widened(state, count);
        let all = state::pushes_widened(state, state.pushes.len()).state.sizes;
        if op is Push && item < state.sizes.len() {
            match encode::value_of(op->Push_0, state.labels, state.macros) {
                Ok(value) => {
                    let room = 1 + encode::width_needed(value);
                    if state.sizes[item as int] < room {
                        assert(after.state.sizes[item as int] == room);
                        assert(all[item as int] == after.state.sizes[item as int]
                            || after.state.sizes[item as int] < all[item as int]);
                    }
                },
                Err(_) => {},
            }
        }
    }
}

/// What was emitted so far was emitted without failure.
pub proof fn emitted_before(state: State, count: nat, total: nat)
    requires
        count <= total,
        state::emitted(state, total).1 is Ok,
    ensures
        state::emitted(state, count).1 is Ok,
        state::emitted(state, count).1->Ok_0.is_prefix_of(state::emitted(state, total).1->Ok_0),
    decreases total,
{
    if count < total {
        emitted_before(state, count, (total - 1) as nat);
    }
}

/// Every item takes up the room that there is for it: the output of the first items is as long as
/// the position behind them says.
pub proof fn items_take_up_their_room(state: State, count: nat)
    requires
        well_formed(state),
        count <= state.ready.len(),
        state::emitted(state, count).1 is Ok,
    ensures
        state.origin + state::emitted(state, count).1->Ok_0.len() == position_in(
            state,
            count as int,
        ),
    decreases count,
{
    if count > 0 {
        emitted_before(state, (count - 1) as nat, count);
        items_take_up_their_room(state, (count - 1) as nat);
        assert(has_room(state, count - 1));
        match state.ready[count - 1] {
            ItemModel::Instruction(OpModel::Op { code, immediate: Some(term) }) => {
                match encode::value_of(term, state.labels, state.macros) {
                    Ok(value) => {
                        fixed_push_len(code, value);
                    },
                    Err(_) => {},
                }
            },
            ItemModel::Instruction(OpModel::Push(term)) => {
                match encode::value_of(term, state.labels, state.macros) {
                    Ok(value) => {
                        fixed_push_len((PUSH1 + state.sizes[count - 1] - 2) as u8, value);
                    },
                    Err(_) => {},
                }
            },
            _ => {},
        }
    }
}

/// Whether `pushes` are items that refer to labels, and the assembler chooses the size of those that
/// have none of their own.
pub open spec fn notes_are_items(state: State, pushes: Seq<PushRefModel>) -> bool {
    forall|j: int|
        #![trigger pushes[j]]
        0 <= j < pushes.len() ==> {
            &&& pushes[j].item < state.ready.len()
            &&& pushes[j].resizable == is_unsized(state.ready[pushes[j].item as int])
            &&& state.ready[pushes[j].item as int] matches ItemModel::Instruction(op)
            &&& encode::expression_in(op) == Some(pushes[j].expr)
            &&& state::refers_to_label(op, state.macros) == Ok::<bool, error::Fault>(true)
        }
}

/// The pushes that are noted while a program is emitted are items that refer to labels.
pub proof fn noted_pushes_are_items(state: State, count: nat)
    requires
        count <= state.ready.len(),
    ensures
        notes_are_items(state, state::emitted(state, count).0),
    decreases count,
{
    if count > 0 {
        noted_pushes_are_items(state, (count - 1) as nat);
        let before = state::emitted(state, (count - 1) as nat).0;
        let pushes = state::emitted(state, count).0;
        assert forall|j: int|
            #![trigger pushes[j]]
            0 <= j < pushes.len() implies {
            &&& pushes[j].item < state.ready.len()
            &&& pushes[j].resizable == is_unsized(state.ready[pushes[j].item as int])
            &&& state.ready[pushes[j].item as int] matches ItemModel::Instruction(op)
            &&& encode::expression_in(op) == Some(pushes[j].expr)
            &&& state::refers_to_label(op, state.macros) == Ok::<bool, error::Fault>(true)
        } by {
            if j < before.len() {
                assert(pushes[j] == before[j]);
            }
        }
    }
}

/// The pushes that are noted are all that refer to labels: where the output goes into a GIF file,
/// each instruction that refers to one is noted, once and in the order of the program.
pub proof fn noted_pushes_are_complete(state: State, count: nat, i: int)
    requires
        count <= state.ready.len(),
        state.offset is Some,
        state::emitted(state, count).1 is Ok,
        0 <= i < count,
        state.ready[i] matches ItemModel::Instruction(op) && state::refers_to_label(
            op,
            state.macros,
        ) == Ok::<bool, error::Fault>(true),
    ensures
        exists|j: int|
            0 <= j < state::emitted(state, count).0.len() && (#[trigger] state::emitted(
                state,
                count,
            ).0[j]).item == i,
    decreases count,
{
    emitted_before(state, (count - 1) as nat, count);
    let before = state::emitted(state, (count - 1) as nat).0;
    let pushes = state::emitted(state, count).0;
    if i < count - 1 {
        noted_pushes_are_complete(state, (count - 1) as nat, i);
        let j = choose|j: int| 0 <= j < before.len() && (#[trigger] before[j]).item == i;
        assert(pushes[j] == before[j]);
    } else {
        assert(pushes[before.len() as int].item == i);
    }
}

/// The pushes that are noted are in the order of the program.
pub proof fn noted_pushes_are_ordered(state: State, count: nat)
    ensures
        forall|j: int|
            0 <= j < state::emitted(state, count).0.len() ==> (#[trigger] state::emitted(
                state,
                count,
            ).0[j]).item < count,
        forall|j: int, k: int|
            0 <= j < k < state::emitted(state, count).0.len() ==> (#[trigger] state::emitted(
                state,
                count,
            ).0[j]).item < (#[trigger] state::emitted(state, count).0[k]).item,
    decreases count,
{
    if count > 0 {
        noted_pushes_are_ordered(state, (count - 1) as nat);
    }
}

/// Nothing is noted where the output does not go into a GIF file.
pub proof fn plain_output_notes_nothing(state: State, count: nat)
    requires
        state.offset is None,
    ensures
        state::emitted(state, count).0.len() == 0,
    decreases count,
{
    if count > 0 {
        plain_output_notes_nothing(state, (count - 1) as nat);
    }
}

/// Moving labels into a GIF file keeps their names.
pub proof fn relocating_keeps_names(
    state: State,
    count: nat,
    map: Map<usize, usize>,
    offset: u64,
)
    ensures
        same_names(state.labels, state::relocated(state, count, map, offset).0),
    decreases count,
{
    if count > 0 {
        relocating_keeps_names(state, (count - 1) as nat, map, offset);
    }
}

/// Only pushes without a size of their own are widened for a GIF file.
pub proof fn widening_for_gif_is_for_pushes(
    state: State,
    pushes: Seq<PushRefModel>,
    count: nat,
)
    requires
        count <= pushes.len(),
        notes_are_items(state, pushes),
        state.sizes.len() == state.ready.len(),
    ensures
        forall|i: int|
            0 <= i < state.sizes.len() && #[trigger] state::sizes_widened(
                state,
                pushes,
                count,
            )[i] != state.sizes[i] ==> is_unsized(state.ready[i]),
    decreases count,
{
    if count > 0 {
        widening_for_gif_is_for_pushes(state, pushes, (count - 1) as nat);
        state::widening_for_gif_grows(state, pushes, (count - 1) as nat);
        assert(pushes[count - 1].item < state.ready.len());
    }
}

/// A program that is laid out is in place, every push has the room that it needs, and laying it
/// out again changes nothing.
pub proof fn laying_out_is_in_place(state: State)
    requires
        in_place(state),
        state::laid_out(state).failure is None,
    ensures
        ({
            let layout = state::laid_out(state).state;
            &&& in_place(layout)
            &&& pushes_have_room(layout)
            &&& same_names(state.labels, layout.labels)
            &&& layout == (State {
                sizes: layout.sizes,
                labels: layout.labels,
                concrete_len: layout.concrete_len,
                ..state
            })
            &&& state::laid_out(layout) == state::laid_out(state)
            &&& state::backpatched(layout) == (state::Outcome { state: layout, failure: None })
        }),
    decreases state::slack(state.sizes),
{
    let plain = state::backpatched(state);
    state::backpatching_grows(state);
    let (pushes, output) = state::emitted(plain.state, plain.state.ready.len());
    if plain.failure is None {
        backpatching_is_in_place(state);
        backpatching_is_final(state);
        match (output, state.offset) {
            (Ok(bytes), Some(offset)) => {
                let in_gif = state::moved_to_gif(plain.state, bytes, offset);
                let sizes = state::sizes_widened(in_gif.state, pushes, pushes.len());
                if in_gif.failure is None && sizes != in_gif.state.sizes {
                    relocating_keeps_names(
                        plain.state,
                        plain.state.marks.len(),
                        evmgif::map_of(bytes),
                        offset,
                    );
                    well_formed_with_names(plain.state, in_gif.state);
                    noted_pushes_are_items(plain.state, plain.state.ready.len());
                    assert(notes_are_items(in_gif.state, pushes));
                    state::widening_for_gif_grows(in_gif.state, pushes, pushes.len());
                    widening_for_gif_is_for_pushes(in_gif.state, pushes, pushes.len());
                    wider_is_well_formed(in_gif.state, sizes);
                    let after = state::resized(in_gif.state, sizes);
                    placed_is_in_place(State { sizes, ..in_gif.state });
                    state::growing_takes_slack(plain.state.sizes, sizes);
                    state::growing_takes_slack(state.sizes, plain.state.sizes);
                    laying_out_is_in_place(after.state);
                    same_names_go_on(state.labels, plain.state.labels, in_gif.state.labels);
                    same_names_go_on(state.labels, in_gif.state.labels, after.state.labels);
                    same_names_go_on(
                        state.labels,
                        after.state.labels,
                        state::laid_out(state).state.labels,
                    );
                }
            },
            _ => {},
        }
    }
}

/// In a GIF file as well, every push without a size of its own has room for its value.
pub proof fn pushes_have_room_in_gif(state: State, bytes: Seq<u8>, offset: u64)
    requires
        in_place(state),
        state.offset == Some(offset),
        state::laid_out(state).failure is None,
        ({
            let layout = state::laid_out(state).state;
            &&& state::emitted(layout, layout.ready.len()).1 == Ok::<
                Seq<u8>,
                error::FailureModel,
            >(bytes)
            &&& state::moved_to_gif(layout, bytes, offset).failure is None
        }),
    ensures
        ({
            let layout = state::laid_out(state).state;
            let pushes = state::emitted(layout, layout.ready.len()).0;
            let in_gif = state::moved_to_gif(layout, bytes, offset).state;
            &&& state::sizes_widened(in_gif, pushes, pushes.len()) == in_gif.sizes
        }),
    decreases state::slack(state.sizes),
{
    let plain = state::backpatched(state);
    state::backpatching_grows(state);
    laying_out_is_in_place(state);
    let (pushes, output) = state::emitted(plain.state, plain.state.ready.len());
    match output {
        Ok(unpacked) => {
            let in_gif = state::moved_to_gif(plain.state, unpacked, offset);
            let sizes = state::sizes_widened(in_gif.state, pushes, pushes.len());
            if in_gif.failure is None && sizes != in_gif.state.sizes {
                backpatching_is_in_place(state);
                relocating_keeps_names(
                    plain.state,
                    plain.state.marks.len(),
                    evmgif::map_of(unpacked),
                    offset,
                );
                well_formed_with_names(plain.state, in_gif.state);
                noted_pushes_are_items(plain.state, plain.state.ready.len());
                assert(notes_are_items(in_gif.state, pushes));
                state::widening_for_gif_grows(in_gif.state, pushes, pushes.len());
                widening_for_gif_is_for_pushes(in_gif.state, pushes, pushes.len());
                wider_is_well_formed(in_gif.state, sizes);
                let after = state::resized(in_gif.state, sizes);
                placed_is_in_place(State { sizes, ..in_gif.state });
                state::growing_takes_slack(plain.state.sizes, sizes);
                state::growing_takes_slack(state.sizes, plain.state.sizes);
                pushes_have_room_in_gif(after.state, bytes, offset);
            }
        },
        Err(_) => {},
    }
}

/// Defining macros changes nothing else.
pub proof fn definitions_change_macros_only(state: State, ops: Seq<RawModel>, count: nat)
    ensures
        state::macros_declared(state, ops, count).state == (State {
            macros: state::macros_declared(state, ops, count).state.macros,
            ..state
        }),
    decreases count,
{
    if count > 0 {
        definitions_change_macros_only(state, ops, (count - 1) as nat);
    }
}

/// The state after the first `count` of `ops` were accepted, starting with the definitions among
/// all of them.
pub open spec fn accepted_program(
    state: State,
    used: nat,
    ops: Seq<RawModel>,
    count: nat,
    draws: Seq<u64>,
) -> State {
    state::raws_pushed(
        state::macros_declared(state, ops, ops.len()).state,
        used,
        ops,
        count,
        draws,
    ).state
}

/// The program `ops` as it is laid out.
pub open spec fn layout_of(
    state: State,
    used: nat,
    ops: Seq<RawModel>,
    draws: Seq<u64>,
) -> State {
    state::laid_out(accepted_program(state, used, ops, ops.len(), draws)).state
}

/// The output of the first `count` items of the program `ops`, before it goes into a GIF file.
pub open spec fn output_upto(
    state: State,
    used: nat,
    ops: Seq<RawModel>,
    draws: Seq<u64>,
    count: nat,
) -> Seq<u8> {
    state::emitted(
        layout_of(state, used, ops, draws),
        accepted_program(state, used, ops, count, draws).ready.len(),
    ).1->Ok_0
}

/// The label that an item declares.
pub open spec fn label_of(op: RawModel) -> Option<Seq<char>> {
    match op {
        RawModel::Op(OpModel::Label(label)) => Some(label),
        _ => None,
    }
}

/// Where the output goes, and which macros there are, does not change the places.
pub proof fn places_are_kept(state: State, later: State)
    requires
        in_place(state),
        later == (State { macros: later.macros, offset: later.offset, ..state }),
    ensures
        in_place(later),
{
    assert forall|i: int| 0 <= i < later.ready.len() implies #[trigger] has_room(later, i) by {
        assert(has_room(state, i));
    }
    assert forall|i: int| 0 <= i < later.ready.len() && is_unsized(
        #[trigger] later.ready[i],
    ) implies is_listed(later, i) by {
        assert(is_listed(state, i));
        let j = choose|j: int| 0 <= j < state.pushes.len() && (#[trigger] state.pushes[j]).1 == i;
        assert(later.pushes[j].1 == i);
    }
    assert forall|k: int| #[trigger] position_in(later, k) == position_in(state, k) by {}
}

/// Defining macros leaves everything in place.
proof fn definitions_keep_places(state: State, ops: Seq<RawModel>)
    requires
        in_place(state),
    ensures
        in_place(state::macros_declared(state, ops, ops.len()).state),
        state::macros_declared(state, ops, ops.len()).state.origin == state.origin,
        state::macros_declared(state, ops, ops.len()).state.offset == state.offset,
{
    definitions_change_macros_only(state, ops, ops.len());
    places_are_kept(state, state::macros_declared(state, ops, ops.len()).state);
}

/// The layout of a program is in place.
pub proof fn program_layout_is_in_place(
    state: State,
    used: nat,
    ops: Seq<RawModel>,
    draws: Seq<u64>,
)
    requires
        in_place(state),
        state::assembled(state, used, ops, draws).result is Ok,
    ensures
        ({
            let layout = layout_of(state, used, ops, draws);
            let output = state::emitted(layout, layout.ready.len()).1;
            &&& in_place(layout)
            &&& pushes_have_room(layout)
            &&& output is Ok
            &&& layout.ready == accepted_program(state, used, ops, ops.len(), draws).ready
            &&& layout.origin == state.origin
            &&& layout.offset == state.offset
            &&& state.origin + output->Ok_0.len() == layout.concrete_len
            &&& state::assembled(state, used, ops, draws).state.concrete_len == layout.concrete_len
            &&& state.offset is None ==> {
                &&& state::assembled(state, used, ops, draws).result == output
                &&& state::assembled(state, used, ops, draws).state.labels == layout.labels
            }
        }),
{
    let declared = state::macros_declared(state, ops, ops.len());
    definitions_keep_places(state, ops);
    program_is_in_place(declared.state, used, ops, ops.len(), draws);
    progress::raws_continue(declared.state, used, ops, 0, ops.len(), draws);
    let program = accepted_program(state, used, ops, ops.len(), draws);
    laying_out_is_in_place(program);
    let layout = layout_of(state, used, ops, draws);
    items_take_up_their_room(layout, layout.ready.len());
}

/// Labels point at what follows them: where a program was assembled, the position of each label
/// that it declares is the offset of the output of the items behind the label. The position behind
/// the last item is the one behind the output.
pub proof fn labels_resolve(
    state: State,
    used: nat,
    ops: Seq<RawModel>,
    draws: Seq<u64>,
    k: int,
)
    requires
        in_place(state),
        state::assembled(state, used, ops, draws).result is Ok,
        0 <= k < ops.len(),
        label_of(ops[k]) is Some,
    ensures
        ({
            let layout = layout_of(state, used, ops, draws);
            let output = state::emitted(layout, layout.ready.len()).1->Ok_0;
            let bytes = output_upto(state, used, ops, draws, k as nat);
            let def = labels::label_lookup(layout.labels, label_of(ops[k])->0);
            &&& bytes.is_prefix_of(output)
            &&& def is Some && def->0 is Some
            &&& def->0->0.position == state.origin + bytes.len()
            &&& state.offset is None ==> {
                &&& state::assembled(state, used, ops, draws).result == Ok::<
                    Seq<u8>,
                    error::FailureModel,
                >(output)
                &&& labels::label_lookup(
                    state::assembled(state, used, ops, draws).state.labels,
                    label_of(ops[k])->0,
                ) == def
            }
        }),
{
    mark_of_label(state, used, ops, draws, k);
}

/// Where the label that the item at index `k` declares stands among the marks.
pub proof fn mark_of_label(
    state: State,
    used: nat,
    ops: Seq<RawModel>,
    draws: Seq<u64>,
    k: int,
) -> (m: int)
    requires
        in_place(state),
        state::assembled(state, used, ops, draws).result is Ok,
        0 <= k < ops.len(),
        label_of(ops[k]) is Some,
    ensures
        ({
            let layout = layout_of(state, used, ops, draws);
            let output = state::emitted(layout, layout.ready.len()).1->Ok_0;
            let bytes = output_upto(state, used, ops, draws, k as nat);
            let i = layout.marks[m].0 as int;
            &&& 0 <= m < layout.marks.len()
            &&& 0 <= i < layout.labels.len()
            &&& layout.labels[i].0 == label_of(ops[k])->0
            &&& stands_at(layout.labels, i, state.origin + bytes.len())
            &&& labels::label_lookup(layout.labels, label_of(ops[k])->0) == Some(
                layout.labels[i].1,
            )
            &&& bytes.is_prefix_of(output)
            &&& state.offset is None ==> {
                &&& state::assembled(state, used, ops, draws).result == Ok::<
                    Seq<u8>,
                    error::FailureModel,
                >(output)
                &&& state::assembled(state, used, ops, draws).state.labels == layout.labels
            }
        }),
{
    let declared = state::macros_declared(state, ops, ops.len());
    let label = label_of(ops[k])->0;
    program_layout_is_in_place(state, used, ops, draws);
    let program = accepted_program(state, used, ops, ops.len(), draws);
    definitions_keep_places(state, ops);
    program_is_in_place(declared.state, used, ops, ops.len(), draws);
    laying_out_is_in_place(program);
    let layout = layout_of(state, used, ops, draws);
    progress::raws_continue(declared.state, used, ops, k as nat, (k + 1) as nat, draws);
    progress::raws_continue(declared.state, used, ops, (k + 1) as nat, ops.len(), draws);
    let before = state::raws_pushed(declared.state, used, ops, k as nat, draws);
    let after = state::raws_pushed(declared.state, used, ops, (k + 1) as nat, draws);
    assert(after == state::raw_pushed(before.state, before.used, ops[k], draws));
    let m = before.state.marks.len() as int;
    let i = before.state.labels.len() as int;
    assert(after.state.marks[m] == (before.state.labels.len(), before.state.ready.len()));
    assert(program.marks[m] == after.state.marks[m]);
    assert(after.state.labels[i].0 == label);
    assert(program.labels[i] == after.state.labels[i]);
    assert(layout.labels[i].0 == program.labels[i].0);
    assert(layout.marks[m].1 <= layout.ready.len());
    emitted_before(layout, layout.marks[m].1, layout.ready.len());
    items_take_up_their_room(layout, layout.marks[m].1);
    laws::label_found(layout.labels, i);
    m
}

/// Labels behind a directive `.org` count from its offset: the position of such a label is the
/// offset plus the number of bytes between the directive and the label.
pub proof fn labels_count_from_org(
    state: State,
    used: nat,
    ops: Seq<RawModel>,
    draws: Seq<u64>,
    directive: int,
    offset: nat,
    k: int,
)
    requires
        in_place(state),
        state::assembled(state, used, ops, draws).result is Ok,
        0 <= directive < k < ops.len(),
        ops[directive] == RawModel::Op(OpModel::Org(offset)),
        label_of(ops[k]) is Some,
    ensures
        ({
            let layout = layout_of(state, used, ops, draws);
            let upto_org = output_upto(state, used, ops, draws, (directive + 1) as nat);
            let upto_label = output_upto(state, used, ops, draws, k as nat);
            let def = labels::label_lookup(layout.labels, label_of(ops[k])->0);
            &&& upto_org.is_prefix_of(upto_label)
            &&& state.origin + upto_org.len() == offset
            &&& def is Some && def->0 is Some
            &&& def->0->0.position == offset + (upto_label.len() - upto_org.len())
        }),
{
    labels_resolve(state, used, ops, draws, k);
    program_layout_is_in_place(state, used, ops, draws);
    let declared = state::macros_declared(state, ops, ops.len());
    let layout = layout_of(state, used, ops, draws);
    let before = state::raws_pushed(declared.state, used, ops, directive as nat, draws);
    let after = state::raws_pushed(declared.state, used, ops, (directive + 1) as nat, draws);
    let then = state::raws_pushed(declared.state, used, ops, k as nat, draws);
    progress::raws_continue(
        declared.state,
        used,
        ops,
        directive as nat,
        (directive + 1) as nat,
        draws,
    );
    progress::raws_continue(declared.state, used, ops, (directive + 1) as nat, k as nat, draws);
    progress::raws_continue(declared.state, used, ops, k as nat, ops.len(), draws);
    assert(after == state::raw_pushed(before.state, before.used, ops[directive], draws));
    let item = before.state.ready.len();
    assert(after.state.ready[item as int] == ItemModel::Org(offset));
    assert(then.state.ready[item as int] == after.state.ready[item as int]);
    assert(layout.ready[item as int] == then.state.ready[item as int]);
    emitted_before(layout, then.state.ready.len(), layout.ready.len());
    emitted_before(layout, item + 1, then.state.ready.len());
    laws::org_fills_with_zeros(layout, item, offset);
}

/// After a program was assembled, the assembler is ready for the next one; and an item that is
/// refused leaves everything in place.
pub proof fn assembler_goes_on(
    state: State,
    used: nat,
    ops: Seq<RawModel>,
    draws: Seq<u64>,
)
    requires
        in_place(state),
    ensures
        state::assembled(state, used, ops, draws).result is Ok ==> ready_for_program(
            state::assembled(state, used, ops, draws).state,
        ),
        in_place(state::macros_declared(state, ops, ops.len()).state),
        in_place(accepted_program(state, used, ops, ops.len(), draws)),
{
    let declared = state::macros_declared(state, ops, ops.len());
    definitions_keep_places(state, ops);
    program_is_in_place(declared.state, used, ops, ops.len(), draws);
    if state::assembled(state, used, ops, draws).result is Ok {
        program_layout_is_in_place(state, used, ops, draws);
        let layout = layout_of(state, used, ops, draws);
        match (state::emitted(layout, layout.ready.len()).1, layout.offset) {
            (Ok(bytes), Some(offset)) => {
                let entries = state::moved_to_gif(layout, bytes, offset).state.labels;
                relocating_keeps_names(
                    layout,
                    layout.marks.len(),
                    evmgif::map_of(bytes),
                    offset,
                );
                same_names_are_distinct(layout.labels, entries);
            },
            _ => {},
        }
    }
}

/// All labels point at what follows them, those of macro expansions as well: in a program that was
/// assembled, each label stands where the output of the items behind it starts.
pub proof fn all_labels_resolve(
    state: State,
    used: nat,
    ops: Seq<RawModel>,
    draws: Seq<u64>,
    m: int,
)
    requires
        in_place(state),
        state::assembled(state, used, ops, draws).result is Ok,
        0 <= m < layout_of(state, used, ops, draws).marks.len(),
    ensures
        ({
            let layout = layout_of(state, used, ops, draws);
            let output = state::emitted(layout, layout.ready.len()).1->Ok_0;
            let front = state::emitted(layout, layout.marks[m].1).1;
            &&& front is Ok
            &&& front->Ok_0.is_prefix_of(output)
            &&& stands_at(
                layout.labels,
                layout.marks[m].0 as int,
                state.origin + front->Ok_0.len(),
            )
        }),
{
    program_layout_is_in_place(state, used, ops, draws);
    let layout = layout_of(state, used, ops, draws);
    assert(layout.marks[m].1 <= layout.ready.len());
    emitted_before(layout, layout.marks[m].1, layout.ready.len());
    items_take_up_their_room(layout, layout.marks[m].1);
}

/// Pushes carry the final values: in the output of a program, the bytes of each instruction with an
/// expression hold the value that the expression has with the labels where they ended up.
pub proof fn pushes_carry_final_values(state: State, i: int, op: OpModel)
    requires
        0 <= i < state.ready.len(),
        state.ready[i] == ItemModel::Instruction(op),
        encode::expression_in(op) is Some,
        state::emitted(state, state.ready.len()).1 is Ok,
    ensures
        ({
            let output = state::emitted(state, state.ready.len()).1->Ok_0;
            let front = state::emitted(state, i as nat).1->Ok_0.len();
            let value = encode::value_of(
                encode::expression_in(op)->0,
                state.labels,
                state.macros,
            );
            let size = opcode::instruction_size(output[front as int]);
            &&& front + size <= output.len()
            &&& value is Ok
            &&& integer::be_value(output.subrange(front as int + 1, front + size as int)) == value->Ok_0
            &&& op matches OpModel::Op { code, .. } ==> output[front as int] == code
        }),
{
    let output = state::emitted(state, state.ready.len()).1->Ok_0;
    emitted_before(state, (i + 1) as nat, state.ready.len());
    emitted_before(state, i as nat, (i + 1) as nat);
    let front = state::emitted(state, i as nat).1->Ok_0;
    let upto = state::emitted(state, (i + 1) as nat).1->Ok_0;
    laws::roomy_pushes_carry_their_value(op, state.sizes[i], state.labels, state.macros);
    let bytes = encode::encoding_in(op, state.sizes[i], state.labels, state.macros)->Ok_0;
    assert(upto == front + bytes);
    assert(output[front.len() as int] == upto[front.len() as int]);
    assert(output.subrange(front.len() as int + 1, front.len() + bytes.len() as int)
        =~= bytes.skip(1)) by {
        assert forall|k: int| front.len() + 1 <= k < front.len() + bytes.len() implies output[k]
            == bytes[k - front.len()] by {
            assert(output[k] == upto[k]);
        }
    }
}

/// Whether the item at index `i` has bytes: an instruction can be encoded in its room, and the
/// directive `.org` does not go back.
pub open spec fn resolves(state: State, i: int) -> bool {
    match state.ready[i] {
        ItemModel::Raw(_) => true,
        ItemModel::Org(offset) => position_in(state, i) <= offset && position_in(state, i)
            <= usize::MAX,
        ItemModel::Instruction(op) => {
            &&& encode::encoding_in(op, state.sizes[i], state.labels, state.macros) is Ok
            &&& state.offset is Some ==> state::refers_to_label(op, state.macros) is Ok
        },
    }
}

/// The bytes of the item at index `i`.
pub open spec fn item_bytes(state: State, i: int) -> Seq<u8> {
    match state.ready[i] {
        ItemModel::Raw(bytes) => bytes,
        ItemModel::Org(offset) => Seq::new(
            (offset - position_in(state, i)) as nat,
            |k: int| 0u8,
        ),
        ItemModel::Instruction(op) => encode::encoding_in(
            op,
            state.sizes[i],
            state.labels,
            state.macros,
        )->Ok_0,
    }
}

/// The bytes of the first `count` items, one behind the other.
pub open spec fn bytes_upto(state: State, count: nat) -> Seq<u8>
    decreases count,
{
    if count == 0 {
        Seq::empty()
    } else {
        bytes_upto(state, (count - 1) as nat) + item_bytes(state, count - 1)
    }
}

/// A program has an output if and only if each of its items has bytes, and the output is these
/// bytes, joined in the order of the items.
pub proof fn items_are_joined(state: State, count: nat)
    requires
        well_formed(state),
        count <= state.ready.len(),
    ensures
        state::emitted(state, count).1 is Ok <==> forall|i: int|
            0 <= i < count ==> #[trigger] resolves(state, i),
        state::emitted(state, count).1 is Ok ==> state::emitted(state, count).1->Ok_0
            == bytes_upto(state, count),
    decreases count,
{
    if count > 0 {
        let last = (count - 1) as nat;
        items_are_joined(state, last);
        if state::emitted(state, last).1 is Ok {
            items_take_up_their_room(state, last);
            assert(state::emitted(state, count).1 is Ok <==> resolves(state, last as int));
        } else {
            let i = choose|i: int| 0 <= i < last && !#[trigger] resolves(state, i);
            assert(!resolves(state, i));
        }
    }
}

} // verus!
