//! Programs in a GIF file: every push that refers to a label carries what the label stands for in
//! the file.

use vstd::prelude::*;

use crate::context;
use crate::context::{EvalErrorModel, NESTING_LIMIT};
use crate::encode;
use crate::error::Fault;
use crate::evmgif;
use crate::expression::Term;
use crate::integer;
use crate::laws;
use crate::opcode::JUMPDEST;
use crate::ops::{MacroModel, OpModel, RawModel};
use crate::packing;
use crate::placement;
use crate::progress;
use crate::state;
use crate::state::{ItemModel, PushRefModel, State};

verus! {

/// Whether `term` refers to a label, in an expression macro that it uses or by itself.
pub open spec fn mentions_label(term: Term, macros: Seq<MacroModel>) -> bool {
    match context::labels_in(term, macros, NESTING_LIMIT as nat) {
        Ok(used_labels) => used_labels.len() > 0,
        Err(_) => false,
    }
}

/// The pushes that are noted stand where the output of their items starts.
proof fn notes_stand_at_their_items(state: State, count: nat)
    requires
        count <= state.ready.len(),
    ensures
        forall|j: int|
            #![trigger state::emitted(state, count).0[j]]
            0 <= j < state::emitted(state, count).0.len() ==> {
                let push = state::emitted(state, count).0[j];
                &&& push.item < count
                &&& state::emitted(state, push.item).1 is Ok
                &&& push.unchunked_op_pos == state::emitted(state, push.item).1->Ok_0.len()
            },
    decreases count,
{
    if count > 0 {
        notes_stand_at_their_items(state, (count - 1) as nat);
    }
}

/// The noted push of the item at index `i`, which refers to a label.
proof fn note_of(state: State, i: int, op: OpModel, term: Term) -> (j: int)
    requires
        state.offset is Some,
        state::emitted(state, state.ready.len()).1 is Ok,
        0 <= i < state.ready.len(),
        state.ready[i] == ItemModel::Instruction(op),
        encode::expression_in(op) == Some(term),
        mentions_label(term, state.macros),
    ensures
        ({
            let pushes = state::emitted(state, state.ready.len()).0;
            &&& 0 <= j < pushes.len()
            &&& pushes[j].expr == term
            &&& pushes[j].unchunked_op_pos == state::emitted(state, i as nat).1->Ok_0.len()
        }),
{
    let count = state.ready.len();
    let pushes = state::emitted(state, count).0;
    placement::noted_pushes_are_complete(state, count, i);
    placement::noted_pushes_are_items(state, count);
    notes_stand_at_their_items(state, count);
    let j = choose|j: int| 0 <= j < pushes.len() && (#[trigger] pushes[j]).item == i;
    assert(pushes[j].item == i);
    assert(encode::expression_in(op) == Some(pushes[j].expr));
    j
}

/// What is written for `value` is read as `value`.
proof fn padded_digits_are_read(value: nat, width: nat)
    requires
        integer::be_bytes(value).len() <= width,
    ensures
        integer::be_value(encode::padded(integer::be_bytes(value), width)) == value,
        encode::padded(integer::be_bytes(value), width).len() == width,
{
    let digits = integer::be_bytes(value);
    integer::be_bytes_represent(value);
    laws::leading_zeros_vanish((width - digits.len()) as nat, digits);
}

/// Whether the push at `front` of the program `bytes` carries in the file `out` the value that
/// `term` has with the labels of `after`.
pub open spec fn carries_file_value(
    out: Seq<u8>,
    bytes: Seq<u8>,
    front: int,
    term: Term,
    after: State,
) -> bool {
    let at = evmgif::chunked_position(evmgif::headers_of(bytes), front);
    let width = bytes[front] - 0x5f;
    &&& 0 <= front < bytes.len()
    &&& 1 <= width <= 32
    &&& 0 <= at && at + 1 + width <= out.len()
    &&& out[at] == bytes[front]
    &&& encode::value_of(term, after.labels, after.macros) == Ok::<int, EvalErrorModel>(
        integer::be_value(out.subrange(at + 1, at + 1 + width)) as int,
    )
}

proof fn noted_push_carries_file_value(
    out: Seq<u8>,
    bytes: Seq<u8>,
    pushes: Seq<PushRefModel>,
    after: State,
    j: int,
)
    requires
        packing::pushes_stand(pushes, bytes),
        0 <= j < pushes.len(),
        packing::immediate_holds(out, bytes, pushes[j], after.labels, after.macros),
        !packing::in_immediate(
            pushes,
            pushes.len() as int,
            pushes[j].unchunked_op_pos as int,
        ) ==> out[packing::op_position(bytes, pushes[j])]
            == bytes[pushes[j].unchunked_op_pos as int],
    ensures
        carries_file_value(
            out,
            bytes,
            pushes[j].unchunked_op_pos as int,
            pushes[j].expr,
            after,
        ),
{
    let push = pushes[j];
    let position = push.unchunked_op_pos as int;
    assert(!packing::in_immediate(pushes, pushes.len() as int, position)) by {
        if packing::in_immediate(pushes, pushes.len() as int, position) {
            let k = choose|k: int|
                0 <= k < pushes.len() && (#[trigger] pushes[k]).unchunked_op_pos < position
                    <= pushes[k].unchunked_op_pos + pushes[k].imm_size;
            if k < j {
                assert(pushes[k].unchunked_op_pos + pushes[k].imm_size
                    < pushes[j].unchunked_op_pos);
            } else if j < k {
                assert(pushes[j].unchunked_op_pos + pushes[j].imm_size
                    < pushes[k].unchunked_op_pos);
            }
        }
    }
    let value = encode::value_of(push.expr, after.labels, after.macros)->Ok_0;
    padded_digits_are_read(value as nat, push.imm_size);
}

/// In a GIF file, every instruction whose expression refers to a label, in an expression macro as
/// well, carries the value of its expression with the labels where they are in the file.
pub proof fn label_pushes_point_into_the_file(
    state: State,
    used: nat,
    ops: Seq<RawModel>,
    draws: Seq<u64>,
    offset: u64,
    i: int,
    op: OpModel,
    term: Term,
)
    requires
        placement::in_place(state),
        state.offset == Some(offset),
        state::assembled(state, used, ops, draws).result is Ok,
        0 <= i < placement::layout_of(state, used, ops, draws).ready.len(),
        placement::layout_of(state, used, ops, draws).ready[i] == ItemModel::Instruction(op),
        encode::expression_in(op) == Some(term),
        mentions_label(term, placement::layout_of(state, used, ops, draws).macros),
    ensures
        ({
            let layout = placement::layout_of(state, used, ops, draws);
            let assembly = state::assembled(state, used, ops, draws);
            carries_file_value(
                assembly.result->Ok_0,
                packing::program_of(state, used, ops, draws),
                state::emitted(layout, i as nat).1->Ok_0.len() as int,
                term,
                assembly.state,
            )
        }),
{
    let layout = placement::layout_of(state, used, ops, draws);
    let assembly = state::assembled(state, used, ops, draws);
    let bytes = packing::program_of(state, used, ops, draws);
    let pushes = packing::pushes_of(state, used, ops, draws);
    placement::program_layout_is_in_place(state, used, ops, draws);
    packing::program_in_gif(state, used, ops, draws, offset);
    packing::noted_pushes_stand(layout, layout.ready.len());
    let j = note_of(layout, i, op, term);
    assert(packing::immediate_holds(
        assembly.result->Ok_0,
        bytes,
        pushes[j],
        assembly.state.labels,
        assembly.state.macros,
    ));
    noted_push_carries_file_value(assembly.result->Ok_0, bytes, pushes, assembly.state, j);
}

/// The same of an instruction of the program itself.
pub proof fn instructions_point_into_the_file(
    state: State,
    used: nat,
    ops: Seq<RawModel>,
    draws: Seq<u64>,
    offset: u64,
    k: int,
    op: OpModel,
    term: Term,
)
    requires
        placement::in_place(state),
        state.offset == Some(offset),
        state::assembled(state, used, ops, draws).result is Ok,
        0 <= k < ops.len(),
        ops[k] == RawModel::Op(op),
        op is Op || op is Push,
        encode::expression_in(op) == Some(term),
        mentions_label(term, state::assembled(state, used, ops, draws).state.macros),
    ensures
        ({
            let assembly = state::assembled(state, used, ops, draws);
            carries_file_value(
                assembly.result->Ok_0,
                packing::program_of(state, used, ops, draws),
                placement::output_upto(state, used, ops, draws, k as nat).len() as int,
                term,
                assembly.state,
            )
        }),
{
    let declared = state::macros_declared(state, ops, ops.len()).state;
    let layout = placement::layout_of(state, used, ops, draws);
    let before = state::raws_pushed(declared, used, ops, k as nat, draws);
    let after = state::raws_pushed(declared, used, ops, (k + 1) as nat, draws);
    progress::raws_continue(declared, used, ops, k as nat, (k + 1) as nat, draws);
    progress::raws_continue(declared, used, ops, (k + 1) as nat, ops.len(), draws);
    assert(after == state::raw_pushed(before.state, before.used, ops[k], draws));
    let i = before.state.ready.len() as int;
    assert(after.state.ready[i] == ItemModel::Instruction(op));
    placement::program_layout_is_in_place(state, used, ops, draws);
    assert(layout.ready[i] == after.state.ready[i]);
    macros_stay(state, used, ops, draws);
    label_pushes_point_into_the_file(state, used, ops, draws, offset, i, op, term);
}

/// The macros that are known after a program was assembled are those that it was laid out with.
pub proof fn macros_stay(state: State, used: nat, ops: Seq<RawModel>, draws: Seq<u64>)
    requires
        placement::in_place(state),
        state::assembled(state, used, ops, draws).result is Ok,
    ensures
        state::assembled(state, used, ops, draws).state.macros == placement::layout_of(
            state,
            used,
            ops,
            draws,
        ).macros,
{
    placement::program_layout_is_in_place(state, used, ops, draws);
}

/// Labels are moved into a GIF file if and only if each of them stands at the start of an
/// instruction or at the end of the program, and its position in the file is one.
pub proof fn labels_need_places_in_the_file(
    state: State,
    count: nat,
    map: Map<usize, usize>,
    offset: u64,
)
    requires
        placement::in_place(state),
        count <= state.marks.len(),
    ensures
        state::relocated(state, count, map, offset).1 is None <==> forall|m: int|
            0 <= m < count ==> has_place(state, #[trigger] state.marks[m].1, map, offset),
        state::relocated(state, count, map, offset).1 matches Some(fault) ==> (fault
            == Fault::LabelInsideInstruction || fault == Fault::OffsetOverflow),
    decreases count,
{
    if count > 0 {
        let last = (count - 1) as nat;
        labels_need_places_in_the_file(state, last, map, offset);
        let before = state::relocated(state, last, map, offset);
        if before.1 is None {
            packing::labels_are_relocated(state, last, map, offset);
            let i = state.marks[count - 1].0 as int;
            assert forall|m: int| 0 <= m < last implies (#[trigger] state.marks[m]).0 != i by {
                assert(state.marks[m].0 < state.marks[count - 1].0);
            }
            assert(before.0[i] == state.labels[i]);
            assert(placement::stands_at(
                state.labels,
                i,
                placement::position_in(state, state.marks[count - 1].1 as int),
            ));
        }
    }
}

/// Whether a label behind the first `count` items has a position in the file.
pub open spec fn has_place(state: State, count: nat, map: Map<usize, usize>, offset: u64) -> bool {
    let at = placement::position_in(state, count as int) - state.origin;
    &&& 0 <= at
    &&& map.contains_key(at as usize)
    &&& map[at as usize] + offset <= usize::MAX
}

/// Which positions of a program have one in the output: that of the leading `JUMPDEST`, those where
/// an instruction starts, and the end.
pub proof fn instructions_and_the_end_have_places(bytes: Seq<u8>, position: usize)
    requires
        bytes.len() <= usize::MAX,
    ensures
        evmgif::map_of(bytes).contains_key(position) <==> position == 0 || position == bytes.len()
            || exists|i: int|
            0 < i < evmgif::instruction_starts(bytes).len()
                && #[trigger] evmgif::instruction_starts(bytes)[i] == position,
{
}

/// What makes a program unfit for a GIF file, before its pushes are looked at.
pub proof fn programs_are_moved_to_the_file(state: State, bytes: Seq<u8>, offset: u64)
    requires
        placement::in_place(state),
    ensures
        ({
            let moved = state::moved_to_gif(state, bytes, offset);
            &&& moved.failure is None <==> {
                &&& bytes.len() > 0
                &&& bytes[0] == JUMPDEST
                &&& bytes.len() + 3 * evmgif::headers_of(bytes).len() + 11 <= usize::MAX
                &&& forall|m: int|
                    0 <= m < state.marks.len() ==> has_place(
                        state,
                        #[trigger] state.marks[m].1,
                        evmgif::map_of(bytes),
                        offset,
                    )
            }
            &&& bytes.len() > 0 && bytes[0] == JUMPDEST && moved.failure is Some
                ==> moved.failure->0 is Fault
        }),
{
    labels_need_places_in_the_file(
        state,
        state.marks.len(),
        evmgif::map_of(bytes),
        offset,
    );
}

/// Where the program goes into a file, the output is what comes out of the file: pushes without
/// labels are copied, with all other bytes.
pub proof fn other_bytes_are_copied(
    state: State,
    used: nat,
    ops: Seq<RawModel>,
    draws: Seq<u64>,
    offset: u64,
    i: int,
    position: int,
)
    requires
        placement::in_place(state),
        state.offset == Some(offset),
        state::assembled(state, used, ops, draws).result is Ok,
        ({
            let layout = placement::layout_of(state, used, ops, draws);
            &&& 0 <= i < layout.ready.len()
            &&& state::emitted(layout, i as nat).1->Ok_0.len() <= position < state::emitted(
                layout,
                (i + 1) as nat,
            ).1->Ok_0.len()
            &&& layout.ready[i] matches ItemModel::Instruction(op) ==> match encode::expression_in(
                op,
            ) {
                Some(term) => !mentions_label(term, layout.macros),
                None => true,
            }
        }),
    ensures
        ({
            let bytes = packing::program_of(state, used, ops, draws);
            let out = state::assembled(state, used, ops, draws).result->Ok_0;
            &&& 0 <= position < bytes.len()
            &&& out[evmgif::chunked_position(evmgif::headers_of(bytes), position)]
                == bytes[position]
        }),
{
    let layout = placement::layout_of(state, used, ops, draws);
    let count = layout.ready.len();
    let pushes = packing::pushes_of(state, used, ops, draws);
    placement::program_layout_is_in_place(state, used, ops, draws);
    packing::program_in_gif(state, used, ops, draws, offset);
    packing::noted_pushes_stand(layout, count);
    notes_stand_at_their_items(layout, count);
    placement::noted_pushes_are_items(layout, count);
    placement::emitted_before(layout, (i + 1) as nat, count);
    placement::emitted_before(layout, i as nat, count);
    if packing::in_immediate(pushes, pushes.len() as int, position) {
        let j = choose|j: int|
            0 <= j < pushes.len() && (#[trigger] pushes[j]).unchunked_op_pos < position
                <= pushes[j].unchunked_op_pos + pushes[j].imm_size;
        let item = pushes[j].item;
        assert(item < count);
        notes_end_with_their_items(layout, count, j);
        if item < i {
            placement::emitted_before(layout, i as nat, count);
            placement::emitted_before(layout, item + 1, i as nat);
        } else if item > i {
            placement::emitted_before(layout, item, count);
            placement::emitted_before(layout, (i + 1) as nat, item);
        }
        assert(item == i);
    }
}

/// The bytes of a noted push end where the output of its item does.
proof fn notes_end_with_their_items(state: State, count: nat, j: int)
    requires
        count <= state.ready.len(),
        0 <= j < state::emitted(state, count).0.len(),
    ensures
        ({
            let push = state::emitted(state, count).0[j];
            &&& push.item < count
            &&& state::emitted(state, push.item + 1).1 is Ok
            &&& push.unchunked_op_pos + 1 + push.imm_size == state::emitted(
                state,
                push.item + 1,
            ).1->Ok_0.len()
        }),
    decreases count,
{
    if count > 0 {
        let before = state::emitted(state, (count - 1) as nat).0;
        if j < before.len() {
            notes_end_with_their_items(state, (count - 1) as nat, j);
            assert(state::emitted(state, count).0[j] == before[j]);
        } else {
            match state.ready[count - 1] {
                ItemModel::Instruction(op) => {
                    laws::roomy_pushes_carry_their_value(
                        op,
                        state.sizes[count - 1],
                        state.labels,
                        state.macros,
                    );
                },
                _ => {},
            }
        }
    }
}

/// A label that the program declares stands in the file behind `offset`, where the instruction
/// behind the label starts; and a push that refers to it goes there.
pub proof fn pushes_of_a_label_hit_it(
    state: State,
    used: nat,
    ops: Seq<RawModel>,
    draws: Seq<u64>,
    offset: u64,
    k: int,
    target: int,
    op: OpModel,
    label: Seq<char>,
)
    requires
        placement::in_place(state),
        state.offset == Some(offset),
        state::assembled(state, used, ops, draws).result is Ok,
        0 <= k < ops.len(),
        0 <= target < ops.len(),
        ops[k] == RawModel::Op(op),
        op is Op || op is Push,
        encode::expression_in(op) == Some(Term::Label(label)),
        ops[target] == RawModel::Op(OpModel::Label(label)),
    ensures
        ({
            let out = state::assembled(state, used, ops, draws).result->Ok_0;
            let bytes = packing::program_of(state, used, ops, draws);
            let headers = evmgif::headers_of(bytes);
            let front = placement::output_upto(state, used, ops, draws, k as nat).len() as int;
            let goal = placement::output_upto(state, used, ops, draws, target as nat).len() as int;
            let at = evmgif::chunked_position(headers, front);
            let width = bytes[front] - 0x5f;
            &&& 0 <= at && at + 1 + width <= out.len()
            &&& integer::be_value(out.subrange(at + 1, at + 1 + width))
                == evmgif::chunked_position(headers, goal) + offset
        }),
{
    let assembly = state::assembled(state, used, ops, draws);
    assert(mentions_label(Term::Label(label), assembly.state.macros));
    instructions_point_into_the_file(
        state,
        used,
        ops,
        draws,
        offset,
        k,
        op,
        Term::Label(label),
    );
    packing::labels_resolve_in_gif(state, used, ops, draws, offset, target);
}

} // verus!
