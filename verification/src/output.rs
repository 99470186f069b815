//! What an output is, item by item: the bytes of a program, told from the program alone.

use vstd::prelude::*;

use crate::context;
use crate::context::{EvalErrorModel, NESTING_LIMIT};
use crate::encode;
use crate::error::FailureModel;
use crate::expression::Term;
use crate::integer;
use crate::labels;
use crate::labels::LabelDef;
use crate::laws;
use crate::macros;
use crate::ops::{MacroModel, OpModel, RawModel};
use crate::placement;
use crate::progress;
use crate::state;
use crate::state::{ItemModel, State};
use crate::substitution;

verus! {

/// Whether `bytes` are a push of the value of `term`: an opcode from `0x60` to `0x7f`, and behind it
/// as many bytes as the opcode says, whose value in base 256 is that of `term`.
pub open spec fn is_push_of(
    bytes: Seq<u8>,
    term: Term,
    entries: Seq<(Seq<char>, Option<LabelDef>)>,
    macros: Seq<MacroModel>,
) -> bool {
    &&& bytes.len() > 0
    &&& 0x60 <= bytes[0] <= 0x7f
    &&& bytes.len() == bytes[0] - 0x5f + 1
    &&& encode::value_of(term, entries, macros) == Ok::<int, EvalErrorModel>(
        integer::be_value(bytes.skip(1)) as int,
    )
}

/// Whether `bytes` are those of the instruction `op`: its opcode alone, or a push of its expression
/// with that opcode, or any push of its expression where it has no size of its own.
pub open spec fn is_instruction(
    bytes: Seq<u8>,
    op: OpModel,
    entries: Seq<(Seq<char>, Option<LabelDef>)>,
    macros: Seq<MacroModel>,
) -> bool {
    match op {
        OpModel::Op { code, immediate: None } => bytes == seq![code],
        OpModel::Op { code, immediate: Some(term) } => is_push_of(bytes, term, entries, macros)
            && bytes[0] == code,
        OpModel::Push(term) => is_push_of(bytes, term, entries, macros),
        _ => false,
    }
}

/// Whether `cuts` are offsets of `bytes` in ascending order, from its start to its end, that part it
/// into `count` pieces.
pub open spec fn parts(bytes: Seq<u8>, cuts: Seq<int>, count: nat) -> bool {
    &&& cuts.len() == count + 1
    &&& cuts[0] == 0
    &&& cuts[count as int] == bytes.len()
    &&& forall|i: int, j: int|
        0 <= i <= j <= count ==> 0 <= #[trigger] cuts[i] <= #[trigger] cuts[j] <= bytes.len()
}

/// Whether `bytes` are what `op` is assembled to at `position`:
/// - nothing for a label, which stands for `position`, and for the definition of a macro;
/// - zeros up to its offset for the directive `.org`;
/// - the instruction for an instruction;
/// - what its items are assembled to for the use of a macro.
pub open spec fn is_written(
    bytes: Seq<u8>,
    position: nat,
    op: OpModel,
    entries: Seq<(Seq<char>, Option<LabelDef>)>,
    macros: Seq<MacroModel>,
    draws: Seq<u64>,
    depth: nat,
) -> bool
    decreases depth, 2nat,
{
    match op {
        OpModel::Label(label) => {
            let def = labels::label_lookup(entries, label);
            &&& bytes.len() == 0
            &&& def is Some && def->0 is Some
            &&& def->0->0.position == position
        },
        OpModel::MacroDefinition(_) => bytes.len() == 0,
        OpModel::Org(offset) => {
            &&& position + bytes.len() == offset
            &&& forall|i: int| 0 <= i < bytes.len() ==> #[trigger] bytes[i] == 0
        },
        OpModel::Macro(name, arguments) => is_written_out(
            bytes,
            position,
            name,
            arguments,
            entries,
            macros,
            draws,
            depth,
        ),
        _ => is_instruction(bytes, op, entries, macros),
    }
}

/// Whether `bytes` are what the items of the macro `name` are assembled to, with the given
/// arguments.
pub open spec fn is_written_out(
    bytes: Seq<u8>,
    position: nat,
    name: Seq<char>,
    arguments: Seq<Term>,
    entries: Seq<(Seq<char>, Option<LabelDef>)>,
    macros: Seq<MacroModel>,
    draws: Seq<u64>,
    depth: nat,
) -> bool
    decreases depth, 1nat,
{
    match context::find_macro(macros, name) {
        Some(MacroModel::Instruction { parameters, contents, .. }) => {
            &&& depth > 0
            &&& parameters.len() == arguments.len()
            &&& exists|ops: Seq<OpModel>, table: Seq<(Seq<char>, Seq<char>)>, used: nat|
                #[trigger] substitution::expands(
                    ops,
                    name,
                    contents,
                    table,
                    parameters,
                    arguments,
                    macros,
                    used,
                    draws,
                ) && are_written(
                    bytes,
                    position,
                    ops,
                    entries,
                    macros,
                    draws,
                    (depth - 1) as nat,
                )
        },
        _ => false,
    }
}

/// Whether `bytes` are what `ops` are assembled to, one behind the other, from `position` on.
pub open spec fn are_written(
    bytes: Seq<u8>,
    position: nat,
    ops: Seq<OpModel>,
    entries: Seq<(Seq<char>, Option<LabelDef>)>,
    macros: Seq<MacroModel>,
    draws: Seq<u64>,
    depth: nat,
) -> bool
    decreases depth, 3nat,
{
    exists|cuts: Seq<int>|
        #[trigger] parts(bytes, cuts, ops.len()) && forall|i: int|
            #![trigger ops[i]]
            0 <= i < ops.len() ==> is_written(
                bytes.subrange(cuts[i], cuts[i + 1]),
                (position + cuts[i]) as nat,
                ops[i],
                entries,
                macros,
                draws,
                depth,
            )
}

/// Whether `bytes` are what `op` is assembled to at `position`: bytes are placed as they are, and a
/// scope is the output of its program.
pub open spec fn raw_is_written(
    bytes: Seq<u8>,
    position: nat,
    op: RawModel,
    entries: Seq<(Seq<char>, Option<LabelDef>)>,
    macros: Seq<MacroModel>,
    draws: Seq<u64>,
) -> bool {
    match op {
        RawModel::Op(op) => is_written(
            bytes,
            position,
            op,
            entries,
            macros,
            draws,
            NESTING_LIMIT as nat,
        ),
        RawModel::Raw(raw) => bytes == raw,
        RawModel::Scope(ops) => exists|used: nat|
            (#[trigger] state::assembled(state::new_state(None), used, ops, draws)).result == Ok::<
                Seq<u8>,
                FailureModel,
            >(bytes),
    }
}

/// Whether `bytes` are what the program `ops` is assembled to from `position` on, each item behind
/// the one before it.
pub open spec fn program_is_written(
    bytes: Seq<u8>,
    position: nat,
    ops: Seq<RawModel>,
    entries: Seq<(Seq<char>, Option<LabelDef>)>,
    macros: Seq<MacroModel>,
    draws: Seq<u64>,
) -> bool {
    exists|cuts: Seq<int>|
        #[trigger] parts(bytes, cuts, ops.len()) && forall|k: int|
            #![trigger ops[k]]
            0 <= k < ops.len() ==> raw_is_written(
                bytes.subrange(cuts[k], cuts[k + 1]),
                (position + cuts[k]) as nat,
                ops[k],
                entries,
                macros,
                draws,
            )
}

/// An instruction has the bytes that it should, in whatever room there is for it.
pub proof fn encodings_are_instructions(
    op: OpModel,
    room: nat,
    entries: Seq<(Seq<char>, Option<LabelDef>)>,
    macros: Seq<MacroModel>,
)
    requires
        op is Op || op is Push,
        encode::encoding_in(op, room, entries, macros) is Ok,
    ensures
        is_instruction(
            encode::encoding_in(op, room, entries, macros)->Ok_0,
            op,
            entries,
            macros,
        ),
{
    if encode::expression_in(op) is Some {
        laws::roomy_pushes_carry_their_value(op, room, entries, macros);
    }
}

/// An instruction without an expression is its opcode, one byte, wherever it stands.
pub proof fn plain_instructions_are_their_opcode(
    code: u8,
    room: nat,
    entries: Seq<(Seq<char>, Option<LabelDef>)>,
    macros: Seq<MacroModel>,
)
    ensures
        ({
            let op = OpModel::Op { code, immediate: None };
            let bytes = encode::encoding_in(op, room, entries, macros);
            &&& bytes is Ok
            &&& bytes->Ok_0.len() == 1
            &&& bytes->Ok_0[0] == code
            &&& encode::encoding(op, entries, macros) == bytes
        }),
{
}

/// In the output of a program, an instruction without an expression stands as its opcode.
pub proof fn opcodes_stand_in_the_output(state: State, i: int, code: u8)
    requires
        0 <= i < state.ready.len(),
        state.ready[i] == ItemModel::Instruction(OpModel::Op { code, immediate: None }),
        state::emitted(state, state.ready.len()).1 is Ok,
    ensures
        ({
            let output = state::emitted(state, state.ready.len()).1->Ok_0;
            let front = state::emitted(state, i as nat).1->Ok_0.len() as int;
            let next = state::emitted(state, (i + 1) as nat).1->Ok_0.len() as int;
            &&& next == front + 1 <= output.len()
            &&& output[front] == code
        }),
{
    let output = state::emitted(state, state.ready.len()).1->Ok_0;
    placement::emitted_before(state, (i + 1) as nat, state.ready.len());
    placement::emitted_before(state, i as nat, (i + 1) as nat);
    let front = state::emitted(state, i as nat).1->Ok_0;
    let upto = state::emitted(state, (i + 1) as nat).1->Ok_0;
    plain_instructions_are_their_opcode(code, state.sizes[i], state.labels, state.macros);
    assert(upto =~= front.push(code));
    assert(output[front.len() as int] == upto[front.len() as int]);
}

/// Whether `part` was laid out in `layout`: its items stand in front, and its labels have their
/// names there.
spec fn is_part(part: State, layout: State) -> bool {
    &&& part.ready.is_prefix_of(layout.ready)
    &&& part.marks.is_prefix_of(layout.marks)
    &&& part.labels.len() <= layout.labels.len()
    &&& forall|i: int|
        0 <= i < part.labels.len() ==> (#[trigger] layout.labels[i]).0 == part.labels[i].0
    &&& part.macros == layout.macros
    &&& part.origin == layout.origin
}

/// The length of the output of the first `count` items.
spec fn length_upto(layout: State, count: nat) -> int {
    state::emitted(layout, count).1->Ok_0.len() as int
}

/// The output of the items from index `from` up to `upto`.
spec fn piece(layout: State, from: nat, upto: nat) -> Seq<u8> {
    state::emitted(layout, layout.ready.len()).1->Ok_0.subrange(
        length_upto(layout, from),
        length_upto(layout, upto),
    )
}

proof fn pieces_fit(layout: State, from: nat, upto: nat)
    requires
        from <= upto <= layout.ready.len(),
        state::emitted(layout, layout.ready.len()).1 is Ok,
    ensures
        0 <= length_upto(layout, from) <= length_upto(layout, upto) <= state::emitted(
            layout,
            layout.ready.len(),
        ).1->Ok_0.len(),
{
    placement::emitted_before(layout, upto, layout.ready.len());
    placement::emitted_before(layout, from, upto);
}

/// The output of one item.
proof fn piece_of_item(layout: State, i: nat)
    requires
        placement::in_place(layout),
        i < layout.ready.len(),
        state::emitted(layout, layout.ready.len()).1 is Ok,
    ensures
        piece(layout, i, i + 1) == placement::item_bytes(layout, i as int),
        layout.origin + length_upto(layout, i) == placement::position_in(layout, i as int),
        layout.origin + length_upto(layout, i + 1) == placement::position_in(
            layout,
            i as int + 1,
        ),
        placement::resolves(layout, i as int),
{
    let output = state::emitted(layout, layout.ready.len()).1->Ok_0;
    pieces_fit(layout, i, i + 1);
    placement::emitted_before(layout, i + 1, layout.ready.len());
    placement::emitted_before(layout, i, i + 1);
    placement::items_are_joined(layout, i + 1);
    placement::items_are_joined(layout, i);
    placement::items_take_up_their_room(layout, i);
    placement::items_take_up_their_room(layout, i + 1);
    let front = placement::bytes_upto(layout, i);
    let bytes = placement::item_bytes(layout, i as int);
    let upto = placement::bytes_upto(layout, i + 1);
    assert(placement::resolves(layout, i as int));
    assert(upto == front + bytes);
    assert forall|k: int| front.len() <= k < upto.len() implies output[k] == bytes[k
        - front.len()] by {
        assert(output[k] == upto[k]);
    }
    assert(piece(layout, i, i + 1) =~= bytes);
}

proof fn part_before(first: State, second: State, layout: State)
    requires
        progress::continues(first, second),
        is_part(second, layout),
    ensures
        is_part(first, layout),
{
    assert forall|i: int| 0 <= i < first.labels.len() implies (#[trigger] layout.labels[i]).0
        == first.labels[i].0 by {
        assert(second.labels[i] == first.labels[i]);
    }
}

proof fn label_is_written(state: State, label: Seq<char>, layout: State, draws: Seq<u64>, depth: nat)
    requires
        placement::in_place(state),
        placement::in_place(layout),
        state::emitted(layout, layout.ready.len()).1 is Ok,
        state::label_declared(state, label).failure is None,
        is_part(state::label_declared(state, label).state, layout),
    ensures
        is_written(
            piece(layout, state.ready.len(), state.ready.len()),
            (layout.origin + length_upto(layout, state.ready.len())) as nat,
            OpModel::Label(label),
            layout.labels,
            layout.macros,
            draws,
            depth,
        ),
{
    let later = state::label_declared(state, label).state;
    let m = state.marks.len() as int;
    let i = state.labels.len() as int;
    assert(later.marks[m] == (state.labels.len(), state.ready.len()));
    assert(layout.marks[m] == later.marks[m]);
    assert(later.labels[i].0 == label);
    assert(layout.labels[i].0 == label);
    pieces_fit(layout, state.ready.len(), state.ready.len());
    placement::emitted_before(layout, state.ready.len(), layout.ready.len());
    placement::items_take_up_their_room(layout, state.ready.len());
    laws::label_found(layout.labels, i);
}

/// What was accepted for one item is written for it.
proof fn op_is_written(
    state: State,
    used: nat,
    op: OpModel,
    draws: Seq<u64>,
    depth: nat,
    layout: State,
)
    requires
        placement::in_place(state),
        placement::in_place(layout),
        state::emitted(layout, layout.ready.len()).1 is Ok,
        state::op_pushed(state, used, op, draws, depth).failure is None,
        is_part(state::op_pushed(state, used, op, draws, depth).state, layout),
    ensures
        is_written(
            piece(
                layout,
                state.ready.len(),
                state::op_pushed(state, used, op, draws, depth).state.ready.len(),
            ),
            (layout.origin + length_upto(layout, state.ready.len())) as nat,
            op,
            layout.labels,
            layout.macros,
            draws,
            depth,
        ),
    decreases depth, 1nat,
{
    let later = state::op_pushed(state, used, op, draws, depth).state;
    let count = state.ready.len();
    match op {
        OpModel::Label(label) => {
            label_is_written(state, label, layout, draws, depth);
        },
        OpModel::MacroDefinition(_) => {
            pieces_fit(layout, count, count);
        },
        OpModel::Macro(name, arguments) => {
            macro_is_written(state, used, name, arguments, draws, depth, layout);
        },
        OpModel::Org(offset) => {
            assert(later.ready[count as int] == ItemModel::Org(offset));
            assert(layout.ready[count as int] == later.ready[count as int]);
            piece_of_item(layout, count);
        },
        _ => {
            assert(later.ready[count as int] == ItemModel::Instruction(op));
            assert(layout.ready[count as int] == later.ready[count as int]);
            piece_of_item(layout, count);
            encodings_are_instructions(
                op,
                layout.sizes[count as int],
                layout.labels,
                layout.macros,
            );
        },
    }
}

proof fn macro_is_written(
    state: State,
    used: nat,
    name: Seq<char>,
    arguments: Seq<Term>,
    draws: Seq<u64>,
    depth: nat,
    layout: State,
)
    requires
        placement::in_place(state),
        placement::in_place(layout),
        state::emitted(layout, layout.ready.len()).1 is Ok,
        state::macro_expanded(state, used, name, arguments, draws, depth).failure is None,
        is_part(state::macro_expanded(state, used, name, arguments, draws, depth).state, layout),
    ensures
        is_written_out(
            piece(
                layout,
                state.ready.len(),
                state::macro_expanded(
                    state,
                    used,
                    name,
                    arguments,
                    draws,
                    depth,
                ).state.ready.len(),
            ),
            (layout.origin + length_upto(layout, state.ready.len())) as nat,
            name,
            arguments,
            layout.labels,
            layout.macros,
            draws,
            depth,
        ),
    decreases depth, 0nat,
{
    let step = state::macro_expanded(state, used, name, arguments, draws, depth);
    substitution::macros_are_expanded(state, used, name, arguments, draws, depth);
    match context::find_macro(state.macros, name) {
        Some(MacroModel::Instruction { parameters, contents, .. }) => {
            let (ops, table) = choose|ops: Seq<OpModel>, table: Seq<(Seq<char>, Seq<char>)>|
                #[trigger] substitution::expands(
                    ops,
                    name,
                    contents,
                    table,
                    parameters,
                    arguments,
                    state.macros,
                    used,
                    draws,
                ) && step == state::ops_pushed(
                    state,
                    used + substitution::labels_before(contents, contents.len() as int),
                    ops,
                    ops.len(),
                    draws,
                    (depth - 1) as nat,
                );
            let next = used + substitution::labels_before(contents, contents.len() as int);
            progress::macro_continues(state, used, name, arguments, draws, depth);
            ops_are_written(state, next, ops, draws, (depth - 1) as nat, layout);
            assert(substitution::expands(
                ops,
                name,
                contents,
                table,
                parameters,
                arguments,
                layout.macros,
                used,
                draws,
            ));
            assert(layout.macros == state.macros);
            assert(are_written(
                piece(layout, state.ready.len(), step.state.ready.len()),
                (layout.origin + length_upto(layout, state.ready.len())) as nat,
                ops,
                layout.labels,
                layout.macros,
                draws,
                (depth - 1) as nat,
            ));
        },
        _ => {},
    }
}

/// The state after the first `count` of `ops`.
spec fn after_ops(
    state: State,
    used: nat,
    ops: Seq<OpModel>,
    count: nat,
    draws: Seq<u64>,
    depth: nat,
) -> State {
    state::ops_pushed(state, used, ops, count, draws, depth).state
}

proof fn ops_reach(
    state: State,
    used: nat,
    ops: Seq<OpModel>,
    low: nat,
    high: nat,
    draws: Seq<u64>,
    depth: nat,
)
    requires
        low <= high,
        state::ops_pushed(state, used, ops, high, draws, depth).failure is None,
    ensures
        state::ops_pushed(state, used, ops, low, draws, depth).failure is None,
        progress::continues(
            after_ops(state, used, ops, low, draws, depth),
            after_ops(state, used, ops, high, draws, depth),
        ),
    decreases high,
{
    if low < high {
        let before = state::ops_pushed(state, used, ops, (high - 1) as nat, draws, depth);
        ops_reach(state, used, ops, low, (high - 1) as nat, draws, depth);
        progress::op_continues(before.state, before.used, ops[high - 1], draws, depth);
        progress::continues_on(
            after_ops(state, used, ops, low, draws, depth),
            before.state,
            after_ops(state, used, ops, high, draws, depth),
        );
    }
}

proof fn ops_in_place(
    state: State,
    used: nat,
    ops: Seq<OpModel>,
    count: nat,
    draws: Seq<u64>,
    depth: nat,
)
    requires
        placement::in_place(state),
    ensures
        placement::in_place(after_ops(state, used, ops, count, draws, depth)),
    decreases count,
{
    if count > 0 {
        let before = state::ops_pushed(state, used, ops, (count - 1) as nat, draws, depth);
        ops_in_place(state, used, ops, (count - 1) as nat, draws, depth);
        if before.failure is None {
            placement::op_is_in_place(
                before.state,
                before.used,
                ops[count - 1],
                draws,
                depth,
            );
        }
    }
}

/// A piece of a piece.
proof fn piece_in_piece(layout: State, first: nat, low: nat, high: nat, last: nat)
    requires
        first <= low <= high <= last <= layout.ready.len(),
        state::emitted(layout, layout.ready.len()).1 is Ok,
    ensures
        piece(layout, first, last).subrange(
            length_upto(layout, low) - length_upto(layout, first),
            length_upto(layout, high) - length_upto(layout, first),
        ) == piece(layout, low, high),
        0 <= length_upto(layout, low) - length_upto(layout, first) <= length_upto(layout, high)
            - length_upto(layout, first) <= piece(layout, first, last).len(),
        piece(layout, first, last).len() == length_upto(layout, last) - length_upto(
            layout,
            first,
        ),
{
    pieces_fit(layout, first, low);
    pieces_fit(layout, low, high);
    pieces_fit(layout, high, last);
    assert(piece(layout, first, last).subrange(
        length_upto(layout, low) - length_upto(layout, first),
        length_upto(layout, high) - length_upto(layout, first),
    ) =~= piece(layout, low, high));
}

proof fn ops_are_written(
    state: State,
    used: nat,
    ops: Seq<OpModel>,
    draws: Seq<u64>,
    depth: nat,
    layout: State,
)
    requires
        placement::in_place(state),
        placement::in_place(layout),
        state::emitted(layout, layout.ready.len()).1 is Ok,
        state::ops_pushed(state, used, ops, ops.len(), draws, depth).failure is None,
        is_part(after_ops(state, used, ops, ops.len(), draws, depth), layout),
        progress::continues(state, after_ops(state, used, ops, ops.len(), draws, depth)),
    ensures
        are_written(
            piece(
                layout,
                state.ready.len(),
                after_ops(state, used, ops, ops.len(), draws, depth).ready.len(),
            ),
            (layout.origin + length_upto(layout, state.ready.len())) as nat,
            ops,
            layout.labels,
            layout.macros,
            draws,
            depth,
        ),
    decreases depth, 2nat,
{
    let last = after_ops(state, used, ops, ops.len(), draws, depth);
    let first = state.ready.len();
    let bytes = piece(layout, first, last.ready.len());
    let position = (layout.origin + length_upto(layout, first)) as nat;
    let cuts = Seq::new(
        ops.len() + 1,
        |i: int|
            length_upto(
                layout,
                after_ops(state, used, ops, i as nat, draws, depth).ready.len(),
            ) - length_upto(layout, first),
    );
    assert(after_ops(state, used, ops, 0, draws, depth) == state);
    assert forall|i: int, j: int| 0 <= i <= j <= ops.len() implies 0 <= #[trigger] cuts[i]
        <= #[trigger] cuts[j] <= bytes.len() by {
        ops_reach(state, used, ops, j as nat, ops.len(), draws, depth);
        ops_reach(state, used, ops, i as nat, j as nat, draws, depth);
        ops_reach(state, used, ops, 0, i as nat, draws, depth);
        piece_in_piece(
            layout,
            first,
            after_ops(state, used, ops, i as nat, draws, depth).ready.len(),
            after_ops(state, used, ops, j as nat, draws, depth).ready.len(),
            last.ready.len(),
        );
    }
    ops_reach(state, used, ops, 0, ops.len(), draws, depth);
    piece_in_piece(layout, first, first, last.ready.len(), last.ready.len());
    assert(parts(bytes, cuts, ops.len()));
    assert forall|i: int|
        #![trigger ops[i]]
        0 <= i < ops.len() implies is_written(
        bytes.subrange(cuts[i], cuts[i + 1]),
        (position + cuts[i]) as nat,
        ops[i],
        layout.labels,
        layout.macros,
        draws,
        depth,
    ) by {
        let before = state::ops_pushed(state, used, ops, i as nat, draws, depth);
        let after = state::ops_pushed(state, used, ops, (i + 1) as nat, draws, depth);
        ops_reach(state, used, ops, (i + 1) as nat, ops.len(), draws, depth);
        ops_reach(state, used, ops, i as nat, (i + 1) as nat, draws, depth);
        ops_reach(state, used, ops, 0, i as nat, draws, depth);
        ops_in_place(state, used, ops, i as nat, draws, depth);
        part_before(after.state, last, layout);
        assert(after == state::op_pushed(before.state, before.used, ops[i], draws, depth));
        op_is_written(before.state, before.used, ops[i], draws, depth, layout);
        piece_in_piece(
            layout,
            first,
            before.state.ready.len(),
            after.state.ready.len(),
            last.ready.len(),
        );
    }
}

proof fn raw_is_written_for(
    state: State,
    used: nat,
    op: RawModel,
    draws: Seq<u64>,
    layout: State,
)
    requires
        placement::in_place(state),
        placement::in_place(layout),
        state::emitted(layout, layout.ready.len()).1 is Ok,
        state::raw_pushed(state, used, op, draws).failure is None,
        is_part(state::raw_pushed(state, used, op, draws).state, layout),
    ensures
        raw_is_written(
            piece(
                layout,
                state.ready.len(),
                state::raw_pushed(state, used, op, draws).state.ready.len(),
            ),
            (layout.origin + length_upto(layout, state.ready.len())) as nat,
            op,
            layout.labels,
            layout.macros,
            draws,
        ),
{
    let later = state::raw_pushed(state, used, op, draws).state;
    let count = state.ready.len();
    match op {
        RawModel::Op(op) => {
            op_is_written(state, used, op, draws, NESTING_LIMIT as nat, layout);
        },
        RawModel::Raw(bytes) => {
            assert(later.ready[count as int] == ItemModel::Raw(bytes));
            assert(layout.ready[count as int] == later.ready[count as int]);
            piece_of_item(layout, count);
        },
        RawModel::Scope(ops) => {
            let inner = state::assembled(state::new_state(None), used, ops, draws);
            assert(later.ready[count as int] == ItemModel::Raw(inner.result->Ok_0));
            assert(layout.ready[count as int] == later.ready[count as int]);
            piece_of_item(layout, count);
        },
    }
}

/// What a program is assembled to: the output, before it goes into a GIF file, is that of its items,
/// one behind the other, each as [`raw_is_written`] says.
pub proof fn programs_are_written(
    state: State,
    used: nat,
    ops: Seq<RawModel>,
    draws: Seq<u64>,
)
    requires
        placement::ready_for_program(state),
        state::assembled(state, used, ops, draws).result is Ok,
    ensures
        ({
            let layout = placement::layout_of(state, used, ops, draws);
            let bytes = state::emitted(layout, layout.ready.len()).1;
            let after = state::assembled(state, used, ops, draws);
            &&& bytes is Ok
            &&& program_is_written(
                bytes->Ok_0,
                state.origin,
                ops,
                layout.labels,
                layout.macros,
                draws,
            )
            &&& after.state.macros == layout.macros
            &&& state.offset is None ==> after.result == bytes && after.state.labels
                == layout.labels
        }),
{
    let declared = state::macros_declared(state, ops, ops.len()).state;
    let layout = placement::layout_of(state, used, ops, draws);
    let program = placement::accepted_program(state, used, ops, ops.len(), draws);
    placement::start_is_in_place(state);
    placement::definitions_change_macros_only(state, ops, ops.len());
    placement::start_is_in_place(declared);
    placement::assembler_goes_on(state, used, ops, draws);
    placement::program_layout_is_in_place(state, used, ops, draws);
    placement::laying_out_is_in_place(program);
    progress::raws_continue(declared, used, ops, 0, ops.len(), draws);
    let bytes = state::emitted(layout, layout.ready.len()).1->Ok_0;
    assert(is_part(program, layout));
    let cuts = Seq::new(
        ops.len() + 1,
        |k: int|
            length_upto(layout, state::raws_pushed(
                declared,
                used,
                ops,
                k as nat,
                draws,
            ).state.ready.len()),
    );
    assert(state::raws_pushed(declared, used, ops, 0, draws).state == declared);
    assert(length_upto(layout, 0) == 0);
    assert forall|i: int, j: int| 0 <= i <= j <= ops.len() implies 0 <= #[trigger] cuts[i]
        <= #[trigger] cuts[j] <= bytes.len() by {
        progress::raws_continue(declared, used, ops, j as nat, ops.len(), draws);
        progress::raws_continue(declared, used, ops, i as nat, j as nat, draws);
        pieces_fit(
            layout,
            state::raws_pushed(declared, used, ops, i as nat, draws).state.ready.len(),
            state::raws_pushed(declared, used, ops, j as nat, draws).state.ready.len(),
        );
    }
    assert(parts(bytes, cuts, ops.len()));
    assert forall|k: int|
        #![trigger ops[k]]
        0 <= k < ops.len() implies raw_is_written(
        bytes.subrange(cuts[k], cuts[k + 1]),
        (state.origin + cuts[k]) as nat,
        ops[k],
        layout.labels,
        layout.macros,
        draws,
    ) by {
        let before = state::raws_pushed(declared, used, ops, k as nat, draws);
        let after = state::raws_pushed(declared, used, ops, (k + 1) as nat, draws);
        progress::raws_continue(declared, used, ops, (k + 1) as nat, ops.len(), draws);
        progress::raws_continue(declared, used, ops, k as nat, (k + 1) as nat, draws);
        placement::program_is_in_place(declared, used, ops, k as nat, draws);
        part_before(after.state, program, layout);
        assert(after == state::raw_pushed(before.state, before.used, ops[k], draws));
        raw_is_written_for(before.state, before.used, ops[k], draws, layout);
    }
}

} // verus!
