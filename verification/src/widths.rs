//! How wide pushes without a size of their own are: when they are as narrow as can be.

use vstd::prelude::*;

use crate::context;
use crate::context::{Context, EvalErrorModel, NESTING_LIMIT};
use crate::encode;
use crate::error::{FailureModel, Fault};
use crate::expression::Term;
use crate::integer;
use crate::labels;
use crate::labels::LabelDef;
use crate::laws;
use crate::macros;
use crate::opcode::PUSH1;
use crate::ops::{MacroModel, OpModel, RawModel};
use crate::placement;
use crate::progress;
use crate::references;
use crate::state;
use crate::state::{ItemModel, PushRefModel, State};

verus! {

/// Whether `term` refers to no label, nor do the expression macros that it uses.
pub open spec fn is_label_free(term: Term, macros: Seq<MacroModel>) -> bool {
    match context::labels_in(term, macros, NESTING_LIMIT as nat) {
        Ok(used_labels) => used_labels.len() == 0,
        Err(_) => false,
    }
}

/// Whether each macro of `macros` is found in `more`.
pub open spec fn macros_kept(macros: Seq<MacroModel>, more: Seq<MacroModel>) -> bool {
    forall|name: Seq<char>|
        context::find_macro(macros, name) is Some ==> #[trigger] context::find_macro(more, name)
            == context::find_macro(macros, name)
}

/// Labels that an expression refers to are found again when more macros are defined.
proof fn references_are_kept(
    term: Term,
    macros: Seq<MacroModel>,
    more: Seq<MacroModel>,
    depth: nat,
)
    requires
        macros_kept(macros, more),
        context::labels_in(term, macros, depth) is Ok,
    ensures
        context::labels_in(term, more, depth) == context::labels_in(term, macros, depth),
    decreases depth, term,
{
    match term {
        Term::Macro(name, arguments) => {
            assert(context::find_macro(more, name) == context::find_macro(macros, name));
            match context::find_macro(macros, name) {
                Some(MacroModel::Expression { content, .. }) => {
                    all_references_are_kept(arguments, macros, more, depth);
                    references_are_kept(content, macros, more, (depth - 1) as nat);
                },
                _ => {},
            }
        },
        Term::Plus(left, right) => {
            references_are_kept(*left, macros, more, depth);
            references_are_kept(*right, macros, more, depth);
        },
        Term::Minus(left, right) => {
            references_are_kept(*left, macros, more, depth);
            references_are_kept(*right, macros, more, depth);
        },
        _ => {},
    }
}

proof fn all_references_are_kept(
    terms: Seq<Term>,
    macros: Seq<MacroModel>,
    more: Seq<MacroModel>,
    depth: nat,
)
    requires
        macros_kept(macros, more),
        context::labels_in_all(terms, macros, depth) is Ok,
    ensures
        context::labels_in_all(terms, more, depth) == context::labels_in_all(
            terms,
            macros,
            depth,
        ),
    decreases depth, terms,
{
    if terms.len() > 0 {
        all_references_are_kept(terms.drop_last(), macros, more, depth);
        references_are_kept(terms.last(), macros, more, depth);
    }
}

/// The value of an expression without labels does not depend on them, nor on further macros.
proof fn label_free_values_are_kept(
    term: Term,
    context: Context,
    others: Seq<(Seq<char>, Option<LabelDef>)>,
    more: Seq<MacroModel>,
    depth: nat,
)
    requires
        macros_kept(context.macros, more),
        context::labels_in(term, context.macros, depth) is Ok,
        context::labels_in(term, context.macros, depth)->Ok_0.len() == 0,
    ensures
        context::eval(term, Context { labels: others, macros: more, ..context }, depth)
            == context::eval(term, context, depth),
        match context::eval(term, context, depth) {
            Err(EvalErrorModel::UnknownLabel(_)) => false,
            _ => true,
        },
    decreases depth, term,
{
    match term {
        Term::Macro(name, arguments) => {
            assert(context::find_macro(more, name) == context::find_macro(context.macros, name));
            match context::find_macro(context.macros, name) {
                Some(MacroModel::Expression { parameters, content, .. }) => {
                    all_label_free_values_are_kept(arguments, context, others, more, depth);
                    match context::eval_all(arguments, context, depth) {
                        Ok(values) => {
                            label_free_values_are_kept(
                                content,
                                Context {
                                    labels: context.labels,
                                    macros: context.macros,
                                    names: parameters,
                                    values,
                                },
                                others,
                                more,
                                (depth - 1) as nat,
                            );
                        },
                        Err(_) => {},
                    }
                },
                _ => {},
            }
        },
        Term::Plus(left, right) => {
            label_free_values_are_kept(*left, context, others, more, depth);
            label_free_values_are_kept(*right, context, others, more, depth);
        },
        Term::Minus(left, right) => {
            label_free_values_are_kept(*left, context, others, more, depth);
            label_free_values_are_kept(*right, context, others, more, depth);
        },
        _ => {},
    }
}

proof fn all_label_free_values_are_kept(
    terms: Seq<Term>,
    context: Context,
    others: Seq<(Seq<char>, Option<LabelDef>)>,
    more: Seq<MacroModel>,
    depth: nat,
)
    requires
        macros_kept(context.macros, more),
        context::labels_in_all(terms, context.macros, depth) is Ok,
        context::labels_in_all(terms, context.macros, depth)->Ok_0.len() == 0,
    ensures
        context::eval_all(terms, Context { labels: others, macros: more, ..context }, depth)
            == context::eval_all(terms, context, depth),
        match context::eval_all(terms, context, depth) {
            Err(EvalErrorModel::UnknownLabel(_)) => false,
            _ => true,
        },
    decreases depth, terms,
{
    if terms.len() > 0 {
        all_label_free_values_are_kept(terms.drop_last(), context, others, more, depth);
        label_free_values_are_kept(terms.last(), context, others, more, depth);
    }
}

/// Whether the item at index `i` has the room that its value needs and no more, if it is a push
/// without a size of its own that has no label in its expression.
pub open spec fn is_tight(state: State, i: int) -> bool {
    match state.ready[i] {
        ItemModel::Instruction(OpModel::Push(term)) => {
            &&& context::labels_in(term, state.macros, NESTING_LIMIT as nat) is Ok
            &&& is_label_free(term, state.macros) ==> {
                let value = encode::value_of(term, state.labels, state.macros);
                &&& value is Ok
                &&& state.sizes[i] == 1 + encode::width_needed(value->Ok_0)
            }
        },
        _ => true,
    }
}

/// Every push without a size of its own and without labels has the room that its value needs and no
/// more.
pub open spec fn all_tight(state: State) -> bool {
    &&& state.sizes.len() == state.ready.len()
    &&& forall|i: int| 0 <= i < state.ready.len() ==> #[trigger] is_tight(state, i)
}

/// A new assembler, and one that is ready for a program, has no push that is wider than it needs.
pub proof fn empty_assembler_is_tight(state: State)
    requires
        placement::ready_for_program(state),
    ensures
        all_tight(state),
{
}

/// An item stays tight while labels move and macros are added, as long as its room stays.
proof fn tight_items_stay(state: State, later: State, i: int)
    requires
        is_tight(state, i),
        macros_kept(state.macros, later.macros),
        later.ready[i] == state.ready[i],
        later.sizes[i] == state.sizes[i],
    ensures
        is_tight(later, i),
{
    match state.ready[i] {
        ItemModel::Instruction(OpModel::Push(term)) => {
            references_are_kept(term, state.macros, later.macros, NESTING_LIMIT as nat);
            if is_label_free(term, state.macros) {
                label_free_values_are_kept(
                    term,
                    context::top_context(state.labels, state.macros),
                    later.labels,
                    later.macros,
                    NESTING_LIMIT as nat,
                );
            }
        },
        _ => {},
    }
}

/// Where at most one tight item is put behind the others, all stay tight.
proof fn one_more_is_tight(state: State, later: State)
    requires
        all_tight(state),
        progress::continues(state, later),
        later.sizes.len() == later.ready.len(),
        later.ready.len() <= state.ready.len() + 1,
        later.ready.len() == state.ready.len() + 1 ==> is_tight(
            later,
            state.ready.len() as int,
        ),
    ensures
        all_tight(later),
{
    assert forall|i: int| 0 <= i < later.ready.len() implies #[trigger] is_tight(later, i) by {
        if i < state.ready.len() {
            assert(is_tight(state, i));
            tight_items_stay(state, later, i);
        }
    }
}

proof fn instruction_is_tight(state: State, op: OpModel)
    requires
        all_tight(state),
        op is Op || op is Push,
    ensures
        all_tight(state::instruction_accepted(state, op).state),
{
    let later = state::instruction_accepted(state, op).state;
    let count = state.ready.len() as int;
    if state::instruction_accepted(state, op).failure is None {
        assert(later.ready[count] == ItemModel::Instruction(op));
        match op {
            OpModel::Push(term) => {
                let value = encode::value_of(term, state.labels, state.macros);
                if value is Ok {
                    references::values_need_all_labels(
                        term,
                        context::top_context(state.labels, state.macros),
                        NESTING_LIMIT as nat,
                    );
                } else if is_label_free(term, state.macros) {
                    label_free_values_are_kept(
                        term,
                        context::top_context(state.labels, state.macros),
                        state.labels,
                        state.macros,
                        NESTING_LIMIT as nat,
                    );
                }
            },
            _ => {},
        }
        assert(progress::continues(state, later));
        one_more_is_tight(state, later);
    }
}

/// Accepting an instruction, a label, a directive or the use of a macro leaves pushes tight.
proof fn op_is_tight(state: State, used: nat, op: OpModel, draws: Seq<u64>, depth: nat)
    requires
        all_tight(state),
    ensures
        all_tight(state::op_pushed(state, used, op, draws, depth).state),
    decreases depth, 1nat,
{
    match op {
        OpModel::Label(label) => {
            one_more_is_tight(state, state::label_declared(state, label).state);
        },
        OpModel::MacroDefinition(_) => {},
        OpModel::Macro(name, arguments) => {
            macro_is_tight(state, used, name, arguments, draws, depth);
        },
        OpModel::Org(offset) => {
            one_more_is_tight(state, state::org_accepted(state, offset).state);
        },
        _ => {
            instruction_is_tight(state, op);
        },
    }
}

proof fn macro_is_tight(
    state: State,
    used: nat,
    name: Seq<char>,
    arguments: Seq<Term>,
    draws: Seq<u64>,
    depth: nat,
)
    requires
        all_tight(state),
    ensures
        all_tight(state::macro_expanded(state, used, name, arguments, draws, depth).state),
    decreases depth, 0nat,
{
    match context::find_macro(state.macros, name) {
        Some(MacroModel::Instruction { parameters, contents, .. }) => {
            let fresh = macros::fresh_upto(name, contents, contents.len(), used, draws);
            match macros::instantiated_upto(
                fresh.contents,
                fresh.contents.len(),
                fresh.table,
                parameters,
                arguments,
                state.macros,
            ) {
                Ok(ops) => {
                    if depth > 0 {
                        ops_are_tight(
                            state,
                            fresh.used,
                            ops,
                            ops.len(),
                            draws,
                            (depth - 1) as nat,
                        );
                    }
                },
                Err(_) => {},
            }
        },
        _ => {},
    }
}

proof fn ops_are_tight(
    state: State,
    used: nat,
    ops: Seq<OpModel>,
    count: nat,
    draws: Seq<u64>,
    depth: nat,
)
    requires
        all_tight(state),
    ensures
        all_tight(state::ops_pushed(state, used, ops, count, draws, depth).state),
    decreases depth, count + 1,
{
    if count > 0 {
        let before = state::ops_pushed(state, used, ops, (count - 1) as nat, draws, depth);
        ops_are_tight(state, used, ops, (count - 1) as nat, draws, depth);
        if before.failure is None {
            op_is_tight(before.state, before.used, ops[count - 1], draws, depth);
        }
    }
}

/// Accepting items leaves pushes tight, even where one is refused.
pub proof fn program_is_tight(
    state: State,
    used: nat,
    ops: Seq<RawModel>,
    count: nat,
    draws: Seq<u64>,
)
    requires
        all_tight(state),
        count <= ops.len(),
    ensures
        all_tight(state::raws_pushed(state, used, ops, count, draws).state),
    decreases count,
{
    if count > 0 {
        let before = state::raws_pushed(state, used, ops, (count - 1) as nat, draws);
        program_is_tight(state, used, ops, (count - 1) as nat, draws);
        if before.failure is None {
            let after = state::raw_pushed(before.state, before.used, ops[count - 1], draws);
            assert(state::raws_pushed(state, used, ops, count, draws) == after);
            match ops[count - 1] {
                RawModel::Op(op) => {
                    op_is_tight(before.state, before.used, op, draws, NESTING_LIMIT as nat);
                },
                _ => {
                    progress::raw_continues(before.state, before.used, ops[count - 1], draws);
                    one_more_is_tight(before.state, after.state);
                },
            }
        }
    }
}

/// Defining macros leaves pushes tight.
pub proof fn definitions_leave_tight(state: State, ops: Seq<RawModel>, count: nat)
    requires
        all_tight(state),
    ensures
        all_tight(state::macros_declared(state, ops, count).state),
    decreases count,
{
    if count > 0 {
        definitions_leave_tight(state, ops, (count - 1) as nat);
        let before = state::macros_declared(state, ops, (count - 1) as nat).state;
        let later = state::macros_declared(state, ops, count).state;
        assert(macros_kept(before.macros, later.macros)) by {
            if later.macros.len() > before.macros.len() {
                assert(later.macros.drop_last() =~= before.macros);
            }
        }
        assert forall|i: int| 0 <= i < later.ready.len() implies #[trigger] is_tight(
            later,
            i,
        ) by {
            assert(is_tight(before, i));
            tight_items_stay(before, later, i);
        }
    }
}

/// Whether the listed pushes are the ones at their indices.
pub open spec fn listing_agrees(state: State) -> bool {
    forall|j: int|
        0 <= j < state.pushes.len() ==> (#[trigger] state.pushes[j]).1 < state.ready.len()
            && state.ready[state.pushes[j].1 as int] == ItemModel::Instruction(state.pushes[j].0)
}

/// Where room changes only for pushes that refer to labels, the others stay tight.
proof fn others_stay_tight(state: State, later: State)
    requires
        all_tight(state),
        later == (State {
            sizes: later.sizes,
            labels: later.labels,
            concrete_len: later.concrete_len,
            ..state
        }),
        later.sizes.len() == state.sizes.len(),
        forall|i: int|
            0 <= i < state.sizes.len() && #[trigger] later.sizes[i] != state.sizes[i] ==> (
            state.ready[i] matches ItemModel::Instruction(OpModel::Push(term)) && !is_label_free(
                term,
                state.macros,
            )),
    ensures
        all_tight(later),
{
    assert forall|i: int| 0 <= i < later.ready.len() implies #[trigger] is_tight(later, i) by {
        assert(is_tight(state, i));
        if later.sizes[i] == state.sizes[i] {
            tight_items_stay(state, later, i);
        }
    }
}

proof fn widened_is_tight(state: State, count: nat)
    requires
        all_tight(state),
        listing_agrees(state),
        count <= state.pushes.len(),
    ensures
        all_tight(state::pushes_widened(state, count).state),
    decreases count,
{
    if count > 0 {
        widened_is_tight(state, (count - 1) as nat);
        state::widening_grows(state, (count - 1) as nat);
        state::widening_grows(state, count);
        let before = state::pushes_widened(state, (count - 1) as nat).state;
        let later = state::pushes_widened(state, count).state;
        let (op, item) = state.pushes[count - 1];
        assert(state.ready[item as int] == ItemModel::Instruction(op));
        assert(is_tight(before, item as int));
        others_stay_tight(before, later);
    }
}

proof fn backpatched_is_tight(state: State)
    requires
        all_tight(state),
        listing_agrees(state),
    ensures
        all_tight(state::backpatched(state).state),
    decreases state::slack(state.sizes),
{
    let after = state::pushes_widened(state, state.pushes.len());
    widened_is_tight(state, state.pushes.len());
    state::widening_grows(state, state.pushes.len());
    if !(after.failure is Some || after.state.sizes == state.sizes) {
        state::growing_takes_slack(state.sizes, after.state.sizes);
        backpatched_is_tight(after.state);
    }
}

/// For a GIF file, room is made for pushes that refer to labels only.
proof fn widening_for_gif_is_for_labels(
    state: State,
    pushes: Seq<PushRefModel>,
    count: nat,
)
    requires
        count <= pushes.len(),
        placement::notes_are_items(state, pushes),
        state.sizes.len() == state.ready.len(),
    ensures
        forall|i: int|
            0 <= i < state.sizes.len() && #[trigger] state::sizes_widened(
                state,
                pushes,
                count,
            )[i] != state.sizes[i] ==> (state.ready[i] matches ItemModel::Instruction(
                OpModel::Push(term),
            ) && !is_label_free(term, state.macros)),
    decreases count,
{
    if count > 0 {
        widening_for_gif_is_for_labels(state, pushes, (count - 1) as nat);
        state::widening_for_gif_grows(state, pushes, (count - 1) as nat);
        let push = pushes[count - 1];
        assert(push.item < state.ready.len());
        assert(push.resizable == placement::is_unsized(state.ready[push.item as int]));
        match state.ready[push.item as int] {
            ItemModel::Instruction(op) => {
                assert(state::refers_to_label(op, state.macros) == Ok::<bool, Fault>(true));
            },
            _ => {},
        }
    }
}

/// A program that is laid out has no push without labels that is wider than it needs.
pub proof fn laid_out_is_tight(state: State)
    requires
        all_tight(state),
        listing_agrees(state),
    ensures
        all_tight(state::laid_out(state).state),
    decreases state::slack(state.sizes),
{
    let plain = state::backpatched(state);
    backpatched_is_tight(state);
    state::backpatching_grows(state);
    let (pushes, output) = state::emitted(plain.state, plain.state.ready.len());
    match (plain.failure, output, state.offset) {
        (None, Ok(bytes), Some(offset)) => {
            let in_gif = state::moved_to_gif(plain.state, bytes, offset);
            let sizes = state::sizes_widened(in_gif.state, pushes, pushes.len());
            if !(in_gif.failure is Some || sizes == in_gif.state.sizes) {
                let after = state::resized(in_gif.state, sizes);
                placement::noted_pushes_are_items(plain.state, plain.state.ready.len());
                assert(placement::notes_are_items(in_gif.state, pushes));
                state::widening_for_gif_grows(in_gif.state, pushes, pushes.len());
                widening_for_gif_is_for_labels(in_gif.state, pushes, pushes.len());
                others_stay_tight(plain.state, after.state);
                if after.failure is None {
                    state::growing_takes_slack(plain.state.sizes, sizes);
                    state::growing_takes_slack(state.sizes, plain.state.sizes);
                    laid_out_is_tight(after.state);
                }
            }
        },
        _ => {},
    }
}

/// A push that has exactly the room of its value is the narrowest one: it has the bytes of
/// [`encode::narrow_push`], or it is refused in the same way.
pub proof fn exact_room_is_narrow(state: State, i: int, term: Term, value: int)
    requires
        0 <= i < state.ready.len(),
        state.ready[i] == ItemModel::Instruction(OpModel::Push(term)),
        encode::value_of(term, state.labels, state.macros) == Ok::<int, EvalErrorModel>(value),
        state.sizes[i] == 1 + encode::width_needed(value),
    ensures
        encode::encoding_in(OpModel::Push(term), state.sizes[i], state.labels, state.macros)
            == encode::narrow_push(value),
        state::emitted(state, state.ready.len()).1 is Ok ==> ({
            let output = state::emitted(state, state.ready.len()).1->Ok_0;
            let front = state::emitted(state, i as nat).1->Ok_0.len() as int;
            &&& encode::narrow_push(value) is Ok
            &&& front + state.sizes[i] <= output.len()
            &&& output.subrange(front, front + state.sizes[i]) == encode::narrow_push(value)->Ok_0
        }),
{
    integer::be_bytes_represent(value as nat);
    let room = state.sizes[i];
    let wide = encode::fixed_push((PUSH1 + room - 2) as u8, value);
    assert(encode::roomy_push(value, room) == wide);
    if value >= 0 && integer::be_bytes(value as nat).len() <= 32 {
        let digits = integer::be_bytes(value as nat);
        assert(encode::padded(digits, digits.len()) =~= digits);
    }
    if state::emitted(state, state.ready.len()).1 is Ok {
        let output = state::emitted(state, state.ready.len()).1->Ok_0;
        placement::emitted_before(state, (i + 1) as nat, state.ready.len());
        placement::emitted_before(state, i as nat, (i + 1) as nat);
        let front = state::emitted(state, i as nat).1->Ok_0;
        let upto = state::emitted(state, (i + 1) as nat).1->Ok_0;
        let bytes = encode::narrow_push(value)->Ok_0;
        assert(upto == front + bytes);
        assert(bytes.len() == room);
        assert forall|k: int| front.len() <= k < front.len() + bytes.len() implies output[k]
            == bytes[k - front.len()] by {
            assert(output[k] == upto[k]);
        }
        assert(output.subrange(front.len() as int, front.len() + room as int) =~= bytes);
    }
}

/// A `%push` that refers to no label is assembled to the narrowest push of its value.
pub proof fn label_free_pushes_are_narrow(
    state: State,
    used: nat,
    ops: Seq<RawModel>,
    draws: Seq<u64>,
    i: int,
    term: Term,
)
    requires
        placement::in_place(state),
        all_tight(state),
        state::assembled(state, used, ops, draws).result is Ok,
        0 <= i < placement::layout_of(state, used, ops, draws).ready.len(),
        placement::layout_of(state, used, ops, draws).ready[i] == ItemModel::Instruction(
            OpModel::Push(term),
        ),
        is_label_free(term, placement::layout_of(state, used, ops, draws).macros),
    ensures
        ({
            let layout = placement::layout_of(state, used, ops, draws);
            let output = state::emitted(layout, layout.ready.len()).1->Ok_0;
            let front = state::emitted(layout, i as nat).1->Ok_0.len() as int;
            let value = encode::value_of(term, layout.labels, layout.macros);
            &&& value is Ok
            &&& encode::narrow_push(value->Ok_0) is Ok
            &&& layout.sizes[i] == encode::narrow_push(value->Ok_0)->Ok_0.len()
            &&& front + layout.sizes[i] <= output.len()
            &&& output.subrange(front, front + layout.sizes[i]) == encode::narrow_push(
                value->Ok_0,
            )->Ok_0
            &&& state.offset is None ==> state::assembled(state, used, ops, draws).result == Ok::<
                Seq<u8>,
                FailureModel,
            >(output)
        }),
{
    let declared = state::macros_declared(state, ops, ops.len()).state;
    let layout = placement::layout_of(state, used, ops, draws);
    definitions_leave_tight(state, ops, ops.len());
    program_is_tight(declared, used, ops, ops.len(), draws);
    placement::assembler_goes_on(state, used, ops, draws);
    laid_out_is_tight(placement::accepted_program(state, used, ops, ops.len(), draws));
    placement::program_layout_is_in_place(state, used, ops, draws);
    assert(is_tight(layout, i));
    let value = encode::value_of(term, layout.labels, layout.macros)->Ok_0;
    exact_room_is_narrow(layout, i, term, value);
}

/// Whether the value of `term` is fixed wherever labels are and whatever variables stand for.
pub open spec fn is_fixed(term: Term, macros: Seq<MacroModel>, depth: nat) -> bool
    decreases term,
{
    match term {
        Term::Number(_) => true,
        Term::Label(_) => false,
        Term::Variable(_) => false,
        Term::Macro(name, arguments) => {
            &&& depth > 0
            &&& all_fixed(arguments, macros, depth)
            &&& match context::find_macro(macros, name) {
                Some(MacroModel::Expression { content, .. }) => {
                    let used_labels = context::labels_in(content, macros, (depth - 1) as nat);
                    used_labels is Ok && used_labels->Ok_0.len() == 0
                },
                _ => false,
            }
        },
        Term::Plus(left, right) => is_fixed(*left, macros, depth) && is_fixed(
            *right,
            macros,
            depth,
        ),
        Term::Minus(left, right) => is_fixed(*left, macros, depth) && is_fixed(
            *right,
            macros,
            depth,
        ),
    }
}

/// Whether the values of `terms` are fixed.
pub open spec fn all_fixed(terms: Seq<Term>, macros: Seq<MacroModel>, depth: nat) -> bool
    decreases terms,
{
    forall|i: int| 0 <= i < terms.len() ==> is_fixed(#[trigger] terms[i], macros, depth)
}

/// Whether the value of `term` never falls when labels move on: what is subtracted is fixed.
pub open spec fn never_falls(term: Term, macros: Seq<MacroModel>, depth: nat) -> bool
    decreases depth, term,
{
    match term {
        Term::Macro(name, arguments) => {
            &&& depth > 0
            &&& none_falls(arguments, macros, depth)
            &&& match context::find_macro(macros, name) {
                Some(MacroModel::Expression { content, .. }) => never_falls(
                    content,
                    macros,
                    (depth - 1) as nat,
                ),
                _ => false,
            }
        },
        Term::Plus(left, right) => never_falls(*left, macros, depth) && never_falls(
            *right,
            macros,
            depth,
        ),
        Term::Minus(left, right) => never_falls(*left, macros, depth) && is_fixed(
            *right,
            macros,
            depth,
        ),
        _ => true,
    }
}

/// Whether the values of `terms` never fall.
pub open spec fn none_falls(terms: Seq<Term>, macros: Seq<MacroModel>, depth: nat) -> bool
    decreases depth, terms,
{
    forall|i: int| 0 <= i < terms.len() ==> never_falls(#[trigger] terms[i], macros, depth)
}

/// Every label that has a position in `entries` has one in `others` that is no less.
pub open spec fn rises(
    entries: Seq<(Seq<char>, Option<LabelDef>)>,
    others: Seq<(Seq<char>, Option<LabelDef>)>,
) -> bool {
    forall|label: Seq<char>|
        references::has_position(entries, label) ==> #[trigger] references::has_position(
            others,
            label,
        ) && labels::label_lookup(others, label)->0->0.position >= labels::label_lookup(
            entries,
            label,
        )->0->0.position
}

/// Whether `others` are as many values, none of them less.
pub open spec fn no_less(values: Seq<int>, others: Seq<int>) -> bool {
    &&& others.len() == values.len()
    &&& forall|i: int| 0 <= i < values.len() ==> values[i] <= #[trigger] others[i]
}

/// What is fixed has the same value wherever labels are.
proof fn fixed_values_stay(term: Term, context: Context, other: Context, depth: nat)
    requires
        is_fixed(term, context.macros, depth),
        other.macros == context.macros,
    ensures
        context::eval(term, other, depth) == context::eval(term, context, depth),
    decreases term,
{
    match term {
        Term::Macro(name, arguments) => {
            assert(all_fixed(arguments, context.macros, depth));
            all_fixed_values_stay(arguments, context, other, depth);
            match context::find_macro(context.macros, name) {
                Some(MacroModel::Expression { parameters, content, .. }) => {
                    match context::eval_all(arguments, context, depth) {
                        Ok(values) => {
                            label_free_values_are_kept(
                                content,
                                Context {
                                    labels: context.labels,
                                    macros: context.macros,
                                    names: parameters,
                                    values,
                                },
                                other.labels,
                                context.macros,
                                (depth - 1) as nat,
                            );
                        },
                        Err(_) => {},
                    }
                },
                _ => {},
            }
        },
        Term::Plus(left, right) => {
            fixed_values_stay(*left, context, other, depth);
            fixed_values_stay(*right, context, other, depth);
        },
        Term::Minus(left, right) => {
            fixed_values_stay(*left, context, other, depth);
            fixed_values_stay(*right, context, other, depth);
        },
        _ => {},
    }
}

proof fn all_fixed_values_stay(terms: Seq<Term>, context: Context, other: Context, depth: nat)
    requires
        all_fixed(terms, context.macros, depth),
        other.macros == context.macros,
    ensures
        context::eval_all(terms, other, depth) == context::eval_all(terms, context, depth),
    decreases terms,
{
    if terms.len() > 0 {
        let front = terms.drop_last();
        assert(all_fixed(front, context.macros, depth)) by {
            assert forall|i: int| 0 <= i < front.len() implies is_fixed(
                #[trigger] front[i],
                context.macros,
                depth,
            ) by {
                assert(is_fixed(terms[i], context.macros, depth));
            }
        }
        assert(is_fixed(terms[terms.len() - 1], context.macros, depth));
        all_fixed_values_stay(front, context, other, depth);
        fixed_values_stay(terms.last(), context, other, depth);
    }
}

/// A variable never falls either, when none of the values do.
proof fn variables_never_fall(
    names: Seq<Seq<char>>,
    values: Seq<int>,
    others: Seq<int>,
    name: Seq<char>,
    count: nat,
)
    requires
        no_less(values, others),
        count <= values.len(),
        context::variable_value(names, values, name, count) is Some,
    ensures
        context::variable_value(names, others, name, count) is Some,
        context::variable_value(names, others, name, count)->0 >= context::variable_value(
            names,
            values,
            name,
            count,
        )->0,
    decreases count,
{
    if names[count - 1] != name {
        variables_never_fall(names, values, others, name, (count - 1) as nat);
    } else {
        assert(values[count - 1] <= others[count - 1]);
    }
}

/// An expression that subtracts nothing but fixed values never falls when labels move on.
proof fn values_never_fall(term: Term, context: Context, other: Context, depth: nat)
    requires
        never_falls(term, context.macros, depth),
        other.macros == context.macros,
        other.names == context.names,
        no_less(context.values, other.values),
        rises(context.labels, other.labels),
        context::eval(term, context, depth) is Ok,
    ensures
        context::eval(term, other, depth) is Ok,
        context::eval(term, other, depth)->Ok_0 >= context::eval(term, context, depth)->Ok_0,
    decreases depth, term,
{
    match term {
        Term::Label(label) => {
            assert(references::has_position(context.labels, label));
            assert(references::has_position(other.labels, label));
        },
        Term::Variable(name) => {
            variables_never_fall(
                context.names,
                context.values,
                other.values,
                name,
                context::variable_count(context.names, context.values),
            );
        },
        Term::Macro(name, arguments) => {
            assert(none_falls(arguments, context.macros, depth));
            match context::find_macro(context.macros, name) {
                Some(MacroModel::Expression { parameters, content, .. }) => {
                    no_values_fall(arguments, context, other, depth);
                    values_never_fall(
                        content,
                        Context {
                            labels: context.labels,
                            macros: context.macros,
                            names: parameters,
                            values: context::eval_all(arguments, context, depth)->Ok_0,
                        },
                        Context {
                            labels: other.labels,
                            macros: other.macros,
                            names: parameters,
                            values: context::eval_all(arguments, other, depth)->Ok_0,
                        },
                        (depth - 1) as nat,
                    );
                },
                _ => {},
            }
        },
        Term::Plus(left, right) => {
            values_never_fall(*left, context, other, depth);
            values_never_fall(*right, context, other, depth);
        },
        Term::Minus(left, right) => {
            values_never_fall(*left, context, other, depth);
            fixed_values_stay(*right, context, other, depth);
        },
        _ => {},
    }
}

proof fn no_values_fall(terms: Seq<Term>, context: Context, other: Context, depth: nat)
    requires
        none_falls(terms, context.macros, depth),
        other.macros == context.macros,
        other.names == context.names,
        no_less(context.values, other.values),
        rises(context.labels, other.labels),
        context::eval_all(terms, context, depth) is Ok,
    ensures
        context::eval_all(terms, other, depth) is Ok,
        no_less(
            context::eval_all(terms, context, depth)->Ok_0,
            context::eval_all(terms, other, depth)->Ok_0,
        ),
    decreases depth, terms,
{
    if terms.len() > 0 {
        let front = terms.drop_last();
        assert(none_falls(front, context.macros, depth)) by {
            assert forall|i: int| 0 <= i < front.len() implies never_falls(
                #[trigger] front[i],
                context.macros,
                depth,
            ) by {
                assert(never_falls(terms[i], context.macros, depth));
            }
        }
        assert(never_falls(terms[terms.len() - 1], context.macros, depth));
        no_values_fall(front, context, other, depth);
        values_never_fall(terms.last(), context, other, depth);
    }
}

/// A greater value needs no fewer bytes.
proof fn widths_never_fall(value: int, other: int)
    requires
        value <= other,
    ensures
        encode::width_needed(value) <= encode::width_needed(other),
{
    if value >= 0 {
        lengths_never_fall(value as nat, other as nat);
    } else if other >= 0 {
        integer::be_bytes_represent(other as nat);
    }
}

proof fn lengths_never_fall(value: nat, other: nat)
    requires
        value <= other,
    ensures
        integer::be_bytes(value).len() <= integer::be_bytes(other).len(),
    decreases value,
{
    integer::be_bytes_represent(other);
    if value >= 256 {
        lengths_never_fall(value / 256, other / 256);
    }
}

/// Whether the item at index `i` has no more room than its value needs, if it is a push without a
/// size of its own whose value never falls.
pub open spec fn is_snug(state: State, i: int) -> bool {
    match state.ready[i] {
        ItemModel::Instruction(OpModel::Push(term)) => never_falls(
            term,
            state.macros,
            NESTING_LIMIT as nat,
        ) ==> match encode::value_of(term, state.labels, state.macros) {
            Ok(value) => state.sizes[i] <= 1 + encode::width_needed(value),
            Err(_) => state.sizes[i] <= 2,
        },
        _ => true,
    }
}

/// Every push without a size of its own whose value never falls has no more room than the value
/// needs.
pub open spec fn all_snug(state: State) -> bool {
    forall|i: int| 0 <= i < state.ready.len() ==> #[trigger] is_snug(state, i)
}

/// An item stays snug while labels move on, as long as its room stays.
proof fn snug_items_stay(state: State, later: State, i: int)
    requires
        is_snug(state, i),
        later.macros == state.macros,
        later.ready[i] == state.ready[i],
        later.sizes[i] == state.sizes[i],
        rises(state.labels, later.labels),
    ensures
        is_snug(later, i),
{
    match state.ready[i] {
        ItemModel::Instruction(OpModel::Push(term)) => {
            if never_falls(term, state.macros, NESTING_LIMIT as nat) {
                let value = encode::value_of(term, state.labels, state.macros);
                let other = encode::value_of(term, later.labels, later.macros);
                if value is Ok {
                    values_never_fall(
                        term,
                        context::top_context(state.labels, state.macros),
                        context::top_context(later.labels, later.macros),
                        NESTING_LIMIT as nat,
                    );
                    widths_never_fall(value->Ok_0, other->Ok_0);
                } else if other is Ok {
                    integer::be_bytes_represent(other->Ok_0 as nat);
                }
            }
        },
        _ => {},
    }
}

/// Where at most one snug item is put behind the others, all stay snug.
proof fn one_more_is_snug(state: State, later: State)
    requires
        all_snug(state),
        progress::continues(state, later),
        state.sizes.len() == state.ready.len(),
        laws::distinct_labels(later.labels),
        later.ready.len() <= state.ready.len() + 1,
        later.ready.len() == state.ready.len() + 1 ==> is_snug(
            later,
            state.ready.len() as int,
        ),
    ensures
        all_snug(later),
{
    laws::declarations_keep_positions(state.labels, later.labels);
    assert(rises(state.labels, later.labels)) by {
        assert forall|label: Seq<char>|
            references::has_position(state.labels, label) implies #[trigger] references::has_position(
            later.labels,
            label,
        ) && labels::label_lookup(later.labels, label)->0->0.position >= labels::label_lookup(
            state.labels,
            label,
        )->0->0.position by {
            assert(labels::label_lookup(later.labels, label) == labels::label_lookup(
                state.labels,
                label,
            ));
        }
    }
    assert forall|i: int| 0 <= i < later.ready.len() implies #[trigger] is_snug(later, i) by {
        if i < state.ready.len() {
            assert(is_snug(state, i));
            snug_items_stay(state, later, i);
        }
    }
}

/// Accepting an instruction, a label, a directive or the use of a macro leaves pushes snug.
proof fn op_is_snug(state: State, used: nat, op: OpModel, draws: Seq<u64>, depth: nat)
    requires
        placement::in_place(state),
        all_snug(state),
    ensures
        all_snug(state::op_pushed(state, used, op, draws, depth).state),
    decreases depth, 1nat,
{
    let later = state::op_pushed(state, used, op, draws, depth).state;
    match op {
        OpModel::Macro(name, arguments) => {
            macro_is_snug(state, used, name, arguments, draws, depth);
        },
        _ => {
            placement::op_is_in_place(state, used, op, draws, depth);
            progress::op_continues(state, used, op, draws, depth);
            one_more_is_snug(state, later);
        },
    }
}

proof fn macro_is_snug(
    state: State,
    used: nat,
    name: Seq<char>,
    arguments: Seq<Term>,
    draws: Seq<u64>,
    depth: nat,
)
    requires
        placement::in_place(state),
        all_snug(state),
    ensures
        all_snug(state::macro_expanded(state, used, name, arguments, draws, depth).state),
    decreases depth, 0nat,
{
    match context::find_macro(state.macros, name) {
        Some(MacroModel::Instruction { parameters, contents, .. }) => {
            let fresh = macros::fresh_upto(name, contents, contents.len(), used, draws);
            match macros::instantiated_upto(
                fresh.contents,
                fresh.contents.len(),
                fresh.table,
                parameters,
                arguments,
                state.macros,
            ) {
                Ok(ops) => {
                    if depth > 0 {
                        ops_are_snug(
                            state,
                            fresh.used,
                            ops,
                            ops.len(),
                            draws,
                            (depth - 1) as nat,
                        );
                    }
                },
                Err(_) => {},
            }
        },
        _ => {},
    }
}

proof fn ops_are_snug(
    state: State,
    used: nat,
    ops: Seq<OpModel>,
    count: nat,
    draws: Seq<u64>,
    depth: nat,
)
    requires
        placement::in_place(state),
        all_snug(state),
    ensures
        all_snug(state::ops_pushed(state, used, ops, count, draws, depth).state),
        placement::in_place(state::ops_pushed(state, used, ops, count, draws, depth).state),
    decreases depth, count + 1,
{
    if count > 0 {
        let before = state::ops_pushed(state, used, ops, (count - 1) as nat, draws, depth);
        ops_are_snug(state, used, ops, (count - 1) as nat, draws, depth);
        if before.failure is None {
            op_is_snug(before.state, before.used, ops[count - 1], draws, depth);
            placement::op_is_in_place(
                before.state,
                before.used,
                ops[count - 1],
                draws,
                depth,
            );
        }
    }
}

/// Accepting items leaves pushes snug, even where one is refused.
pub proof fn program_is_snug(
    state: State,
    used: nat,
    ops: Seq<RawModel>,
    count: nat,
    draws: Seq<u64>,
)
    requires
        placement::in_place(state),
        all_snug(state),
        count <= ops.len(),
    ensures
        all_snug(state::raws_pushed(state, used, ops, count, draws).state),
    decreases count,
{
    if count > 0 {
        let before = state::raws_pushed(state, used, ops, (count - 1) as nat, draws);
        program_is_snug(state, used, ops, (count - 1) as nat, draws);
        placement::program_is_in_place(state, used, ops, (count - 1) as nat, draws);
        placement::program_is_in_place(state, used, ops, count, draws);
        if before.failure is None {
            let after = state::raw_pushed(before.state, before.used, ops[count - 1], draws);
            assert(state::raws_pushed(state, used, ops, count, draws) == after);
            match ops[count - 1] {
                RawModel::Op(op) => {
                    op_is_snug(before.state, before.used, op, draws, NESTING_LIMIT as nat);
                },
                _ => {
                    progress::raw_continues(before.state, before.used, ops[count - 1], draws);
                    one_more_is_snug(before.state, after.state);
                },
            }
        }
    }
}

/// Positions never fall when items get more room.
proof fn positions_never_fall(
    origin: nat,
    ready: Seq<ItemModel>,
    sizes: Seq<nat>,
    larger: Seq<nat>,
    count: int,
)
    requires
        state::no_smaller(sizes, larger),
        count <= sizes.len(),
    ensures
        state::position_at(origin, ready, sizes, count) <= state::position_at(
            origin,
            ready,
            larger,
            count,
        ),
    decreases count,
{
    if count > 0 {
        positions_never_fall(origin, ready, sizes, larger, count - 1);
        assert(larger[count - 1] == sizes[count - 1] || sizes[count - 1] < larger[count - 1]
            <= 33);
    }
}

/// Labels never go back when items get more room.
proof fn placed_labels_rise(state: State, larger: Seq<nat>, count: nat)
    requires
        placement::in_place(state),
        state::no_smaller(state.sizes, larger),
        state::positions_fit(state.origin, state.ready, larger),
        count <= state.marks.len(),
    ensures
        ({
            let entries = state::labels_placed((State { sizes: larger, ..state }), count);
            &&& entries.len() == state.labels.len()
            &&& forall|i: int|
                0 <= i < entries.len() ==> (#[trigger] entries[i]).0 == state.labels[i].0 && (
                state.labels[i].1 is Some ==> entries[i].1 is Some && entries[i].1->0.position
                    >= state.labels[i].1->0.position)
        }),
    decreases count,
{
    if count > 0 {
        placed_labels_rise(state, larger, (count - 1) as nat);
        let (i, mark) = state.marks[count - 1];
        assert(placement::stands_at(
            state.labels,
            i as int,
            placement::position_in(state, mark as int),
        ));
        positions_never_fall(state.origin, state.ready, state.sizes, larger, mark as int);
        assert(state::position_at(state.origin, state.ready, larger, mark as int) <= usize::MAX);
    }
}

/// Where each label is under the same name at the same index, it is found there.
proof fn same_index(
    entries: Seq<(Seq<char>, Option<LabelDef>)>,
    others: Seq<(Seq<char>, Option<LabelDef>)>,
    label: Seq<char>,
)
    requires
        others.len() == entries.len(),
        forall|i: int| 0 <= i < entries.len() ==> (#[trigger] others[i]).0 == entries[i].0,
    ensures
        labels::label_index(others, label) == labels::label_index(entries, label),
    decreases entries.len(),
{
    if entries.len() > 0 {
        assert(others[entries.len() - 1].0 == entries[entries.len() - 1].0);
        same_index(entries.drop_last(), others.drop_last(), label);
    }
}

/// Where items get more room, every label rises.
proof fn placed_rises(state: State, larger: Seq<nat>)
    requires
        placement::in_place(state),
        state::no_smaller(state.sizes, larger),
        state::positions_fit(state.origin, state.ready, larger),
    ensures
        rises(
            state.labels,
            state::labels_placed((State { sizes: larger, ..state }), state.marks.len()),
        ),
{
    placed_labels_rise(state, larger, state.marks.len());
    let others = state::labels_placed((State { sizes: larger, ..state }), state.marks.len());
    assert forall|label: Seq<char>|
        references::has_position(state.labels, label) implies #[trigger] references::has_position(
        others,
        label,
    ) && labels::label_lookup(others, label)->0->0.position >= labels::label_lookup(
        state.labels,
        label,
    )->0->0.position by {
        same_index(state.labels, others, label);
        laws::label_index_finds(state.labels, label);
        let i = labels::label_index(state.labels, label)->0;
        assert(others[i].0 == state.labels[i].0);
    }
}

proof fn widened_is_snug(state: State, count: nat)
    requires
        placement::in_place(state),
        all_snug(state),
        count <= state.pushes.len(),
        state::pushes_widened(state, count).failure is None,
    ensures
        all_snug(state::pushes_widened(state, count).state),
    decreases count,
{
    if count > 0 {
        widened_is_snug(state, (count - 1) as nat);
        placement::widening_is_in_place(state, (count - 1) as nat);
        state::widening_grows(state, (count - 1) as nat);
        let before = state::pushes_widened(state, (count - 1) as nat).state;
        let later = state::pushes_widened(state, count).state;
        let (op, item) = state.pushes[count - 1];
        assert(before.ready[item as int] == ItemModel::Instruction(op));
        if later != before {
            let term = op->Push_0;
            let value = encode::value_of(term, before.labels, before.macros)->Ok_0;
            let room = 1 + encode::width_needed(value);
            let sizes = before.sizes.update(item as int, room);
            assert(later.sizes == sizes);
            assert(state::no_smaller(before.sizes, sizes));
            placed_rises(before, sizes);
            assert(later.labels == state::labels_placed(
                (State { sizes, ..before }),
                before.marks.len(),
            ));
            assert forall|i: int| 0 <= i < later.ready.len() implies #[trigger] is_snug(
                later,
                i,
            ) by {
                if i == item {
                    snug_items_stay((State { sizes, ..before }), later, i);
                } else {
                    assert(is_snug(before, i));
                    snug_items_stay(before, later, i);
                }
            }
        }
    }
}

/// Making room for pushes leaves them snug.
pub proof fn backpatched_is_snug(state: State)
    requires
        placement::in_place(state),
        all_snug(state),
        state::backpatched(state).failure is None,
    ensures
        all_snug(state::backpatched(state).state),
    decreases state::slack(state.sizes),
{
    let after = state::pushes_widened(state, state.pushes.len());
    state::widening_grows(state, state.pushes.len());
    widened_is_snug(state, state.pushes.len());
    placement::widening_is_in_place(state, state.pushes.len());
    if after.state.sizes != state.sizes {
        state::growing_takes_slack(state.sizes, after.state.sizes);
        backpatched_is_snug(after.state);
    }
}

/// Outside of GIF files, a `%push` whose value never falls is assembled to the narrowest push of
/// its value. Such are all that subtract nothing but fixed values: numbers, labels, and their sums.
pub proof fn rising_pushes_are_narrow(
    state: State,
    used: nat,
    ops: Seq<RawModel>,
    draws: Seq<u64>,
    i: int,
    term: Term,
)
    requires
        placement::ready_for_program(state),
        state.offset is None,
        state::assembled(state, used, ops, draws).result is Ok,
        0 <= i < placement::layout_of(state, used, ops, draws).ready.len(),
        placement::layout_of(state, used, ops, draws).ready[i] == ItemModel::Instruction(
            OpModel::Push(term),
        ),
        never_falls(
            term,
            placement::layout_of(state, used, ops, draws).macros,
            NESTING_LIMIT as nat,
        ),
    ensures
        ({
            let layout = placement::layout_of(state, used, ops, draws);
            let output = state::assembled(state, used, ops, draws).result->Ok_0;
            let front = state::emitted(layout, i as nat).1->Ok_0.len() as int;
            let value = encode::value_of(term, layout.labels, layout.macros);
            &&& value is Ok
            &&& encode::narrow_push(value->Ok_0) is Ok
            &&& layout.sizes[i] == encode::narrow_push(value->Ok_0)->Ok_0.len()
            &&& front + layout.sizes[i] <= output.len()
            &&& output.subrange(front, front + layout.sizes[i]) == encode::narrow_push(
                value->Ok_0,
            )->Ok_0
        }),
{
    let declared = state::macros_declared(state, ops, ops.len()).state;
    let layout = placement::layout_of(state, used, ops, draws);
    let program = placement::accepted_program(state, used, ops, ops.len(), draws);
    placement::start_is_in_place(state);
    placement::definitions_change_macros_only(state, ops, ops.len());
    placement::assembler_goes_on(state, used, ops, draws);
    program_is_snug(declared, used, ops, ops.len(), draws);
    progress::raws_continue(declared, used, ops, 0, ops.len(), draws);
    placement::program_layout_is_in_place(state, used, ops, draws);
    assert(state::laid_out(program) == state::backpatched(program));
    backpatched_is_snug(program);
    assert(is_snug(layout, i));
    placement::pushes_carry_final_values(layout, i, OpModel::Push(term));
    let value = encode::value_of(term, layout.labels, layout.macros)->Ok_0;
    assert(placement::is_unsized(layout.ready[i]));
    assert(placement::is_listed(layout, i));
    let j = choose|j: int| 0 <= j < layout.pushes.len() && (#[trigger] layout.pushes[j]).1 == i;
    assert(layout.pushes[j].0 == OpModel::Push(term));
    exact_room_is_narrow(layout, i, term, value);
}

} // verus!
