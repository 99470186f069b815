//! When there is an output: what is owed to a program once its items were accepted.

use vstd::arithmetic::power;
use vstd::prelude::*;

use crate::context;
use crate::context::{Context, EvalErrorModel, NESTING_LIMIT};
use crate::encode;
use crate::error::{ErrorModel, FailureModel, Fault};
use crate::evmgif;
use crate::expression::Term;
use crate::ops::{MacroModel, OpModel};
use crate::packing;
use crate::placement;
use crate::references;
use crate::refusals;
use crate::state;
use crate::state::{ItemModel, State};

verus! {

/// The most room that an item can take up. The directive `.org` is left aside: it moves the position
/// to its offset.
pub open spec fn most_room(item: ItemModel) -> nat {
    match item {
        ItemModel::Raw(bytes) => bytes.len(),
        ItemModel::Org(_) => 0,
        ItemModel::Instruction(OpModel::Op { code, immediate: Some(_) }) => if 0x60 <= code <= 0x7f {
            (code - 0x5f + 1) as nat
        } else {
            1
        },
        ItemModel::Instruction(OpModel::Op { immediate: None, .. }) => 1,
        ItemModel::Instruction(_) => 33,
    }
}

/// The most room for each of the items.
pub open spec fn widest_sizes(ready: Seq<ItemModel>) -> Seq<nat> {
    Seq::new(ready.len(), |i: int| most_room(ready[i]))
}

/// Whether every position of the program is one, however wide its pushes get.
pub open spec fn has_positions(state: State) -> bool {
    forall|k: int|
        0 <= k <= state.ready.len() ==> #[trigger] state::position_at(
            state.origin,
            state.ready,
            widest_sizes(state.ready),
            k,
        ) <= usize::MAX
}

/// Whether it can be told of every instruction which labels it refers to.
pub open spec fn knows_references(state: State) -> bool {
    forall|i: int|
        #![trigger state.ready[i]]
        0 <= i < state.ready.len() ==> match state.ready[i] {
            ItemModel::Instruction(op) => match encode::expression_in(op) {
                Some(term) => context::labels_in(term, state.macros, NESTING_LIMIT as nat) is Ok,
                None => true,
            },
            _ => true,
        }
}

/// Of the instructions that were accepted, it can be told which labels they refer to.
pub proof fn accepted_references_are_known(state: State)
    requires
        references::settled(state),
    ensures
        knows_references(state),
{
    assert forall|i: int| #![trigger state.ready[i]] 0 <= i < state.ready.len() implies match state.ready[i] {
        ItemModel::Instruction(op) => match encode::expression_in(op) {
            Some(term) => context::labels_in(term, state.macros, NESTING_LIMIT as nat) is Ok,
            None => true,
        },
        _ => true,
    } by {
        match state.ready[i] {
            ItemModel::Instruction(op) => {
                assert(references::accounted_for(state, op));
                match encode::expression_in(op) {
                    Some(term) => {
                        if encode::value_of(term, state.labels, state.macros) is Ok {
                            references::values_need_all_labels(
                                term,
                                context::top_context(state.labels, state.macros),
                                NESTING_LIMIT as nat,
                            );
                        }
                    },
                    None => {},
                }
            },
            _ => {},
        }
    }
}

proof fn room_is_no_more(state: State, k: int)
    requires
        placement::well_formed(state),
        k <= state.ready.len(),
    ensures
        state::position_at(state.origin, state.ready, state.sizes, k) <= state::position_at(
            state.origin,
            state.ready,
            widest_sizes(state.ready),
            k,
        ),
    decreases k,
{
    if k > 0 {
        room_is_no_more(state, k - 1);
        assert(placement::has_room(state, k - 1));
    }
}

/// Where the positions fit at their widest, they fit.
proof fn positions_fit(state: State)
    requires
        placement::well_formed(state),
        has_positions(state),
    ensures
        state::positions_fit(state.origin, state.ready, state.sizes),
{
    assert forall|k: int| 0 <= k <= state.ready.len() implies #[trigger] state::position_at(
        state.origin,
        state.ready,
        state.sizes,
        k,
    ) <= usize::MAX by {
        room_is_no_more(state, k);
    }
}

/// An expression of which it can be told which labels it refers to is not nested too deep.
pub proof fn known_references_are_not_too_deep(term: Term, context: Context, depth: nat)
    requires
        context::labels_in(term, context.macros, depth) is Ok,
    ensures
        context::eval(term, context, depth) != Err::<int, EvalErrorModel>(EvalErrorModel::TooDeep),
    decreases depth, term,
{
    match term {
        Term::Macro(name, arguments) => match context::find_macro(context.macros, name) {
            Some(MacroModel::Expression { parameters, content, .. }) => {
                all_known_references_are_not_too_deep(arguments, context, depth);
                match context::eval_all(arguments, context, depth) {
                    Ok(values) => {
                        known_references_are_not_too_deep(
                            content,
                            Context {
                                labels: context.labels,
                                macros: context.macros,
                                names: parameters,
                                values,
                            },
                            (depth - 1) as nat,
                        );
                    },
                    Err(_) => {},
                }
            },
            _ => {},
        },
        Term::Plus(left, right) => {
            known_references_are_not_too_deep(*left, context, depth);
            known_references_are_not_too_deep(*right, context, depth);
        },
        Term::Minus(left, right) => {
            known_references_are_not_too_deep(*left, context, depth);
            known_references_are_not_too_deep(*right, context, depth);
        },
        _ => {},
    }
}

proof fn all_known_references_are_not_too_deep(terms: Seq<Term>, context: Context, depth: nat)
    requires
        context::labels_in_all(terms, context.macros, depth) is Ok,
    ensures
        context::eval_all(terms, context, depth) != Err::<Seq<int>, EvalErrorModel>(
            EvalErrorModel::TooDeep,
        ),
    decreases depth, terms,
{
    if terms.len() > 0 {
        all_known_references_are_not_too_deep(terms.drop_last(), context, depth);
        known_references_are_not_too_deep(terms.last(), context, depth);
    }
}

proof fn widening_succeeds(state: State, count: nat)
    requires
        placement::in_place(state),
        has_positions(state),
        knows_references(state),
        count <= state.pushes.len(),
    ensures
        state::pushes_widened(state, count).failure is None,
    decreases count,
{
    if count > 0 {
        widening_succeeds(state, (count - 1) as nat);
        let before = state::pushes_widened(state, (count - 1) as nat).state;
        placement::widening_is_in_place(state, (count - 1) as nat);
        state::widening_grows(state, (count - 1) as nat);
        let (op, item) = state.pushes[count - 1];
        assert(before.pushes[count - 1] == state.pushes[count - 1]);
        assert(state.ready[item as int] == ItemModel::Instruction(op));
        match op {
            OpModel::Push(term) => {
                known_references_are_not_too_deep(
                    term,
                    context::top_context(before.labels, before.macros),
                    NESTING_LIMIT as nat,
                );
                match encode::value_of(term, before.labels, before.macros) {
                    Ok(value) => {
                        let room = 1 + encode::width_needed(value);
                        if before.sizes[item as int] < room {
                            let sizes = before.sizes.update(item as int, room);
                            placement::wider_is_well_formed(before, sizes);
                            positions_fit(State { sizes, ..before });
                        }
                    },
                    Err(_) => {},
                }
            },
            _ => {},
        }
    }
}

proof fn backpatching_succeeds(state: State)
    requires
        placement::in_place(state),
        has_positions(state),
        knows_references(state),
    ensures
        state::backpatched(state).failure is None,
    decreases state::slack(state.sizes),
{
    let after = state::pushes_widened(state, state.pushes.len());
    widening_succeeds(state, state.pushes.len());
    state::widening_grows(state, state.pushes.len());
    placement::widening_is_in_place(state, state.pushes.len());
    if after.state.sizes != state.sizes {
        state::growing_takes_slack(state.sizes, after.state.sizes);
        backpatching_succeeds(after.state);
    }
}

/// A program is laid out, unless it has no positions left or macros are nested without end.
pub proof fn programs_are_laid_out(state: State)
    requires
        placement::in_place(state),
        has_positions(state),
        knows_references(state),
    ensures
        state::laid_out(state).failure is None,
    decreases state::slack(state.sizes),
{
    let plain = state::backpatched(state);
    backpatching_succeeds(state);
    state::backpatching_grows(state);
    placement::backpatching_is_in_place(state);
    let (pushes, output) = state::emitted(plain.state, plain.state.ready.len());
    match (output, state.offset) {
        (Ok(bytes), Some(offset)) => {
            let in_gif = state::moved_to_gif(plain.state, bytes, offset);
            let sizes = state::sizes_widened(in_gif.state, pushes, pushes.len());
            if in_gif.failure is None && sizes != in_gif.state.sizes {
                placement::relocating_keeps_names(
                    plain.state,
                    plain.state.marks.len(),
                    evmgif::map_of(bytes),
                    offset,
                );
                placement::well_formed_with_names(plain.state, in_gif.state);
                placement::noted_pushes_are_items(plain.state, plain.state.ready.len());
                assert(placement::notes_are_items(in_gif.state, pushes));
                state::widening_for_gif_grows(in_gif.state, pushes, pushes.len());
                placement::widening_for_gif_is_for_pushes(in_gif.state, pushes, pushes.len());
                placement::wider_is_well_formed(in_gif.state, sizes);
                let wider = State { sizes, ..in_gif.state };
                positions_fit(wider);
                let after = state::resized(in_gif.state, sizes);
                placement::placed_is_in_place(wider);
                state::growing_takes_slack(plain.state.sizes, sizes);
                state::growing_takes_slack(state.sizes, plain.state.sizes);
                programs_are_laid_out(after.state);
            }
        },
        _ => {},
    }
}

proof fn widening_fails_by_fault(state: State, count: nat)
    ensures
        state::pushes_widened(state, count).failure matches Some(failure) ==> failure
            == FailureModel::Fault(Fault::OffsetOverflow) || failure == FailureModel::Fault(
            Fault::EndlessMacro,
        ),
    decreases count,
{
    if count > 0 {
        widening_fails_by_fault(state, (count - 1) as nat);
    }
}

proof fn backpatching_fails_by_fault(state: State)
    ensures
        state::backpatched(state).failure matches Some(failure) ==> failure == FailureModel::Fault(
            Fault::OffsetOverflow,
        ) || failure == FailureModel::Fault(Fault::EndlessMacro),
    decreases state::slack(state.sizes),
{
    let after = state::pushes_widened(state, state.pushes.len());
    widening_fails_by_fault(state, state.pushes.len());
    state::widening_grows(state, state.pushes.len());
    if !(after.failure is Some || after.state.sizes == state.sizes) {
        state::growing_takes_slack(state.sizes, after.state.sizes);
        backpatching_fails_by_fault(after.state);
    }
}

/// Where a program is not laid out, it is unfit for the assembler.
pub proof fn laying_out_fails_by_fault(state: State)
    ensures
        state::laid_out(state).failure matches Some(failure) ==> failure == FailureModel::Fault(
            Fault::OffsetOverflow,
        ) || failure == FailureModel::Fault(Fault::EndlessMacro),
    decreases state::slack(state.sizes),
{
    let plain = state::backpatched(state);
    backpatching_fails_by_fault(state);
    state::backpatching_grows(state);
    let (pushes, output) = state::emitted(plain.state, plain.state.ready.len());
    match (plain.failure, output, state.offset) {
        (None, Ok(bytes), Some(offset)) => {
            let in_gif = state::moved_to_gif(plain.state, bytes, offset);
            let sizes = state::sizes_widened(in_gif.state, pushes, pushes.len());
            if !(in_gif.failure is Some || sizes == in_gif.state.sizes) {
                let after = state::resized(in_gif.state, sizes);
                if after.failure is None {
                    state::widening_for_gif_grows(in_gif.state, pushes, pushes.len());
                    state::growing_takes_slack(plain.state.sizes, sizes);
                    state::growing_takes_slack(state.sizes, plain.state.sizes);
                    laying_out_fails_by_fault(after.state);
                }
            }
        },
        _ => {},
    }
}

/// The width of the immediate of `op`, at its widest.
pub open spec fn most_bytes(op: OpModel) -> nat {
    match op {
        OpModel::Op { code, .. } => (code - 0x5f) as nat,
        _ => 32,
    }
}

/// Whether the item at index `i` can be written: a push of a value that is not negative and fits in
/// its bytes, and the directive `.org` where its offset is not behind.
pub open spec fn can_be_written(state: State, i: int) -> bool {
    match state.ready[i] {
        ItemModel::Raw(_) => true,
        ItemModel::Org(offset) => placement::position_in(state, i) <= offset,
        ItemModel::Instruction(op) => match encode::expression_in(op) {
            None => true,
            Some(term) => match encode::value_of(term, state.labels, state.macros) {
                Ok(value) => 0 <= value < power::pow(256, most_bytes(op)),
                Err(_) => false,
            },
        },
    }
}

/// Why the item at index `i` cannot be written.
pub open spec fn is_reason(state: State, i: int, failure: FailureModel) -> bool {
    match state.ready[i] {
        ItemModel::Raw(_) => false,
        ItemModel::Org(offset) => failure == FailureModel::Error(
            ErrorModel::OrgRewind { offset, position: placement::position_in(state, i) },
        ),
        ItemModel::Instruction(op) => match encode::expression_in(op) {
            None => false,
            Some(expr) => match encode::value_of(expr, state.labels, state.macros) {
                Ok(value) => if value < 0 {
                    failure == FailureModel::Error(ErrorModel::ExpressionNegative { expr, value })
                } else {
                    failure == FailureModel::Error(
                        ErrorModel::ExpressionTooLarge {
                            expr,
                            value,
                            spec: match op {
                                OpModel::Op { code, .. } => code,
                                _ => 0x7f,
                            },
                        },
                    )
                },
                Err(EvalErrorModel::UnknownLabel(_)) => failure == FailureModel::Error(
                    ErrorModel::UndeclaredLabels { labels: state.undeclared },
                ),
                Err(EvalErrorModel::UnknownMacro(name)) => failure == FailureModel::Error(
                    ErrorModel::UndeclaredExpressionMacro { name },
                ),
                Err(EvalErrorModel::UndefinedVariable(var)) => failure == FailureModel::Error(
                    ErrorModel::UndeclaredVariableMacro { var },
                ),
                Err(EvalErrorModel::TooDeep) => failure == FailureModel::Fault(
                    Fault::EndlessMacro,
                ),
            },
        },
    }
}

/// Whether the instructions with an immediate are pushes.
pub open spec fn immediates_are_pushed(state: State) -> bool {
    forall|i: int|
        #![trigger state.ready[i]]
        0 <= i < state.ready.len() ==> match state.ready[i] {
            ItemModel::Instruction(OpModel::Op { code, immediate: Some(_) }) => 0x60 <= code
                <= 0x7f,
            _ => true,
        }
}

proof fn item_is_written_or_refused(state: State, i: nat, output: Seq<u8>)
    requires
        placement::in_place(state),
        placement::pushes_have_room(state),
        immediates_are_pushed(state),
        knows_references(state),
        i < state.ready.len(),
        state::emitted(state, i).1 == Ok::<Seq<u8>, FailureModel>(output),
        placement::position_in(state, i as int) <= usize::MAX,
    ensures
        match state::emitted(state, i + 1).1 {
            Ok(_) => can_be_written(state, i as int),
            Err(failure) => !can_be_written(state, i as int) && is_reason(state, i as int, failure),
        },
{
    placement::items_take_up_their_room(state, i);
    assert(placement::has_room(state, i as int));
    match state.ready[i as int] {
        ItemModel::Instruction(OpModel::Op { code, immediate: Some(term) }) => {
            match encode::value_of(term, state.labels, state.macros) {
                Ok(value) => {
                    refusals::fixed_pushes_hold(code, value);
                },
                Err(_) => {},
            }
        },
        ItemModel::Instruction(OpModel::Push(term)) => {
            match encode::value_of(term, state.labels, state.macros) {
                Ok(value) => {
                    refusals::laid_out_pushes_hold(state, i as int, term, value);
                },
                Err(_) => {},
            }
        },
        _ => {},
    }
}

/// A program that is laid out has an output if and only if each of its items can be written, and
/// else the first one that cannot be written decides the error.
pub proof fn first_unwritable_item_decides(state: State, count: nat)
    requires
        placement::in_place(state),
        placement::pushes_have_room(state),
        immediates_are_pushed(state),
        knows_references(state),
        state::positions_fit(state.origin, state.ready, state.sizes),
        count <= state.ready.len(),
    ensures
        state::emitted(state, count).1 is Ok <==> forall|i: int|
            0 <= i < count ==> #[trigger] can_be_written(state, i),
        state::emitted(state, count).1 matches Err(failure) ==> exists|i: int|
            0 <= i < count && #[trigger] is_reason(state, i, failure) && !can_be_written(state, i)
                && forall|j: int| 0 <= j < i ==> #[trigger] can_be_written(state, j),
    decreases count,
{
    if count > 0 {
        let last = (count - 1) as nat;
        first_unwritable_item_decides(state, last);
        match state::emitted(state, last).1 {
            Ok(output) => {
                assert(state::position_at(
                    state.origin,
                    state.ready,
                    state.sizes,
                    last as int,
                ) <= usize::MAX);
                item_is_written_or_refused(state, last, output);
                match state::emitted(state, count).1 {
                    Ok(_) => {
                        assert(can_be_written(state, last as int));
                    },
                    Err(failure) => {
                        assert(!can_be_written(state, last as int));
                        assert(is_reason(state, last as int, failure));
                    },
                }
            },
            Err(failure) => {
                let i = choose|i: int|
                    0 <= i < last && #[trigger] is_reason(state, i, failure) && !can_be_written(
                        state,
                        i,
                    ) && forall|j: int| 0 <= j < i ==> #[trigger] can_be_written(state, j);
                assert(!can_be_written(state, i));
                assert(is_reason(state, i, failure));
            },
        }
    }
}

/// What comes of a program whose items were accepted, where it goes into no file: an output if and
/// only if no label is left undeclared and, once it is laid out, all items can be written.
pub proof fn outputs_are_owed(state: State)
    requires
        placement::in_place(state),
        has_positions(state),
        knows_references(state),
        immediates_are_pushed(state),
        state.offset is None,
    ensures
        ({
            let layout = state::laid_out(state).state;
            let result = state::finished(state).result;
            &&& result is Ok <==> state.undeclared.len() == 0 && forall|i: int|
                0 <= i < layout.ready.len() ==> #[trigger] can_be_written(layout, i)
            &&& state.undeclared.len() > 0 ==> result == Err::<Seq<u8>, FailureModel>(
                FailureModel::Error(ErrorModel::UndeclaredLabels { labels: state.undeclared }),
            )
            &&& state.undeclared.len() == 0 && result is Err ==> exists|i: int|
                0 <= i < layout.ready.len() && #[trigger] is_reason(layout, i, result->Err_0)
                    && !can_be_written(layout, i) && forall|j: int|
                    0 <= j < i ==> #[trigger] can_be_written(layout, j)
        }),
{
    programs_are_laid_out(state);
    placement::laying_out_is_in_place(state);
    let layout = state::laid_out(state).state;
    positions_fit(layout);
    first_unwritable_item_decides(layout, layout.ready.len());
}

/// What comes of a program that goes into a GIF file: an output if and only if no label is left
/// undeclared, all items can be written once it is laid out, its labels have places in the file, and
/// the pushes that refer to them have room for their values there.
pub proof fn files_are_owed(state: State, offset: u64)
    requires
        placement::in_place(state),
        has_positions(state),
        knows_references(state),
        immediates_are_pushed(state),
        state.offset == Some(offset),
    ensures
        ({
            let layout = state::laid_out(state).state;
            let (pushes, output) = state::emitted(layout, layout.ready.len());
            let in_gif = state::moved_to_gif(layout, output->Ok_0, offset);
            let result = state::finished(state).result;
            let writable = forall|i: int|
                0 <= i < layout.ready.len() ==> #[trigger] can_be_written(layout, i);
            &&& state.undeclared.len() > 0 ==> result == Err::<Seq<u8>, FailureModel>(
                FailureModel::Error(ErrorModel::UndeclaredLabels { labels: state.undeclared }),
            )
            &&& state.undeclared.len() == 0 && !writable ==> result is Err && exists|i: int|
                0 <= i < layout.ready.len() && #[trigger] is_reason(layout, i, result->Err_0)
                    && !can_be_written(layout, i) && forall|j: int|
                    0 <= j < i ==> #[trigger] can_be_written(layout, j)
            &&& state.undeclared.len() == 0 && writable ==> {
                &&& in_gif.failure matches Some(failure) ==> result == Err::<
                    Seq<u8>,
                    FailureModel,
                >(failure)
                &&& in_gif.failure is None ==> (result is Ok <==> forall|j: int|
                    0 <= j < pushes.len() ==> packing::is_patchable(
                        in_gif.state,
                        #[trigger] pushes[j],
                        evmgif::map_of(output->Ok_0),
                        evmgif::packed(output->Ok_0).len() as int,
                    ))
            }
        }),
{
    programs_are_laid_out(state);
    placement::laying_out_is_in_place(state);
    let layout = state::laid_out(state).state;
    positions_fit(layout);
    first_unwritable_item_decides(layout, layout.ready.len());
    let (pushes, output) = state::emitted(layout, layout.ready.len());
    if output is Ok && state.undeclared.len() == 0 {
        let bytes = output->Ok_0;
        let in_gif = state::moved_to_gif(layout, bytes, offset);
        packing::first_unpatchable_decides(
            in_gif.state,
            evmgif::packed(bytes),
            pushes,
            pushes.len(),
            evmgif::map_of(bytes),
        );
    }
}

} // verus!
