//! How much room pushes get: what their values need, and no more.

use vstd::arithmetic::power;
use vstd::prelude::*;

use crate::context;
use crate::context::{Context, EvalErrorModel, NESTING_LIMIT};
use crate::encode;
use crate::error::{ErrorModel, FailureModel};
use crate::expression::Term;
use crate::integer;
use crate::ops::{MacroModel, OpModel};
use crate::placement;
use crate::refusals;
use crate::state;
use crate::state::{Outcome, PushRefModel, State};

verus! {

/// How many bytes a push of `value` needs: as few as hold the value, from one up to 32, and one where
/// the value is negative.
pub proof fn widths_are_least(value: int, width: nat)
    requires
        1 <= width < 32,
    ensures
        1 <= encode::width_needed(value) <= 32,
        encode::width_needed(value) <= width <==> value < power::pow(256, width),
{
    power::lemma_pow_positive(256, width);
    if value >= 0 {
        integer::be_bytes_represent(value as nat);
        refusals::width_bounds_value(value as nat, width);
    }
}

/// A push without a size of its own is widened to what its value needs where it has less, and the
/// labels are placed anew at once. All else stays, and nothing changes where there is room.
pub proof fn pushes_are_widened_to_need(state: State, count: nat, term: Term, value: int)
    requires
        count < state.pushes.len(),
        state.pushes[count as int].0 == OpModel::Push(term),
        state.pushes[count as int].1 < state.sizes.len(),
        state::pushes_widened(state, count).failure is None,
        ({
            let before = state::pushes_widened(state, count).state;
            encode::value_of(term, before.labels, before.macros) == Ok::<int, EvalErrorModel>(value)
        }),
    ensures
        ({
            let before = state::pushes_widened(state, count).state;
            let after = state::pushes_widened(state, count + 1);
            let i = state.pushes[count as int].1 as int;
            let needed = 1 + encode::width_needed(value);
            &&& before.sizes[i] >= needed ==> after == (Outcome { state: before, failure: None })
            &&& before.sizes[i] < needed ==> after == state::placed(
                State { sizes: before.sizes.update(i, needed), ..before },
            )
        }),
{
    state::widening_grows(state, count);
}

/// A push whose value is not known keeps its room.
pub proof fn open_pushes_keep_their_room(state: State, count: nat, term: Term, error: EvalErrorModel)
    requires
        count < state.pushes.len(),
        state.pushes[count as int].0 == OpModel::Push(term),
        state::pushes_widened(state, count).failure is None,
        !(error is TooDeep),
        ({
            let before = state::pushes_widened(state, count).state;
            encode::value_of(term, before.labels, before.macros) == Err::<int, EvalErrorModel>(
                error,
            )
        }),
    ensures
        state::pushes_widened(state, count + 1) == state::pushes_widened(state, count),
{
}

/// Pushes are widened over and over, until nothing changes any more.
pub proof fn widening_is_repeated(state: State)
    ensures
        ({
            let after = state::pushes_widened(state, state.pushes.len());
            &&& after.failure is Some || after.state.sizes == state.sizes
                ==> state::backpatched(state) == after
            &&& after.failure is None && after.state.sizes != state.sizes
                ==> state::backpatched(state) == state::backpatched(after.state)
        }),
{
    let after = state::pushes_widened(state, state.pushes.len());
    state::widening_grows(state, state.pushes.len());
    if !(after.failure is Some || after.state.sizes == state.sizes) {
        state::growing_takes_slack(state.sizes, after.state.sizes);
    }
}

/// In a GIF file, a push without a size of its own is widened to what its value needs there, where
/// it has less. All others keep their room.
pub proof fn file_pushes_are_widened_to_need(
    state: State,
    pushes: Seq<PushRefModel>,
    count: nat,
)
    requires
        count < pushes.len(),
        pushes[count as int].item < state.sizes.len(),
    ensures
        ({
            let before = state::sizes_widened(state, pushes, count);
            let after = state::sizes_widened(state, pushes, count + 1);
            let push = pushes[count as int];
            let i = push.item as int;
            match encode::value_of(push.expr, state.labels, state.macros) {
                Ok(value) => if push.resizable {
                    &&& after.len() == before.len()
                    &&& after[i] == if before[i] < 1 + encode::width_needed(value) {
                        1 + encode::width_needed(value)
                    } else {
                        before[i]
                    }
                    &&& forall|k: int| 0 <= k < before.len() && k != i ==> after[k] == before[k]
                } else {
                    after == before
                },
                Err(_) => after == before,
            }
        }),
{
    state::widening_for_gif_grows(state, pushes, count);
}

/// Where every push has room for its value in the GIF file already, none is widened for the file.
pub proof fn enough_room_is_kept(state: State, offset: u64)
    requires
        state.offset == Some(offset),
        state::backpatched(state).failure is None,
        ({
            let plain = state::backpatched(state).state;
            let (pushes, output) = state::emitted(plain, plain.ready.len());
            let in_gif = state::moved_to_gif(plain, output->Ok_0, offset).state;
            forall|j: int|
                #![trigger pushes[j]]
                0 <= j < pushes.len() && pushes[j].resizable && pushes[j].item
                    < plain.sizes.len() ==> match encode::value_of(
                    pushes[j].expr,
                    in_gif.labels,
                    in_gif.macros,
                ) {
                    Ok(value) => 1 + encode::width_needed(value)
                        <= plain.sizes[pushes[j].item as int],
                    Err(_) => true,
                }
        }),
    ensures
        state::laid_out(state) == state::backpatched(state),
{
    let plain = state::backpatched(state).state;
    state::backpatching_grows(state);
    let (pushes, output) = state::emitted(plain, plain.ready.len());
    if output is Ok {
        let in_gif = state::moved_to_gif(plain, output->Ok_0, offset).state;
        nothing_is_widened(in_gif, pushes, pushes.len());
    }
}

proof fn nothing_is_widened(state: State, pushes: Seq<PushRefModel>, count: nat)
    requires
        count <= pushes.len(),
        forall|j: int|
            #![trigger pushes[j]]
            0 <= j < pushes.len() && pushes[j].resizable && pushes[j].item < state.sizes.len()
                ==> match encode::value_of(pushes[j].expr, state.labels, state.macros) {
                Ok(value) => 1 + encode::width_needed(value) <= state.sizes[pushes[j].item as int],
                Err(_) => true,
            },
    ensures
        state::sizes_widened(state, pushes, count) == state.sizes,
    decreases count,
{
    if count > 0 {
        nothing_is_widened(state, pushes, (count - 1) as nat);
        assert(pushes[count - 1] == pushes[count - 1]);
    }
}

/// A program that goes into no file is laid out once its pushes have room.
pub proof fn plain_layout_is_backpatched(state: State)
    requires
        state.offset is None,
    ensures
        state::laid_out(state) == state::backpatched(state),
{
}

/// What is left of the assembler where there is no output: all of it as it was where labels are
/// undeclared, and else the program as it was laid out.
pub proof fn failures_leave_the_layout(state: State)
    ensures
        ({
            let emission = state::finished(state);
            let layout = state::laid_out(state).state;
            &&& state.undeclared.len() > 0 ==> emission.state == state
            &&& state.undeclared.len() == 0 && layout.offset is None ==> emission.state == layout
            &&& state.undeclared.len() == 0 ==> emission.state == (State {
                labels: emission.state.labels,
                ..layout
            })
        }),
{
}

/// A label that was moved into a GIF file is marked as moved.
pub proof fn relocated_labels_are_marked(
    state: State,
    count: nat,
    map: Map<usize, usize>,
    offset: u64,
    m: int,
)
    requires
        placement::in_place(state),
        count <= state.marks.len(),
        0 <= m < count,
        state::relocated(state, count, map, offset).1 is None,
    ensures
        ({
            let i = state.marks[m].0 as int;
            let entry = state::relocated(state, count, map, offset).0[i];
            &&& entry.0 == state.labels[i].0
            &&& entry.1 is Some
            &&& entry.1->0.updated
        }),
    decreases count,
{
    let last = (count - 1) as nat;
    placement::relocating_keeps_names(state, last, map, offset);
    placement::relocating_keeps_names(state, count, map, offset);
    let before = state::relocated(state, last, map, offset);
    assert(state.marks[last as int].0 < state.labels.len());
    assert(placement::stands_at(
        state.labels,
        state.marks[last as int].0 as int,
        placement::position_in(state, state.marks[last as int].1 as int),
    ));
    if m < last {
        relocated_labels_are_marked(state, last, map, offset, m);
        assert(state.marks[m].0 < state.marks[last as int].0);
    }
}

/// How deep expression macros are nested in `term`: no deeper than `depth`.
pub open spec fn nests(term: Term, macros: Seq<MacroModel>, depth: nat) -> bool
    decreases depth, term,
{
    match term {
        Term::Macro(name, arguments) => {
            &&& all_nest(arguments, macros, depth)
            &&& match context::find_macro(macros, name) {
                Some(MacroModel::Expression { content, .. }) => depth > 0 && nests(
                    content,
                    macros,
                    (depth - 1) as nat,
                ),
                _ => true,
            }
        },
        Term::Plus(left, right) => nests(*left, macros, depth) && nests(*right, macros, depth),
        Term::Minus(left, right) => nests(*left, macros, depth) && nests(*right, macros, depth),
        _ => true,
    }
}

/// How deep expression macros are nested in `terms`.
pub open spec fn all_nest(terms: Seq<Term>, macros: Seq<MacroModel>, depth: nat) -> bool
    decreases depth, terms,
{
    forall|i: int| 0 <= i < terms.len() ==> nests(#[trigger] terms[i], macros, depth)
}

/// Macros that are nested no deeper than 2 to the power of 64 less one are not nested too deep.
pub proof fn nested_macros_have_values(term: Term, context: Context, depth: nat)
    requires
        nests(term, context.macros, depth),
        depth <= 0xffff_ffff_ffff_ffff,
    ensures
        context::eval(term, context, NESTING_LIMIT as nat) != Err::<int, EvalErrorModel>(
            EvalErrorModel::TooDeep,
        ),
        context::labels_in(term, context.macros, NESTING_LIMIT as nat) != Err::<
            Seq<Seq<char>>,
            EvalErrorModel,
        >(EvalErrorModel::TooDeep),
{
    nested_macros_are_not_too_deep(term, context, depth, NESTING_LIMIT as nat);
}

proof fn nested_macros_are_not_too_deep(term: Term, context: Context, depth: nat, limit: nat)
    requires
        nests(term, context.macros, depth),
        depth <= limit,
    ensures
        context::eval(term, context, limit) != Err::<int, EvalErrorModel>(EvalErrorModel::TooDeep),
        context::labels_in(term, context.macros, limit) != Err::<Seq<Seq<char>>, EvalErrorModel>(
            EvalErrorModel::TooDeep,
        ),
    decreases limit, term,
{
    match term {
        Term::Macro(name, arguments) => {
            assert(all_nest(arguments, context.macros, depth));
            all_nested_macros_are_not_too_deep(arguments, context, depth, limit);
            match context::find_macro(context.macros, name) {
                Some(MacroModel::Expression { parameters, content, .. }) => {
                    assert(nests(content, context.macros, (depth - 1) as nat));
                    let values = match context::eval_all(arguments, context, limit) {
                        Ok(values) => values,
                        Err(_) => Seq::empty(),
                    };
                    nested_macros_are_not_too_deep(
                        content,
                        Context {
                            labels: context.labels,
                            macros: context.macros,
                            names: parameters,
                            values,
                        },
                        (depth - 1) as nat,
                        (limit - 1) as nat,
                    );
                },
                _ => {},
            }
        },
        Term::Plus(left, right) => {
            nested_macros_are_not_too_deep(*left, context, depth, limit);
            nested_macros_are_not_too_deep(*right, context, depth, limit);
        },
        Term::Minus(left, right) => {
            nested_macros_are_not_too_deep(*left, context, depth, limit);
            nested_macros_are_not_too_deep(*right, context, depth, limit);
        },
        _ => {},
    }
}

proof fn all_nested_macros_are_not_too_deep(
    terms: Seq<Term>,
    context: Context,
    depth: nat,
    limit: nat,
)
    requires
        forall|i: int| 0 <= i < terms.len() ==> nests(#[trigger] terms[i], context.macros, depth),
        depth <= limit,
    ensures
        context::eval_all(terms, context, limit) != Err::<Seq<int>, EvalErrorModel>(
            EvalErrorModel::TooDeep,
        ),
        context::labels_in_all(terms, context.macros, limit) != Err::<
            Seq<Seq<char>>,
            EvalErrorModel,
        >(EvalErrorModel::TooDeep),
    decreases limit, terms,
{
    if terms.len() > 0 {
        let front = terms.drop_last();
        assert forall|i: int| 0 <= i < front.len() implies nests(
            #[trigger] front[i],
            context.macros,
            depth,
        ) by {
            assert(front[i] == terms[i]);
        }
        all_nested_macros_are_not_too_deep(front, context, depth, limit);
        assert(nests(terms[terms.len() - 1], context.macros, depth));
        nested_macros_are_not_too_deep(terms.last(), context, depth, limit);
    }
}

/// Undeclared labels are reported before anything else that is wrong with the program.
pub proof fn undeclared_labels_come_first(state: State)
    requires
        state.undeclared.len() > 0,
    ensures
        state::finished(state).result == Err::<Seq<u8>, FailureModel>(
            FailureModel::Error(ErrorModel::UndeclaredLabels { labels: state.undeclared }),
        ),
{
}

} // verus!
