//! Labels that are referred to: each of them is declared, or it is reported.

use vstd::prelude::*;

use crate::context;
use crate::context::{Context, EvalErrorModel, NESTING_LIMIT};
use crate::encode;
use crate::error::{ErrorModel, FailureModel, Fault};
use crate::evmgif;
use crate::expression::Term;
use crate::labels;
use crate::labels::LabelDef;
use crate::laws;
use crate::macros;
use crate::ops::{MacroModel, OpModel, RawModel};
use crate::placement;
use crate::progress;
use crate::state;
use crate::state::{ItemModel, PushRefModel, State};

verus! {

/// Whether `label` has a position.
pub open spec fn has_position(
    entries: Seq<(Seq<char>, Option<LabelDef>)>,
    label: Seq<char>,
) -> bool {
    labels::label_lookup(entries, label) is Some && labels::label_lookup(entries, label)->0 is Some
}

/// Whether each of `used_labels` has a position.
pub open spec fn all_have_positions(
    entries: Seq<(Seq<char>, Option<LabelDef>)>,
    used_labels: Seq<Seq<char>>,
) -> bool {
    forall|i: int|
        0 <= i < used_labels.len() ==> has_position(entries, #[trigger] used_labels[i])
}

/// Whether the labels that `op` refers to are taken care of: the expression has a value, or each
/// label that it refers to is declared or waits for its declaration.
pub open spec fn accounted_for(state: State, op: OpModel) -> bool {
    match encode::expression_in(op) {
        Some(term) => {
            ||| encode::value_of(term, state.labels, state.macros) is Ok
            ||| {
                let used_labels = context::labels_in(term, state.macros, NESTING_LIMIT as nat);
                &&& used_labels is Ok
                &&& forall|i: int|
                    0 <= i < used_labels->Ok_0.len() ==> has_position(
                        state.labels,
                        #[trigger] used_labels->Ok_0[i],
                    ) || state.undeclared.contains(used_labels->Ok_0[i])
            }
        },
        None => true,
    }
}

/// The labels of a program are taken care of: no label is declared twice, each one has a position,
/// the undeclared ones are listed once, and they are all there are.
pub open spec fn settled(state: State) -> bool {
    &&& laws::distinct_labels(state.labels)
    &&& forall|i: int| 0 <= i < state.labels.len() ==> (#[trigger] state.labels[i]).1 is Some
    &&& state.undeclared.no_duplicates()
    &&& forall|i: int|
        0 <= i < state.undeclared.len() ==> labels::label_index(
            state.labels,
            #[trigger] state.undeclared[i],
        ) is None
    &&& forall|i: int|
        0 <= i < state.ready.len() ==> match #[trigger] state.ready[i] {
            ItemModel::Instruction(op) => accounted_for(state, op),
            _ => true,
        }
}

/// An expression whose labels all have positions has a value, or it has none for another reason.
proof fn no_label_is_unknown(term: Term, context: Context, depth: nat)
    requires
        context::labels_in(term, context.macros, depth) is Ok,
        all_have_positions(
            context.labels,
            context::labels_in(term, context.macros, depth)->Ok_0,
        ),
    ensures
        match context::eval(term, context, depth) {
            Err(EvalErrorModel::UnknownLabel(_)) => false,
            _ => true,
        },
    decreases depth, term,
{
    match term {
        Term::Label(label) => {
            let used_labels = context::labels_in(term, context.macros, depth)->Ok_0;
            assert(used_labels[0] == label);
        },
        Term::Macro(name, arguments) => match context::find_macro(context.macros, name) {
            Some(MacroModel::Expression { parameters, content, .. }) => {
                let first = context::labels_in_all(arguments, context.macros, depth)->Ok_0;
                let second = context::labels_in(
                    content,
                    context.macros,
                    (depth - 1) as nat,
                )->Ok_0;
                all_have_positions_split(context.labels, first, second);
                no_label_of_all_is_unknown(arguments, context, depth);
                match context::eval_all(arguments, context, depth) {
                    Ok(values) => {
                        no_label_is_unknown(
                            content,
                            Context {
                                labels: context.labels,
                                macros: context.macros,
                                names: parameters,
                                values,
                            },
                            (depth - 1) as nat,
                        );
                    },
                    Err(_) => {},
                }
            },
            _ => {},
        },
        Term::Plus(left, right) => {
            let first = context::labels_in(*left, context.macros, depth)->Ok_0;
            let second = context::labels_in(*right, context.macros, depth)->Ok_0;
            all_have_positions_split(context.labels, first, second);
            no_label_is_unknown(*left, context, depth);
            no_label_is_unknown(*right, context, depth);
        },
        Term::Minus(left, right) => {
            let first = context::labels_in(*left, context.macros, depth)->Ok_0;
            let second = context::labels_in(*right, context.macros, depth)->Ok_0;
            all_have_positions_split(context.labels, first, second);
            no_label_is_unknown(*left, context, depth);
            no_label_is_unknown(*right, context, depth);
        },
        _ => {},
    }
}

proof fn all_have_positions_split(
    entries: Seq<(Seq<char>, Option<LabelDef>)>,
    first: Seq<Seq<char>>,
    second: Seq<Seq<char>>,
)
    requires
        all_have_positions(entries, first + second),
    ensures
        all_have_positions(entries, first),
        all_have_positions(entries, second),
{
    assert forall|i: int| 0 <= i < first.len() implies has_position(
        entries,
        #[trigger] first[i],
    ) by {
        assert((first + second)[i] == first[i]);
    }
    assert forall|i: int| 0 <= i < second.len() implies has_position(
        entries,
        #[trigger] second[i],
    ) by {
        assert((first + second)[first.len() + i] == second[i]);
    }
}

proof fn no_label_of_all_is_unknown(terms: Seq<Term>, context: Context, depth: nat)
    requires
        context::labels_in_all(terms, context.macros, depth) is Ok,
        all_have_positions(
            context.labels,
            context::labels_in_all(terms, context.macros, depth)->Ok_0,
        ),
    ensures
        match context::eval_all(terms, context, depth) {
            Err(EvalErrorModel::UnknownLabel(_)) => false,
            _ => true,
        },
    decreases depth, terms,
{
    if terms.len() > 0 {
        let first = context::labels_in_all(terms.drop_last(), context.macros, depth)->Ok_0;
        let second = context::labels_in(terms.last(), context.macros, depth)->Ok_0;
        all_have_positions_split(context.labels, first, second);
        no_label_of_all_is_unknown(terms.drop_last(), context, depth);
        no_label_is_unknown(terms.last(), context, depth);
    }
}

/// Every label that has a position in `entries` has one in `others`.
pub open spec fn no_position_is_lost(
    entries: Seq<(Seq<char>, Option<LabelDef>)>,
    others: Seq<(Seq<char>, Option<LabelDef>)>,
) -> bool {
    forall|label: Seq<char>|
        has_position(entries, label) ==> #[trigger] has_position(others, label)
}

/// Whether an expression has a value does not depend on where its labels are.
proof fn values_are_not_lost(
    term: Term,
    context: Context,
    others: Seq<(Seq<char>, Option<LabelDef>)>,
    values: Seq<int>,
    depth: nat,
)
    requires
        no_position_is_lost(context.labels, others),
        values.len() == context.values.len(),
        context::eval(term, context, depth) is Ok,
    ensures
        context::eval(
            term,
            Context { labels: others, values, macros: context.macros, names: context.names },
            depth,
        ) is Ok,
    decreases depth, term,
{
    let other = Context {
        labels: others,
        values,
        macros: context.macros,
        names: context.names,
    };
    match term {
        Term::Label(label) => {
            assert(has_position(context.labels, label));
            assert(has_position(others, label));
        },
        Term::Variable(name) => {
            variables_are_not_lost(
                context.names,
                context.values,
                values,
                name,
                context::variable_count(context.names, context.values),
            );
        },
        Term::Macro(name, arguments) => match context::find_macro(context.macros, name) {
            Some(MacroModel::Expression { parameters, content, .. }) => {
                all_values_are_not_lost(arguments, context, others, values, depth);
                values_are_not_lost(
                    content,
                    Context {
                        labels: context.labels,
                        macros: context.macros,
                        names: parameters,
                        values: context::eval_all(arguments, context, depth)->Ok_0,
                    },
                    others,
                    context::eval_all(arguments, other, depth)->Ok_0,
                    (depth - 1) as nat,
                );
            },
            _ => {},
        },
        Term::Plus(left, right) => {
            values_are_not_lost(*left, context, others, values, depth);
            values_are_not_lost(*right, context, others, values, depth);
        },
        Term::Minus(left, right) => {
            values_are_not_lost(*left, context, others, values, depth);
            values_are_not_lost(*right, context, others, values, depth);
        },
        _ => {},
    }
}

proof fn variables_are_not_lost(
    names: Seq<Seq<char>>,
    values: Seq<int>,
    others: Seq<int>,
    name: Seq<char>,
    count: nat,
)
    requires
        context::variable_value(names, values, name, count) is Some,
    ensures
        context::variable_value(names, others, name, count) is Some,
    decreases count,
{
    if count > 0 && names[count - 1] != name {
        variables_are_not_lost(names, values, others, name, (count - 1) as nat);
    }
}

proof fn all_values_are_not_lost(
    terms: Seq<Term>,
    context: Context,
    others: Seq<(Seq<char>, Option<LabelDef>)>,
    values: Seq<int>,
    depth: nat,
)
    requires
        no_position_is_lost(context.labels, others),
        values.len() == context.values.len(),
        context::eval_all(terms, context, depth) is Ok,
    ensures
        ({
            let other = Context {
                labels: others,
                values,
                macros: context.macros,
                names: context.names,
            };
            &&& context::eval_all(terms, other, depth) is Ok
            &&& context::eval_all(terms, other, depth)->Ok_0.len() == context::eval_all(
                terms,
                context,
                depth,
            )->Ok_0.len()
        }),
    decreases depth, terms,
{
    if terms.len() > 0 {
        all_values_are_not_lost(terms.drop_last(), context, others, values, depth);
        values_are_not_lost(terms.last(), context, others, values, depth);
    }
}

/// Items stay accounted for as labels are declared.
proof fn accounts_are_kept(state: State, later: State, op: OpModel)
    requires
        later.macros == state.macros,
        no_position_is_lost(state.labels, later.labels),
        forall|label: Seq<char>|
            state.undeclared.contains(label) ==> #[trigger] later.undeclared.contains(label)
                || has_position(later.labels, label),
        accounted_for(state, op),
    ensures
        accounted_for(later, op),
{
    match encode::expression_in(op) {
        Some(term) => {
            if encode::value_of(term, state.labels, state.macros) is Ok {
                values_are_not_lost(
                    term,
                    context::top_context(state.labels, state.macros),
                    later.labels,
                    Seq::empty(),
                    NESTING_LIMIT as nat,
                );
            } else {
                let used_labels = context::labels_in(
                    term,
                    state.macros,
                    NESTING_LIMIT as nat,
                )->Ok_0;
                assert forall|i: int| 0 <= i < used_labels.len() implies has_position(
                    later.labels,
                    #[trigger] used_labels[i],
                ) || later.undeclared.contains(used_labels[i]) by {
                    assert(has_position(state.labels, used_labels[i]) || state.undeclared.contains(
                        used_labels[i],
                    ));
                }
            }
        },
        None => {},
    }
}

/// What is left when `label` is taken out.
proof fn without_label_rest(undeclared: Seq<Seq<char>>, label: Seq<char>)
    requires
        undeclared.no_duplicates(),
    ensures
        state::without_label(undeclared, label).no_duplicates(),
        forall|other: Seq<char>|
            #[trigger] state::without_label(undeclared, label).contains(other) <==> (
            undeclared.contains(other) && other != label),
    decreases undeclared.len(),
{
    reveal(Seq::filter);
    let keep = |other: Seq<char>| other != label;
    let rest = state::without_label(undeclared, label);
    if undeclared.len() > 0 {
        let before = undeclared.drop_last();
        let last = undeclared.last();
        without_label_rest(before, label);
        let rest_before = state::without_label(before, label);
        assert(!before.contains(last)) by {
            if before.contains(last) {
                let i = choose|i: int| 0 <= i < before.len() && before[i] == last;
                assert(undeclared[i] == undeclared[undeclared.len() - 1]);
            }
        }
        assert forall|other: Seq<char>| undeclared.contains(other) <==> (before.contains(other)
            || other == last) by {
            if undeclared.contains(other) {
                let i = choose|i: int| 0 <= i < undeclared.len() && undeclared[i] == other;
                if i < before.len() {
                    assert(before[i] == other);
                }
            }
            if before.contains(other) {
                let i = choose|i: int| 0 <= i < before.len() && before[i] == other;
                assert(undeclared[i] == other);
            }
            assert(undeclared[undeclared.len() - 1] == last);
        }
        if last != label {
            assert(rest == rest_before.push(last));
            pushed_contains(rest_before, last);
            assert(!rest_before.contains(last));
            pushed_no_duplicates(rest_before, last);
        } else {
            assert(rest == rest_before);
        }
    } else {
        assert(rest =~= undeclared);
    }
}

proof fn pushed_contains(texts: Seq<Seq<char>>, text: Seq<char>)
    ensures
        forall|other: Seq<char>| #[trigger]
            texts.push(text).contains(other) <==> texts.contains(other) || other == text,
{
    assert forall|other: Seq<char>| #[trigger]
        texts.push(text).contains(other) <==> texts.contains(other) || other == text by {
        if texts.push(text).contains(other) {
            let i = choose|i: int| 0 <= i < texts.len() + 1 && texts.push(text)[i] == other;
            if i < texts.len() {
                assert(texts[i] == other);
            }
        }
        if texts.contains(other) {
            let i = choose|i: int| 0 <= i < texts.len() && texts[i] == other;
            assert(texts.push(text)[i] == other);
        }
        assert(texts.push(text)[texts.len() as int] == text);
    }
}

proof fn pushed_no_duplicates(texts: Seq<Seq<char>>, text: Seq<char>)
    requires
        texts.no_duplicates(),
        !texts.contains(text),
    ensures
        texts.push(text).no_duplicates(),
{
    let more = texts.push(text);
    assert forall|i: int, j: int| 0 <= i < more.len() && 0 <= j < more.len() && i != j implies more[i]
        != more[j] by {
        if i < texts.len() && j < texts.len() {
            assert(texts[i] != texts[j]);
        } else if i < texts.len() {
            assert(texts.contains(texts[i]));
        } else {
            assert(texts.contains(texts[j]));
        }
    }
}

/// What is undeclared once more labels are referred to.
proof fn with_undeclared_more(
    undeclared: Seq<Seq<char>>,
    used_labels: Seq<Seq<char>>,
    count: nat,
    entries: Seq<(Seq<char>, Option<LabelDef>)>,
)
    requires
        count <= used_labels.len(),
        undeclared.no_duplicates(),
        forall|i: int|
            0 <= i < undeclared.len() ==> labels::label_index(
                entries,
                #[trigger] undeclared[i],
            ) is None,
    ensures
        ({
            let more = state::with_undeclared(undeclared, used_labels, count, entries);
            &&& more.no_duplicates()
            &&& forall|i: int|
                0 <= i < more.len() ==> labels::label_index(entries, #[trigger] more[i]) is None
            &&& forall|label: Seq<char>|
                undeclared.contains(label) ==> #[trigger] more.contains(label)
            &&& forall|i: int|
                0 <= i < count ==> more.contains(#[trigger] used_labels[i]) || labels::label_index(
                    entries,
                    used_labels[i],
                ) is Some
        }),
    decreases count,
{
    if count > 0 {
        let before = state::with_undeclared(undeclared, used_labels, (count - 1) as nat, entries);
        with_undeclared_more(undeclared, used_labels, (count - 1) as nat, entries);
        let label = used_labels[count - 1];
        if !(before.contains(label) || labels::label_index(entries, label) is Some) {
            pushed_contains(before, label);
            pushed_no_duplicates(before, label);
        }
    }
}

/// Where every label has a position, those that are found have one.
proof fn found_has_position(entries: Seq<(Seq<char>, Option<LabelDef>)>, label: Seq<char>)
    requires
        forall|i: int| 0 <= i < entries.len() ==> (#[trigger] entries[i]).1 is Some,
        labels::label_index(entries, label) is Some,
    ensures
        has_position(entries, label),
{
    laws::label_index_finds(entries, label);
}

proof fn items_stay_settled(state: State, later: State)
    requires
        settled(state),
        later.macros == state.macros,
        state.ready.is_prefix_of(later.ready),
        no_position_is_lost(state.labels, later.labels),
        forall|label: Seq<char>|
            state.undeclared.contains(label) ==> #[trigger] later.undeclared.contains(label)
                || has_position(later.labels, label),
    ensures
        forall|i: int|
            0 <= i < state.ready.len() ==> match #[trigger] later.ready[i] {
                ItemModel::Instruction(op) => accounted_for(later, op),
                _ => true,
            },
{
    assert forall|i: int| 0 <= i < state.ready.len() implies match #[trigger] later.ready[i] {
        ItemModel::Instruction(op) => accounted_for(later, op),
        _ => true,
    } by {
        assert(state.ready[i] == later.ready[i]);
        match state.ready[i] {
            ItemModel::Instruction(op) => {
                accounts_are_kept(state, later, op);
            },
            _ => {},
        }
    }
}

proof fn label_is_settled(state: State, label: Seq<char>)
    requires
        settled(state),
    ensures
        settled(state::label_declared(state, label).state),
{
    let later = state::label_declared(state, label).state;
    laws::label_index_finds(state.labels, label);
    if labels::label_index(state.labels, label) is None {
        let last = state.labels.len() as int;
        assert(laws::distinct_labels(later.labels));
        laws::declarations_keep_positions(state.labels, later.labels);
        assert(no_position_is_lost(state.labels, later.labels)) by {
            assert forall|other: Seq<char>|
                has_position(state.labels, other) implies #[trigger] has_position(
                later.labels,
                other,
            ) by {
                assert(labels::label_lookup(later.labels, other) == labels::label_lookup(
                    state.labels,
                    other,
                ));
            }
        }
        assert(later.labels[last].0 == label);
        laws::label_found(later.labels, last);
        without_label_rest(state.undeclared, label);
        items_stay_settled(state, later);
        assert forall|i: int| 0 <= i < later.undeclared.len() implies labels::label_index(
            later.labels,
            #[trigger] later.undeclared[i],
        ) is None by {
            let other = later.undeclared[i];
            assert(later.undeclared.contains(other));
            let j = choose|j: int|
                0 <= j < state.undeclared.len() && state.undeclared[j] == other;
            assert(labels::label_index(state.labels, state.undeclared[j]) is None);
            laws::label_index_finds(state.labels, other);
            laws::label_index_finds(later.labels, other);
            match labels::label_index(later.labels, other) {
                Some(k) => {
                    if k < last {
                        assert(state.labels[k].0 != other);
                    }
                },
                None => {},
            }
        }
    }
}

proof fn item_is_settled(state: State, later: State, item: ItemModel)
    requires
        settled(state),
        later == (State {
            ready: state.ready.push(item),
            concrete_len: later.concrete_len,
            undeclared: later.undeclared,
            pushes: later.pushes,
            sizes: later.sizes,
            ..state
        }),
        later.undeclared.no_duplicates(),
        forall|i: int|
            0 <= i < later.undeclared.len() ==> labels::label_index(
                state.labels,
                #[trigger] later.undeclared[i],
            ) is None,
        forall|label: Seq<char>|
            state.undeclared.contains(label) ==> #[trigger] later.undeclared.contains(label),
        match item {
            ItemModel::Instruction(op) => accounted_for(later, op),
            _ => true,
        },
    ensures
        settled(later),
{
    items_stay_settled(state, later);
    assert forall|i: int| 0 <= i < later.ready.len() implies match #[trigger] later.ready[i] {
        ItemModel::Instruction(op) => accounted_for(later, op),
        _ => true,
    } by {
        if i == state.ready.len() {
            assert(later.ready[i] == item);
        }
    }
}

proof fn instruction_is_settled(state: State, op: OpModel)
    requires
        settled(state),
    ensures
        settled(state::instruction_accepted(state, op).state),
{
    let later = state::instruction_accepted(state, op).state;
    let item = ItemModel::Instruction(op);
    if later != state {
        match encode::encoding(op, state.labels, state.macros) {
            Ok(_) => {
                item_is_settled(state, later, item);
            },
            Err(_) => {
                let term = encode::expression_in(op)->0;
                let used_labels = context::labels_in(
                    term,
                    state.macros,
                    NESTING_LIMIT as nat,
                )->Ok_0;
                with_undeclared_more(
                    state.undeclared,
                    used_labels,
                    used_labels.len(),
                    state.labels,
                );
                assert(accounted_for(later, op)) by {
                    assert forall|i: int| 0 <= i < used_labels.len() implies has_position(
                        later.labels,
                        #[trigger] used_labels[i],
                    ) || later.undeclared.contains(used_labels[i]) by {
                        if labels::label_index(state.labels, used_labels[i]) is Some {
                            found_has_position(state.labels, used_labels[i]);
                        }
                    }
                }
                item_is_settled(state, later, item);
            },
        }
    }
}

/// Accepting an instruction, a label, a directive or the use of a macro keeps the labels taken care
/// of, even where it is refused.
pub proof fn op_is_settled(state: State, used: nat, op: OpModel, draws: Seq<u64>, depth: nat)
    requires
        settled(state),
    ensures
        settled(state::op_pushed(state, used, op, draws, depth).state),
    decreases depth, 1nat,
{
    match op {
        OpModel::Label(label) => {
            label_is_settled(state, label);
        },
        OpModel::MacroDefinition(_) => {},
        OpModel::Macro(name, arguments) => {
            macro_is_settled(state, used, name, arguments, draws, depth);
        },
        OpModel::Org(offset) => {
            let later = state::org_accepted(state, offset).state;
            if state::org_accepted(state, offset).failure is None {
                item_is_settled(state, later, ItemModel::Org(offset));
            }
        },
        _ => {
            instruction_is_settled(state, op);
        },
    }
}

proof fn macro_is_settled(
    state: State,
    used: nat,
    name: Seq<char>,
    arguments: Seq<Term>,
    draws: Seq<u64>,
    depth: nat,
)
    requires
        settled(state),
    ensures
        settled(state::macro_expanded(state, used, name, arguments, draws, depth).state),
    decreases depth, 0nat,
{
    match context::find_macro(state.macros, name) {
        Some(MacroModel::Instruction { parameters, contents, .. }) => {
            let fresh = macros::fresh_upto(name, contents, contents.len(), used, draws);
            match macros::instantiated_upto(
                fresh.contents,
                fresh.contents.len(),
                fresh.table,
                parameters,
                arguments,
                state.macros,
            ) {
                Ok(ops) => {
                    if depth > 0 {
                        ops_are_settled(
                            state,
                            fresh.used,
                            ops,
                            ops.len(),
                            draws,
                            (depth - 1) as nat,
                        );
                    }
                },
                Err(_) => {},
            }
        },
        _ => {},
    }
}

proof fn ops_are_settled(
    state: State,
    used: nat,
    ops: Seq<OpModel>,
    count: nat,
    draws: Seq<u64>,
    depth: nat,
)
    requires
        settled(state),
    ensures
        settled(state::ops_pushed(state, used, ops, count, draws, depth).state),
    decreases depth, count + 1,
{
    if count > 0 {
        let before = state::ops_pushed(state, used, ops, (count - 1) as nat, draws, depth);
        ops_are_settled(state, used, ops, (count - 1) as nat, draws, depth);
        if before.failure is None {
            op_is_settled(before.state, before.used, ops[count - 1], draws, depth);
        }
    }
}

/// Accepting items keeps the labels taken care of.
pub proof fn program_is_settled(
    state: State,
    used: nat,
    ops: Seq<RawModel>,
    count: nat,
    draws: Seq<u64>,
)
    requires
        settled(state),
        count <= ops.len(),
    ensures
        settled(state::raws_pushed(state, used, ops, count, draws).state),
    decreases count,
{
    if count > 0 {
        let before = state::raws_pushed(state, used, ops, (count - 1) as nat, draws);
        program_is_settled(state, used, ops, (count - 1) as nat, draws);
        if before.failure is None {
            let after = state::raw_pushed(before.state, before.used, ops[count - 1], draws);
            match ops[count - 1] {
                RawModel::Op(op) => {
                    op_is_settled(before.state, before.used, op, draws, NESTING_LIMIT as nat);
                },
                RawModel::Raw(bytes) => {
                    if after.failure is None {
                        item_is_settled(before.state, after.state, ItemModel::Raw(bytes));
                    }
                },
                RawModel::Scope(scope) => {
                    if after.failure is None {
                        let bytes = state::assembled(
                            state::new_state(None),
                            before.used,
                            scope,
                            draws,
                        ).result->Ok_0;
                        item_is_settled(before.state, after.state, ItemModel::Raw(bytes));
                    }
                },
            }
        }
    }
}

/// Where labels keep their names and positions, none of them is lost.
proof fn same_names_lose_no_position(
    entries: Seq<(Seq<char>, Option<LabelDef>)>,
    others: Seq<(Seq<char>, Option<LabelDef>)>,
)
    requires
        laws::distinct_labels(entries),
        placement::same_names(entries, others),
    ensures
        no_position_is_lost(entries, others),
{
    placement::same_names_are_distinct(entries, others);
    assert forall|label: Seq<char>| has_position(entries, label) implies #[trigger] has_position(
        others,
        label,
    ) by {
        laws::label_index_finds(entries, label);
        let i = labels::label_index(entries, label)->0;
        assert(others[i].0 == entries[i].0);
        laws::label_found(others, i);
    }
}

proof fn placing_keeps_names(state: State, count: nat)
    ensures
        placement::same_names(state.labels, state::labels_placed(state, count)),
    decreases count,
{
    if count > 0 {
        placing_keeps_names(state, (count - 1) as nat);
    }
}

proof fn widening_keeps_names(state: State, count: nat)
    ensures
        placement::same_names(state.labels, state::pushes_widened(state, count).state.labels),
        match state::pushes_widened(state, count).failure {
            Some(failure) => failure is Fault,
            None => true,
        },
    decreases count,
{
    if count > 0 {
        widening_keeps_names(state, (count - 1) as nat);
        let before = state::pushes_widened(state, (count - 1) as nat).state;
        let after = state::pushes_widened(state, count).state;
        assert(placement::same_names(before.labels, after.labels)) by {
            if let OpModel::Push(term) = state.pushes[count - 1].0 {
                if let Ok(value) = encode::value_of(term, before.labels, before.macros) {
                    let room = 1 + encode::width_needed(value);
                    let sizes = before.sizes.update(state.pushes[count - 1].1 as int, room);
                    let wider = State { sizes, ..before };
                    placing_keeps_names(wider, wider.marks.len());
                }
            }
        }
        placement::same_names_go_on(state.labels, before.labels, after.labels);
    }
}

proof fn backpatching_keeps_names(state: State)
    ensures
        placement::same_names(state.labels, state::backpatched(state).state.labels),
        match state::backpatched(state).failure {
            Some(failure) => failure is Fault,
            None => true,
        },
    decreases state::slack(state.sizes),
{
    let after = state::pushes_widened(state, state.pushes.len());
    widening_keeps_names(state, state.pushes.len());
    state::widening_grows(state, state.pushes.len());
    if !(after.failure is Some || after.state.sizes == state.sizes) {
        state::growing_takes_slack(state.sizes, after.state.sizes);
        backpatching_keeps_names(after.state);
        placement::same_names_go_on(
            state.labels,
            after.state.labels,
            state::backpatched(state).state.labels,
        );
    }
}

/// Laying a program out takes no position away, and where it fails, it is by a fault.
pub proof fn laying_out_keeps_names(state: State)
    ensures
        placement::same_names(state.labels, state::laid_out(state).state.labels),
        match state::laid_out(state).failure {
            Some(failure) => failure is Fault,
            None => true,
        },
        state::laid_out(state).state == (State {
            sizes: state::laid_out(state).state.sizes,
            labels: state::laid_out(state).state.labels,
            concrete_len: state::laid_out(state).state.concrete_len,
            ..state
        }),
    decreases state::slack(state.sizes),
{
    let plain = state::backpatched(state);
    backpatching_keeps_names(state);
    state::backpatching_grows(state);
    let (pushes, output) = state::emitted(plain.state, plain.state.ready.len());
    match (plain.failure, output, state.offset) {
        (None, Ok(bytes), Some(offset)) => {
            let in_gif = state::moved_to_gif(plain.state, bytes, offset);
            let sizes = state::sizes_widened(in_gif.state, pushes, pushes.len());
            if !(in_gif.failure is Some || sizes == in_gif.state.sizes) {
                let after = state::resized(in_gif.state, sizes);
                placement::relocating_keeps_names(
                    plain.state,
                    plain.state.marks.len(),
                    evmgif::map_of(bytes),
                    offset,
                );
                let wider = State { sizes, ..in_gif.state };
                placing_keeps_names(wider, wider.marks.len());
                placement::same_names_go_on(
                    state.labels,
                    plain.state.labels,
                    in_gif.state.labels,
                );
                placement::same_names_go_on(
                    state.labels,
                    in_gif.state.labels,
                    after.state.labels,
                );
                if after.failure is None {
                    state::widening_for_gif_grows(in_gif.state, pushes, pushes.len());
                    state::growing_takes_slack(plain.state.sizes, sizes);
                    state::growing_takes_slack(state.sizes, plain.state.sizes);
                    laying_out_keeps_names(after.state);
                    placement::same_names_go_on(
                        state.labels,
                        after.state.labels,
                        state::laid_out(state).state.labels,
                    );
                }
            }
        },
        _ => {},
    }
}

/// Where no label is undeclared, none turns out to be while the program is emitted.
proof fn emission_finds_all_labels(state: State, placed: State, count: nat)
    requires
        settled(state),
        state.undeclared.len() == 0,
        no_position_is_lost(state.labels, placed.labels),
        placed.ready == state.ready,
        placed.macros == state.macros,
        count <= state.ready.len(),
    ensures
        match state::emitted(placed, count).1 {
            Err(FailureModel::Error(ErrorModel::UndeclaredLabels { .. })) => false,
            _ => true,
        },
    decreases count,
{
    if count > 0 {
        emission_finds_all_labels(state, placed, (count - 1) as nat);
        match state.ready[count - 1] {
            ItemModel::Instruction(op) => {
                assert(accounted_for(state, op));
                match encode::expression_in(op) {
                    Some(term) => {
                        if encode::value_of(term, state.labels, state.macros) is Ok {
                            values_are_not_lost(
                                term,
                                context::top_context(state.labels, state.macros),
                                placed.labels,
                                Seq::empty(),
                                NESTING_LIMIT as nat,
                            );
                        } else {
                            let used_labels = context::labels_in(
                                term,
                                state.macros,
                                NESTING_LIMIT as nat,
                            )->Ok_0;
                            assert forall|i: int| 0 <= i < used_labels.len() implies has_position(
                                placed.labels,
                                #[trigger] used_labels[i],
                            ) by {
                                assert(has_position(state.labels, used_labels[i]));
                            }
                            no_label_is_unknown(
                                term,
                                context::top_context(placed.labels, placed.macros),
                                NESTING_LIMIT as nat,
                            );
                        }
                    },
                    None => {},
                }
            },
            _ => {},
        }
    }
}

/// Whether each of `pushes` has a value.
pub open spec fn all_have_values(
    pushes: Seq<PushRefModel>,
    entries: Seq<(Seq<char>, Option<LabelDef>)>,
    macros: Seq<MacroModel>,
) -> bool {
    forall|j: int|
        0 <= j < pushes.len() ==> encode::value_of(
            (#[trigger] pushes[j]).expr,
            entries,
            macros,
        ) is Ok
}

/// The pushes that are noted while a program is emitted have values.
pub proof fn noted_pushes_have_values(state: State, count: nat)
    ensures
        all_have_values(state::emitted(state, count).0, state.labels, state.macros),
    decreases count,
{
    if count > 0 {
        noted_pushes_have_values(state, (count - 1) as nat);
        let before = state::emitted(state, (count - 1) as nat).0;
        let pushes = state::emitted(state, count).0;
        assert forall|j: int| 0 <= j < pushes.len() implies encode::value_of(
            (#[trigger] pushes[j]).expr,
            state.labels,
            state.macros,
        ) is Ok by {
            if j < before.len() {
                assert(pushes[j] == before[j]);
            }
        }
    }
}

/// Whether a failure is about an expression without a value.
pub open spec fn lacks_value(failure: FailureModel) -> bool {
    match failure {
        FailureModel::Error(ErrorModel::UndeclaredLabels { .. }) => true,
        FailureModel::Error(ErrorModel::UndeclaredExpressionMacro { .. }) => true,
        FailureModel::Error(ErrorModel::UndeclaredVariableMacro { .. }) => true,
        FailureModel::Fault(Fault::EndlessMacro) => true,
        _ => false,
    }
}

proof fn patching_finds_values(
    state: State,
    bytes: Seq<u8>,
    pushes: Seq<PushRefModel>,
    count: nat,
    map: Map<usize, usize>,
)
    requires
        count <= pushes.len(),
        all_have_values(pushes, state.labels, state.macros),
    ensures
        match state::patched(state, bytes, pushes, count, map) {
            Err(failure) => !lacks_value(failure),
            Ok(_) => true,
        },
    decreases count,
{
    if count > 0 {
        patching_finds_values(state, bytes, pushes, (count - 1) as nat, map);
        assert(encode::value_of(pushes[count - 1].expr, state.labels, state.macros) is Ok);
    }
}

proof fn relocation_finds_values(
    state: State,
    count: nat,
    map: Map<usize, usize>,
    offset: u64,
)
    ensures
        state::relocated(state, count, map, offset).1 != Some(Fault::EndlessMacro),
    decreases count,
{
    if count > 0 {
        relocation_finds_values(state, (count - 1) as nat, map, offset);
    }
}

/// Labels that resolve while a program is emitted still resolve once they have their positions in
/// a GIF file: no expression is without a value there.
pub proof fn labels_still_resolve_in_gif(
    state: State,
    bytes: Seq<u8>,
    pushes: Seq<PushRefModel>,
    offset: u64,
)
    requires
        laws::distinct_labels(state.labels),
        all_have_values(pushes, state.labels, state.macros),
    ensures
        match state::chunkified(state, bytes, pushes, offset).result {
            Err(failure) => !lacks_value(failure),
            Ok(_) => true,
        },
{
    let map = evmgif::map_of(bytes);
    let in_gif = state::moved_to_gif(state, bytes, offset);
    relocation_finds_values(state, state.marks.len(), map, offset);
    if in_gif.failure is None {
        let entries = in_gif.state.labels;
        placement::relocating_keeps_names(state, state.marks.len(), map, offset);
        same_names_lose_no_position(state.labels, entries);
        assert forall|j: int| 0 <= j < pushes.len() implies encode::value_of(
            (#[trigger] pushes[j]).expr,
            entries,
            state.macros,
        ) is Ok by {
            values_are_not_lost(
                pushes[j].expr,
                context::top_context(state.labels, state.macros),
                entries,
                Seq::empty(),
                NESTING_LIMIT as nat,
            );
        }
        patching_finds_values(
            in_gif.state,
            evmgif::packed(bytes),
            pushes,
            pushes.len(),
            map,
        );
    }
}

/// Undeclared labels are reported, all of them and nothing else: the error comes if and only if
/// there are some, and it lists each of them once.
pub proof fn undeclared_labels_are_reported(state: State)
    requires
        settled(state),
    ensures
        match state::finished(state).result {
            Err(FailureModel::Error(ErrorModel::UndeclaredLabels { labels })) => {
                &&& state.undeclared.len() > 0
                &&& labels == state.undeclared
                &&& labels.no_duplicates()
            },
            _ => state.undeclared.len() == 0,
        },
{
    if state.undeclared.len() == 0 {
        let layout = state::laid_out(state).state;
        laying_out_keeps_names(state);
        placement::same_names_are_distinct(state.labels, layout.labels);
        same_names_lose_no_position(state.labels, layout.labels);
        if state::laid_out(state).failure is None {
            emission_finds_all_labels(state, layout, state.ready.len());
            noted_pushes_have_values(layout, layout.ready.len());
            let (pushes, result) = state::emitted(layout, layout.ready.len());
            match (result, layout.offset) {
                (Ok(bytes), Some(offset)) => {
                    labels_still_resolve_in_gif(layout, bytes, pushes, offset);
                },
                _ => {},
            }
        }
    }
}

/// An expression has a value only where all labels that it refers to have positions.
pub proof fn values_need_all_labels(term: Term, context: Context, depth: nat)
    requires
        context::eval(term, context, depth) is Ok,
    ensures
        context::labels_in(term, context.macros, depth) is Ok,
        all_have_positions(
            context.labels,
            context::labels_in(term, context.macros, depth)->Ok_0,
        ),
    decreases depth, term,
{
    match term {
        Term::Macro(name, arguments) => match context::find_macro(context.macros, name) {
            Some(MacroModel::Expression { parameters, content, .. }) => {
                all_values_need_all_labels(arguments, context, depth);
                values_need_all_labels(
                    content,
                    Context {
                        labels: context.labels,
                        macros: context.macros,
                        names: parameters,
                        values: context::eval_all(arguments, context, depth)->Ok_0,
                    },
                    (depth - 1) as nat,
                );
            },
            _ => {},
        },
        Term::Plus(left, right) => {
            values_need_all_labels(*left, context, depth);
            values_need_all_labels(*right, context, depth);
        },
        Term::Minus(left, right) => {
            values_need_all_labels(*left, context, depth);
            values_need_all_labels(*right, context, depth);
        },
        _ => {},
    }
}

proof fn all_values_need_all_labels(terms: Seq<Term>, context: Context, depth: nat)
    requires
        context::eval_all(terms, context, depth) is Ok,
    ensures
        context::labels_in_all(terms, context.macros, depth) is Ok,
        all_have_positions(
            context.labels,
            context::labels_in_all(terms, context.macros, depth)->Ok_0,
        ),
    decreases depth, terms,
{
    if terms.len() > 0 {
        all_values_need_all_labels(terms.drop_last(), context, depth);
        values_need_all_labels(terms.last(), context, depth);
    }
}

/// A program that refers to a label that it does not declare is refused.
pub proof fn undeclared_labels_are_refused(
    state: State,
    used: nat,
    ops: Seq<RawModel>,
    draws: Seq<u64>,
    k: int,
    op: OpModel,
    i: int,
)
    requires
        settled(state),
        state.ready.len() == 0,
        0 <= k < ops.len(),
        ops[k] == RawModel::Op(op),
        op is Op || op is Push,
        ({
            let program = placement::accepted_program(state, used, ops, ops.len(), draws);
            let term = encode::expression_in(op);
            let used_labels = context::labels_in(
                term->0,
                program.macros,
                NESTING_LIMIT as nat,
            );
            &&& term is Some
            &&& used_labels is Ok
            &&& 0 <= i < used_labels->Ok_0.len()
            &&& labels::label_index(program.labels, used_labels->Ok_0[i]) is None
        }),
    ensures
        state::assembled(state, used, ops, draws).result is Err,
{
    let declared = state::macros_declared(state, ops, ops.len());
    placement::definitions_change_macros_only(state, ops, ops.len());
    let pushed = state::raws_pushed(declared.state, used, ops, ops.len(), draws);
    let program = pushed.state;
    let term = encode::expression_in(op)->0;
    let used_labels = context::labels_in(term, program.macros, NESTING_LIMIT as nat)->Ok_0;
    if declared.failure is None && pushed.failure is None {
        assert(settled(declared.state));
        program_is_settled(declared.state, used, ops, ops.len(), draws);
        undeclared_labels_are_reported(program);
        let before = state::raws_pushed(declared.state, used, ops, k as nat, draws);
        let after = state::raws_pushed(declared.state, used, ops, (k + 1) as nat, draws);
        progress::raws_continue(declared.state, used, ops, k as nat, (k + 1) as nat, draws);
        progress::raws_continue(declared.state, used, ops, (k + 1) as nat, ops.len(), draws);
        progress::raws_continue(declared.state, used, ops, 0, ops.len(), draws);
        assert(after == state::raw_pushed(before.state, before.used, ops[k], draws));
        let item = before.state.ready.len() as int;
        assert(after.state.ready[item] == ItemModel::Instruction(op));
        assert(program.ready[item] == after.state.ready[item]);
        assert(accounted_for(program, op));
        if state::finished(program).result is Ok {
            if encode::value_of(term, program.labels, program.macros) is Ok {
                values_need_all_labels(
                    term,
                    context::top_context(program.labels, program.macros),
                    NESTING_LIMIT as nat,
                );
            }
            assert(has_position(program.labels, used_labels[i]));
        }
    }
}

/// A new assembler has no labels to take care of.
pub proof fn new_assembler_is_settled(offset: Option<u64>)
    ensures
        settled(state::new_state(offset)),
{
}

} // verus!
