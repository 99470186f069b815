//! What the expansion of an instruction macro means: its parameters stand for the arguments, and
//! its labels are its own.

use vstd::prelude::*;

use crate::context;
use crate::context::{Context, EvalErrorModel, NESTING_LIMIT};
use crate::encode;
use crate::error;
use crate::error::{ErrorModel, FailureModel, Fault};
use crate::expression::Term;
use crate::labels;
use crate::labels::LabelDef;
use crate::macros;
use crate::ops::{MacroModel, OpModel};
use crate::renaming;
use crate::state;
use crate::state::State;
use crate::values;

verus! {

/// What the variable `name` stands for.
pub open spec fn binding(context: Context, name: Seq<char>) -> Option<int> {
    context::variable_value(
        context.names,
        context.values,
        name,
        context::variable_count(context.names, context.values),
    )
}

/// Expressions have the same value where variables stand for the same.
proof fn same_bindings_same_values(term: Term, context: Context, other: Context, depth: nat)
    requires
        other.labels == context.labels,
        other.macros == context.macros,
        forall|name: Seq<char>| #[trigger] binding(other, name) == binding(context, name),
    ensures
        context::eval(term, other, depth) == context::eval(term, context, depth),
    decreases depth, term,
{
    match term {
        Term::Variable(name) => {
            assert(binding(other, name) == binding(context, name));
        },
        Term::Macro(_, arguments) => {
            same_bindings_same_lists(arguments, context, other, depth);
        },
        Term::Plus(left, right) => {
            same_bindings_same_values(*left, context, other, depth);
            same_bindings_same_values(*right, context, other, depth);
        },
        Term::Minus(left, right) => {
            same_bindings_same_values(*left, context, other, depth);
            same_bindings_same_values(*right, context, other, depth);
        },
        _ => {},
    }
}

proof fn same_bindings_same_lists(
    terms: Seq<Term>,
    context: Context,
    other: Context,
    depth: nat,
)
    requires
        other.labels == context.labels,
        other.macros == context.macros,
        forall|name: Seq<char>| #[trigger] binding(other, name) == binding(context, name),
    ensures
        context::eval_all(terms, other, depth) == context::eval_all(terms, context, depth),
    decreases depth, terms,
{
    if terms.len() > 0 {
        same_bindings_same_lists(terms.drop_last(), context, other, depth);
        same_bindings_same_values(terms.last(), context, other, depth);
    }
}

/// An expression that has a value without any variable has it with any.
proof fn closed_values_stay(
    term: Term,
    context: Context,
    names: Seq<Seq<char>>,
    numbers: Seq<int>,
    depth: nat,
)
    requires
        context.names.len() == 0,
        context::eval(term, context, depth) is Ok,
    ensures
        context::eval(term, Context { names, values: numbers, ..context }, depth)
            == context::eval(term, context, depth),
    decreases depth, term,
{
    match term {
        Term::Macro(_, arguments) => {
            closed_lists_stay(arguments, context, names, numbers, depth);
        },
        Term::Plus(left, right) => {
            closed_values_stay(*left, context, names, numbers, depth);
            closed_values_stay(*right, context, names, numbers, depth);
        },
        Term::Minus(left, right) => {
            closed_values_stay(*left, context, names, numbers, depth);
            closed_values_stay(*right, context, names, numbers, depth);
        },
        _ => {},
    }
}

proof fn closed_lists_stay(
    terms: Seq<Term>,
    context: Context,
    names: Seq<Seq<char>>,
    numbers: Seq<int>,
    depth: nat,
)
    requires
        context.names.len() == 0,
        context::eval_all(terms, context, depth) is Ok,
    ensures
        context::eval_all(terms, Context { names, values: numbers, ..context }, depth)
            == context::eval_all(terms, context, depth),
    decreases depth, terms,
{
    if terms.len() > 0 {
        closed_lists_stay(terms.drop_last(), context, names, numbers, depth);
        closed_values_stay(terms.last(), context, names, numbers, depth);
    }
}

/// `context` in which `name` stands for `value`, whatever it stood for before.
pub open spec fn bound(context: Context, name: Seq<char>, value: int) -> Context {
    Context {
        names: context.names.push(name),
        values: context.values.push(value),
        ..context
    }
}

proof fn front_decides(
    names: Seq<Seq<char>>,
    numbers: Seq<int>,
    others: Seq<Seq<char>>,
    other_numbers: Seq<int>,
    name: Seq<char>,
    count: nat,
)
    requires
        forall|i: int| 0 <= i < count ==> names[i] == others[i] && numbers[i] == other_numbers[i],
    ensures
        context::variable_value(names, numbers, name, count) == context::variable_value(
            others,
            other_numbers,
            name,
            count,
        ),
    decreases count,
{
    if count > 0 {
        assert(names[count - 1] == others[count - 1]);
        front_decides(names, numbers, others, other_numbers, name, (count - 1) as nat);
    }
}

/// What variables stand for once `name` is bound.
pub proof fn binding_binds(context: Context, name: Seq<char>, value: int, other: Seq<char>)
    requires
        context.names.len() == context.values.len(),
    ensures
        binding(bound(context, name, value), name) == Some(value),
        other != name ==> binding(bound(context, name, value), other) == binding(context, other),
{
    let more = bound(context, name, value);
    let count = context.names.len();
    front_decides(context.names, context.values, more.names, more.values, other, count);
}

/// To put an argument in the place of a variable is to let the variable stand for the value of the
/// argument: nothing else of the expression changes.
pub proof fn filling_is_binding(
    term: Term,
    name: Seq<char>,
    argument: Term,
    value: int,
    context: Context,
    depth: nat,
)
    requires
        context.names.len() == context.values.len(),
        context::eval(argument, context, depth) == Ok::<int, EvalErrorModel>(value),
    ensures
        context::eval(macros::filled(term, name, argument), context, depth) == context::eval(
            term,
            bound(context, name, value),
            depth,
        ),
    decreases depth, term,
{
    let more = bound(context, name, value);
    match term {
        Term::Variable(variable) => {
            binding_binds(context, name, value, variable);
            assert(binding(more, variable) == if variable == name {
                Some(value)
            } else {
                binding(context, variable)
            });
        },
        Term::Macro(_, arguments) => {
            filling_lists_is_binding(arguments, name, argument, value, context, depth);
        },
        Term::Plus(left, right) => {
            filling_is_binding(*left, name, argument, value, context, depth);
            filling_is_binding(*right, name, argument, value, context, depth);
        },
        Term::Minus(left, right) => {
            filling_is_binding(*left, name, argument, value, context, depth);
            filling_is_binding(*right, name, argument, value, context, depth);
        },
        _ => {},
    }
}

proof fn filling_lists_is_binding(
    terms: Seq<Term>,
    name: Seq<char>,
    argument: Term,
    value: int,
    context: Context,
    depth: nat,
)
    requires
        context.names.len() == context.values.len(),
        context::eval(argument, context, depth) == Ok::<int, EvalErrorModel>(value),
    ensures
        context::eval_all(macros::all_filled(terms, name, argument), context, depth)
            == context::eval_all(terms, bound(context, name, value), depth),
    decreases depth, terms,
{
    if terms.len() > 0 {
        let full = macros::all_filled(terms, name, argument);
        assert(full.drop_last() =~= macros::all_filled(terms.drop_last(), name, argument));
        assert(full.last() == macros::filled(terms.last(), name, argument));
        filling_lists_is_binding(terms.drop_last(), name, argument, value, context, depth);
        filling_is_binding(terms.last(), name, argument, value, context, depth);
    }
}

/// What a variable stands for behind one more binding in front.
proof fn binding_in_front(
    names: Seq<Seq<char>>,
    numbers: Seq<int>,
    first: Seq<char>,
    value: int,
    name: Seq<char>,
    count: nat,
)
    requires
        count <= names.len() == numbers.len(),
    ensures
        context::variable_value(seq![first] + names, seq![value] + numbers, name, count + 1)
            == match context::variable_value(names, numbers, name, count) {
            Some(found) => Some(found),
            None => if first == name {
                Some(value)
            } else {
                None
            },
        },
    decreases count,
{
    let more = seq![first] + names;
    let more_numbers = seq![value] + numbers;
    if count > 0 {
        assert(more[count as int] == names[count - 1]);
        assert(more_numbers[count as int] == numbers[count - 1]);
        binding_in_front(names, numbers, first, value, name, (count - 1) as nat);
    } else {
        assert(more[0] == first);
        assert(context::variable_value(more, more_numbers, name, 0) is None);
    }
}

proof fn bound_where_named(
    names: Seq<Seq<char>>,
    numbers: Seq<int>,
    name: Seq<char>,
    count: nat,
)
    requires
        count <= names.len(),
    ensures
        context::variable_value(names, numbers, name, count) is Some <==> exists|i: int|
            0 <= i < count && #[trigger] names[i] == name,
    decreases count,
{
    if count > 0 {
        bound_where_named(names, numbers, name, (count - 1) as nat);
        if names[count - 1] != name && (exists|i: int|
            0 <= i < count && #[trigger] names[i] == name) {
            let i = choose|i: int| 0 <= i < count && #[trigger] names[i] == name;
            assert(i < count - 1);
        }
    }
}

/// Where parameters from index `count` on stand for their arguments.
spec fn parameters_from(
    context: Context,
    parameters: Seq<Seq<char>>,
    numbers: Seq<int>,
    count: int,
) -> Context {
    Context { names: parameters.skip(count), values: numbers.skip(count), ..context }
}

/// To put all arguments in the place of the parameters is to let the parameters stand for their
/// values.
proof fn filling_upto_is_binding(
    term: Term,
    parameters: Seq<Seq<char>>,
    arguments: Seq<Term>,
    numbers: Seq<int>,
    context: Context,
    depth: nat,
    count: nat,
)
    requires
        context.names.len() == 0,
        count <= parameters.len() == arguments.len() == numbers.len(),
        forall|i: int|
            0 <= i < arguments.len() ==> context::eval(#[trigger] arguments[i], context, depth)
                == Ok::<int, EvalErrorModel>(numbers[i]),
    ensures
        context::eval(
            macros::filled_upto(term, parameters, arguments, count),
            parameters_from(context, parameters, numbers, count as int),
            depth,
        ) == context::eval(term, parameters_from(context, parameters, numbers, 0), depth),
    decreases count,
{
    if count > 0 {
        let last = count - 1;
        filling_upto_is_binding(
            term,
            parameters,
            arguments,
            numbers,
            context,
            depth,
            last as nat,
        );
        let before = macros::filled_upto(term, parameters, arguments, last as nat);
        let inner = parameters_from(context, parameters, numbers, last);
        let outer = parameters_from(context, parameters, numbers, count as int);
        let name = parameters[last];
        let value = numbers[last];
        assert(inner.names =~= seq![name] + outer.names);
        assert(inner.values =~= seq![value] + outer.values);
        if parameters.skip(count as int).contains(name) {
            assert forall|other: Seq<char>| #[trigger] binding(inner, other) == binding(
                outer,
                other,
            ) by {
                binding_in_front(
                    outer.names,
                    outer.values,
                    name,
                    value,
                    other,
                    outer.names.len(),
                );
                bound_where_named(outer.names, outer.values, name, outer.names.len());
                let i = choose|i: int| 0 <= i < outer.names.len() && outer.names[i] == name;
                assert(outer.names[i] == name);
            }
            same_bindings_same_values(before, outer, inner, depth);
        } else {
            assert(context::eval(arguments[last], context, depth) == Ok::<int, EvalErrorModel>(
                value,
            ));
            closed_values_stay(arguments[last], context, outer.names, outer.values, depth);
            filling_is_binding(before, name, arguments[last], value, outer, depth);
            let full = bound(outer, name, value);
            assert forall|other: Seq<char>| #[trigger] binding(full, other) == binding(
                inner,
                other,
            ) by {
                binding_in_front(
                    outer.names,
                    outer.values,
                    name,
                    value,
                    other,
                    outer.names.len(),
                );
                binding_binds(outer, name, value, other);
                bound_where_named(outer.names, outer.values, name, outer.names.len());
            }
            same_bindings_same_values(before, inner, full, depth);
        }
    } else {
        assert(parameters.skip(0) =~= parameters);
    }
}

/// The value of an expression of a macro with the arguments put in is the one that it has where the
/// parameters stand for the values of the arguments.
pub proof fn arguments_stand_for_parameters(
    term: Term,
    parameters: Seq<Seq<char>>,
    arguments: Seq<Term>,
    numbers: Seq<int>,
    entries: Seq<(Seq<char>, Option<LabelDef>)>,
    macros: Seq<MacroModel>,
    depth: nat,
)
    requires
        parameters.len() == arguments.len(),
        context::eval_all(arguments, context::top_context(entries, macros), depth) == Ok::<
            Seq<int>,
            EvalErrorModel,
        >(numbers),
    ensures
        context::eval(
            macros::filled_upto(term, parameters, arguments, parameters.len()),
            context::top_context(entries, macros),
            depth,
        ) == context::eval(
            term,
            Context { labels: entries, macros, names: parameters, values: numbers },
            depth,
        ),
{
    let context = context::top_context(entries, macros);
    values::lists_have_the_values_of_their_terms(arguments, context, depth);
    filling_upto_is_binding(
        term,
        parameters,
        arguments,
        numbers,
        context,
        depth,
        parameters.len(),
    );
    assert(parameters.skip(0) =~= parameters);
    assert(numbers.skip(0) =~= numbers);
    assert(parameters.skip(parameters.len() as int) =~= Seq::empty());
    assert(numbers.skip(numbers.len() as int) =~= Seq::empty());
}

/// The name that `table` gives to `label`: the new one, or the old one where there is no new one.
pub open spec fn image(table: Seq<(Seq<char>, Seq<char>)>, label: Seq<char>) -> Seq<char> {
    match macros::new_name(table, label) {
        Some(name) => name,
        None => label,
    }
}

/// A label that the table lists once has the name that stands beside it, and one that it does not
/// list has none.
pub proof fn tables_are_read_by_label(table: Seq<(Seq<char>, Seq<char>)>, label: Seq<char>)
    ensures
        forall|i: int|
            0 <= i < table.len() && (#[trigger] table[i]).0 == label && (forall|j: int|
                0 <= j < table.len() && j != i ==> (#[trigger] table[j]).0 != label)
                ==> macros::new_name(table, label) == Some(table[i].1),
        (forall|i: int| 0 <= i < table.len() ==> (#[trigger] table[i]).0 != label) <==> (
        macros::new_name(table, label) is None),
    decreases table.len(),
{
    if table.len() > 0 {
        let front = table.drop_last();
        let last = table.len() - 1;
        tables_are_read_by_label(front, label);
        assert forall|i: int| 0 <= i < last implies front[i] == #[trigger] table[i] by {}
        if table.last().0 != label {
            assert forall|i: int|
                0 <= i < table.len() && (#[trigger] table[i]).0 == label && (forall|j: int|
                    0 <= j < table.len() && j != i ==> (#[trigger] table[j]).0
                        != label) implies macros::new_name(table, label) == Some(table[i].1) by {
                assert(i < last);
                assert(front[i].0 == label);
                assert forall|j: int| 0 <= j < front.len() && j != i implies (
                #[trigger] front[j]).0 != label by {
                    assert(table[j].0 != label);
                }
            }
            if forall|i: int| 0 <= i < table.len() ==> (#[trigger] table[i]).0 != label {
                assert forall|i: int| 0 <= i < front.len() implies (#[trigger] front[i]).0
                    != label by {
                    assert(table[i].0 != label);
                }
            }
            if macros::new_name(table, label) is None {
                assert forall|i: int| 0 <= i < table.len() implies (#[trigger] table[i]).0
                    != label by {
                    if i < last {
                        assert(front[i].0 != label);
                    }
                }
            }
        } else {
            assert(table[last].0 == label);
            assert forall|i: int|
                0 <= i < table.len() && (#[trigger] table[i]).0 == label && (forall|j: int|
                    0 <= j < table.len() && j != i ==> (#[trigger] table[j]).0
                        != label) implies macros::new_name(table, label) == Some(table[i].1) by {
                if i != last {
                    assert(table[last].0 != label);
                }
            }
        }
    }
}

/// Whether no expression macro refers to a label that `table` renames.
pub open spec fn contents_avoid(
    macros: Seq<MacroModel>,
    table: Seq<(Seq<char>, Seq<char>)>,
) -> bool {
    forall|name: Seq<char>, depth: nat, i: int|
        #![trigger context::labels_in(content_of(macros, name), macros, depth)->Ok_0[i]]
        context::labels_in(content_of(macros, name), macros, depth) is Ok && 0 <= i
            < context::labels_in(content_of(macros, name), macros, depth)->Ok_0.len()
            ==> macros::new_name(
            table,
            context::labels_in(content_of(macros, name), macros, depth)->Ok_0[i],
        ) is None
}

/// The content of the expression macro `name`.
pub open spec fn content_of(macros: Seq<MacroModel>, name: Seq<char>) -> Term {
    match context::find_macro(macros, name) {
        Some(MacroModel::Expression { content, .. }) => content,
        _ => Term::Number(0),
    }
}

/// Each of `texts` under the name that `table` gives to it.
pub open spec fn images(
    table: Seq<(Seq<char>, Seq<char>)>,
    texts: Seq<Seq<char>>,
) -> Seq<Seq<char>> {
    Seq::new(texts.len(), |i: int| image(table, texts[i]))
}

/// The labels that a renamed expression refers to are the images of those that it referred to
/// before: each label that the table knows under its new name, and all others as they were.
pub proof fn renamed_references_are_images(
    term: Term,
    table: Seq<(Seq<char>, Seq<char>)>,
    macros: Seq<MacroModel>,
    depth: nat,
)
    requires
        contents_avoid(macros, table),
    ensures
        match context::labels_in(term, macros, depth) {
            Ok(texts) => context::labels_in(macros::renamed(term, table), macros, depth) == Ok::<
                Seq<Seq<char>>,
                EvalErrorModel,
            >(images(table, texts)),
            Err(_) => context::labels_in(macros::renamed(term, table), macros, depth)
                == context::labels_in(term, macros, depth),
        },
    decreases depth, term,
{
    match term {
        Term::Label(label) => {
            assert(images(table, seq![label]) =~= seq![image(table, label)]);
        },
        Term::Macro(name, arguments) => {
            all_renamed_references_are_images(arguments, table, macros, depth);
            match context::find_macro(macros, name) {
                Some(MacroModel::Expression { content, .. }) => {
                    if depth > 0 {
                        let first = context::labels_in_all(arguments, macros, depth);
                        let second = context::labels_in(content, macros, (depth - 1) as nat);
                        assert(content == content_of(macros, name));
                        if first is Ok && second is Ok {
                            let texts = second->Ok_0;
                            assert forall|i: int| 0 <= i < texts.len() implies image(
                                table,
                                #[trigger] texts[i],
                            ) == texts[i] by {
                                assert(context::labels_in(
                                    content_of(macros, name),
                                    macros,
                                    (depth - 1) as nat,
                                )->Ok_0[i] == texts[i]);
                            }
                            assert(images(table, first->Ok_0 + texts) =~= images(
                                table,
                                first->Ok_0,
                            ) + texts);
                        }
                    }
                },
                _ => {},
            }
        },
        Term::Plus(left, right) => {
            renamed_references_are_images(*left, table, macros, depth);
            renamed_references_are_images(*right, table, macros, depth);
            let xs = context::labels_in(*left, macros, depth);
            let ys = context::labels_in(*right, macros, depth);
            if xs is Ok && ys is Ok {
                assert(images(table, xs->Ok_0 + ys->Ok_0) =~= images(table, xs->Ok_0) + images(
                    table,
                    ys->Ok_0,
                ));
            }
        },
        Term::Minus(left, right) => {
            renamed_references_are_images(*left, table, macros, depth);
            renamed_references_are_images(*right, table, macros, depth);
            let xs = context::labels_in(*left, macros, depth);
            let ys = context::labels_in(*right, macros, depth);
            if xs is Ok && ys is Ok {
                assert(images(table, xs->Ok_0 + ys->Ok_0) =~= images(table, xs->Ok_0) + images(
                    table,
                    ys->Ok_0,
                ));
            }
        },
        _ => {
            assert(images(table, Seq::empty()) =~= Seq::empty());
        },
    }
}

proof fn all_renamed_references_are_images(
    terms: Seq<Term>,
    table: Seq<(Seq<char>, Seq<char>)>,
    macros: Seq<MacroModel>,
    depth: nat,
)
    requires
        contents_avoid(macros, table),
    ensures
        match context::labels_in_all(terms, macros, depth) {
            Ok(texts) => context::labels_in_all(
                macros::all_renamed(terms, table),
                macros,
                depth,
            ) == Ok::<Seq<Seq<char>>, EvalErrorModel>(images(table, texts)),
            Err(_) => context::labels_in_all(macros::all_renamed(terms, table), macros, depth)
                == context::labels_in_all(terms, macros, depth),
        },
    decreases depth, terms,
{
    if terms.len() > 0 {
        let front = terms.drop_last();
        let fresh = macros::all_renamed(terms, table);
        assert(fresh.drop_last() =~= macros::all_renamed(front, table));
        assert(fresh.last() == macros::renamed(terms.last(), table));
        all_renamed_references_are_images(front, table, macros, depth);
        renamed_references_are_images(terms.last(), table, macros, depth);
        let xs = context::labels_in_all(front, macros, depth);
        let ys = context::labels_in(terms.last(), macros, depth);
        if xs is Ok && ys is Ok {
            assert(images(table, xs->Ok_0 + ys->Ok_0) =~= images(table, xs->Ok_0) + images(
                table,
                ys->Ok_0,
            ));
        }
    } else {
        assert(images(table, Seq::empty()) =~= Seq::empty());
    }
}

/// No label that the table knows is left under its old name, unless that is also a new one.
pub proof fn no_local_label_is_left(
    term: Term,
    table: Seq<(Seq<char>, Seq<char>)>,
    macros: Seq<MacroModel>,
    depth: nat,
    i: int,
)
    requires
        contents_avoid(macros, table),
        context::labels_in(macros::renamed(term, table), macros, depth) is Ok,
        0 <= i < context::labels_in(macros::renamed(term, table), macros, depth)->Ok_0.len(),
    ensures
        ({
            let before = context::labels_in(term, macros, depth);
            let label = context::labels_in(macros::renamed(term, table), macros, depth)->Ok_0[i];
            &&& before is Ok
            &&& i < before->Ok_0.len()
            &&& macros::new_name(table, before->Ok_0[i]) matches Some(name) ==> label == name
            &&& macros::new_name(table, before->Ok_0[i]) is None ==> label == before->Ok_0[i]
        }),
{
    renamed_references_are_images(term, table, macros, depth);
}

/// Whether `inner` says of each label what `outer` says of its image.
pub open spec fn sees_images(
    outer: Seq<(Seq<char>, Option<LabelDef>)>,
    inner: Seq<(Seq<char>, Option<LabelDef>)>,
    table: Seq<(Seq<char>, Seq<char>)>,
) -> bool {
    forall|label: Seq<char>|
        #[trigger] labels::label_lookup(inner, label) == labels::label_lookup(
            outer,
            image(table, label),
        )
}

/// To rename the labels of an expression is to let each of them stand for the position of its
/// image.
pub proof fn renaming_is_looking_elsewhere(
    term: Term,
    table: Seq<(Seq<char>, Seq<char>)>,
    context: Context,
    inner: Seq<(Seq<char>, Option<LabelDef>)>,
    depth: nat,
)
    requires
        contents_avoid(context.macros, table),
        sees_images(context.labels, inner, table),
        context::labels_in(term, context.macros, depth) is Ok,
    ensures
        renaming::same_value(
            context::eval(term, Context { labels: inner, ..context }, depth),
            context::eval(macros::renamed(term, table), context, depth),
        ),
    decreases depth, term,
{
    match term {
        Term::Label(label) => {
            assert(labels::label_lookup(inner, label) == labels::label_lookup(
                context.labels,
                image(table, label),
            ));
        },
        Term::Macro(name, arguments) => match context::find_macro(context.macros, name) {
            Some(MacroModel::Expression { parameters, content, .. }) => {
                all_renaming_is_looking_elsewhere(arguments, table, context, inner, depth);
                assert(content == content_of(context.macros, name));
                let texts = context::labels_in(
                    content,
                    context.macros,
                    (depth - 1) as nat,
                )->Ok_0;
                assert forall|i: int| 0 <= i < texts.len() implies labels::label_lookup(
                    inner,
                    #[trigger] texts[i],
                ) == labels::label_lookup(context.labels, texts[i]) by {
                    assert(context::labels_in(
                        content_of(context.macros, name),
                        context.macros,
                        (depth - 1) as nat,
                    )->Ok_0[i] == texts[i]);
                    assert(image(table, texts[i]) == texts[i]);
                }
                let there = Context { labels: inner, ..context };
                match context::eval_all(arguments, there, depth) {
                    Ok(numbers) => {
                        values::values_rest_on_their_labels(
                            content,
                            Context {
                                labels: inner,
                                macros: context.macros,
                                names: parameters,
                                values: numbers,
                            },
                            context.labels,
                            (depth - 1) as nat,
                        );
                    },
                    Err(_) => {},
                }
            },
            _ => {},
        },
        Term::Plus(left, right) => {
            renaming_is_looking_elsewhere(*left, table, context, inner, depth);
            renaming_is_looking_elsewhere(*right, table, context, inner, depth);
        },
        Term::Minus(left, right) => {
            renaming_is_looking_elsewhere(*left, table, context, inner, depth);
            renaming_is_looking_elsewhere(*right, table, context, inner, depth);
        },
        _ => {},
    }
}

proof fn all_renaming_is_looking_elsewhere(
    terms: Seq<Term>,
    table: Seq<(Seq<char>, Seq<char>)>,
    context: Context,
    inner: Seq<(Seq<char>, Option<LabelDef>)>,
    depth: nat,
)
    requires
        contents_avoid(context.macros, table),
        sees_images(context.labels, inner, table),
        context::labels_in_all(terms, context.macros, depth) is Ok,
    ensures
        renaming::same_value(
            context::eval_all(terms, Context { labels: inner, ..context }, depth),
            context::eval_all(macros::all_renamed(terms, table), context, depth),
        ),
    decreases depth, terms,
{
    if terms.len() > 0 {
        let front = terms.drop_last();
        let fresh = macros::all_renamed(terms, table);
        assert(fresh.drop_last() =~= macros::all_renamed(front, table));
        assert(fresh.last() == macros::renamed(terms.last(), table));
        all_renaming_is_looking_elsewhere(front, table, context, inner, depth);
        renaming_is_looking_elsewhere(terms.last(), table, context, inner, depth);
    }
}

/// The number of labels that the first `count` of `contents` declare.
pub open spec fn labels_before(contents: Seq<OpModel>, count: int) -> nat
    decreases count,
{
    if count <= 0 {
        0
    } else {
        labels_before(contents, count - 1) + if contents[count - 1] is Label {
            1nat
        } else {
            0nat
        }
    }
}

/// The name that the label at index `i` of `contents` has in an expansion of the macro `name`: the
/// names of the macro and of the label and the number that was drawn for it, with underscores
/// between them.
pub open spec fn fresh_text(
    name: Seq<char>,
    contents: Seq<OpModel>,
    used: nat,
    draws: Seq<u64>,
    i: int,
) -> Seq<char> {
    name + seq!['_'] + contents[i]->Label_0 + seq!['_'] + macros::decimal(
        draws[(used + labels_before(contents, i)) as int] as nat,
    )
}

/// Whether the label of index `i` of `contents` was declared at a lesser index already.
pub open spec fn is_repeated(contents: Seq<OpModel>, i: int) -> bool {
    contents[i] is Label && exists|j: int| 0 <= j < i && #[trigger] contents[j] == contents[i]
}

/// What the labels of a macro are renamed to: each label that the macro declares gets a name of its
/// own, one number is drawn for each of them, and all else stays as it is. A label that is declared
/// twice is refused.
pub proof fn labels_of_macros_are_fresh(
    name: Seq<char>,
    contents: Seq<OpModel>,
    count: nat,
    used: nat,
    draws: Seq<u64>,
)
    requires
        count <= contents.len(),
    ensures
        ({
            let fresh = macros::fresh_upto(name, contents, count, used, draws);
            &&& fresh.duplicate matches Some(label) ==> exists|i: int|
                0 <= i < count && #[trigger] is_repeated(contents, i) && contents[i]
                    == OpModel::Label(label) && fresh.used == used + labels_before(contents, i) + 1
                    && forall|j: int| 0 <= j < i ==> !#[trigger] is_repeated(contents, j)
            &&& fresh.duplicate is None ==> {
                &&& forall|i: int| 0 <= i < count ==> !#[trigger] is_repeated(contents, i)
                &&& fresh.used == used + labels_before(contents, count as int)
                &&& fresh.contents.len() == count
                &&& forall|i: int|
                    #![trigger fresh.contents[i]]
                    0 <= i < count ==> fresh.contents[i] == if contents[i] is Label {
                        OpModel::Label(fresh_text(name, contents, used, draws, i))
                    } else {
                        contents[i]
                    }
                &&& forall|i: int|
                    #![trigger contents[i]]
                    0 <= i < count && contents[i] is Label ==> macros::new_name(
                        fresh.table,
                        contents[i]->Label_0,
                    ) == Some(fresh_text(name, contents, used, draws, i))
                &&& forall|label: Seq<char>|
                    (forall|i: int|
                        0 <= i < count ==> #[trigger] contents[i] != OpModel::Label(label))
                        ==> #[trigger] macros::new_name(fresh.table, label) is None
            }
        }),
    decreases count,
{
    if count > 0 {
        let last = count - 1;
        labels_of_macros_are_fresh(name, contents, last as nat, used, draws);
        let before = macros::fresh_upto(name, contents, last as nat, used, draws);
        let fresh = macros::fresh_upto(name, contents, count, used, draws);
        if before.duplicate is None {
            match contents[last] {
                OpModel::Label(label) => {
                    if macros::new_name(before.table, label) is Some {
                        assert(exists|i: int|
                            0 <= i < last && #[trigger] contents[i] == OpModel::Label(label)) by {
                            if forall|i: int|
                                0 <= i < last ==> #[trigger] contents[i] != OpModel::Label(label) {
                                assert(macros::new_name(before.table, label) is None);
                            }
                        }
                        assert(is_repeated(contents, last));
                    } else {
                        let text = fresh_text(name, contents, used, draws, last);
                        assert(fresh.table.drop_last() =~= before.table);
                        assert(fresh.table.last() == (label, text));
                        assert forall|i: int| 0 <= i < last implies #[trigger] contents[i]
                            != OpModel::Label(label) by {}
                        assert(!is_repeated(contents, last));
                        assert forall|i: int|
                            #![trigger contents[i]]
                            0 <= i < count && contents[i] is Label implies macros::new_name(
                            fresh.table,
                            contents[i]->Label_0,
                        ) == Some(fresh_text(name, contents, used, draws, i)) by {
                            if i < last {
                                assert(contents[i] != OpModel::Label(label));
                            }
                        }
                        assert forall|other: Seq<char>|
                            (forall|i: int|
                                0 <= i < count ==> #[trigger] contents[i] != OpModel::Label(
                                    other,
                                )) implies #[trigger] macros::new_name(fresh.table, other)
                            is None by {
                            assert(contents[last] != OpModel::Label(other));
                            assert(macros::new_name(before.table, other) is None);
                        }
                    }
                },
                _ => {
                    assert(!is_repeated(contents, last));
                },
            }
        }
    }
}

/// Whether `result` is `term` in an expansion: it has the value that `term` has where the labels of
/// the macro are those of the expansion, and the parameters stand for the values of the arguments.
pub open spec fn stands_for(
    result: Term,
    term: Term,
    table: Seq<(Seq<char>, Seq<char>)>,
    parameters: Seq<Seq<char>>,
    arguments: Seq<Term>,
    macros: Seq<MacroModel>,
) -> bool {
    forall|
        outer: Seq<(Seq<char>, Option<LabelDef>)>,
        inner: Seq<(Seq<char>, Option<LabelDef>)>,
        numbers: Seq<int>,
    |
        #![trigger sees_images(outer, inner, table), numbers.len()]
        contents_avoid(macros, table) && sees_images(outer, inner, table) && context::eval_all(
            arguments,
            context::top_context(outer, macros),
            NESTING_LIMIT as nat,
        ) == Ok::<Seq<int>, EvalErrorModel>(numbers) ==> renaming::same_value(
            context::eval(
                term,
                Context { labels: inner, macros, names: parameters, values: numbers },
                NESTING_LIMIT as nat,
            ),
            context::eval(
                result,
                context::top_context(outer, macros),
                NESTING_LIMIT as nat,
            ),
        )
}

/// An expression of a macro, with names and arguments put in, stands for what it was.
pub proof fn instantiated_terms_stand(
    term: Term,
    table: Seq<(Seq<char>, Seq<char>)>,
    parameters: Seq<Seq<char>>,
    arguments: Seq<Term>,
    macros: Seq<MacroModel>,
)
    requires
        parameters.len() == arguments.len(),
    ensures
        match macros::instantiated_term(term, table, parameters, arguments, macros) {
            Ok(result) => {
                &&& context::labels_in(term, macros, NESTING_LIMIT as nat) is Ok
                &&& stands_for(result, term, table, parameters, arguments, macros)
            },
            Err(failure) => exists|error: EvalErrorModel|
                context::labels_in(term, macros, NESTING_LIMIT as nat) == Err::<
                    Seq<Seq<char>>,
                    EvalErrorModel,
                >(error) && failure == #[trigger] error::no_value(error),
        },
{
    let depth = NESTING_LIMIT as nat;
    match macros::instantiated_term(term, table, parameters, arguments, macros) {
        Ok(result) => {
            assert forall|
                outer: Seq<(Seq<char>, Option<LabelDef>)>,
                inner: Seq<(Seq<char>, Option<LabelDef>)>,
                numbers: Seq<int>,
            |
                #![trigger sees_images(outer, inner, table), numbers.len()]
                contents_avoid(macros, table) && sees_images(outer, inner, table)
                    && context::eval_all(arguments, context::top_context(outer, macros), depth)
                    == Ok::<Seq<int>, EvalErrorModel>(numbers) implies renaming::same_value(
                context::eval(
                    term,
                    Context { labels: inner, macros, names: parameters, values: numbers },
                    depth,
                ),
                context::eval(result, context::top_context(outer, macros), depth),
            ) by {
                arguments_stand_for_parameters(
                    macros::renamed(term, table),
                    parameters,
                    arguments,
                    numbers,
                    outer,
                    macros,
                    depth,
                );
                renaming_is_looking_elsewhere(
                    term,
                    table,
                    Context { labels: outer, macros, names: parameters, values: numbers },
                    inner,
                    depth,
                );
            }
        },
        Err(failure) => {
            let error = context::labels_in(term, macros, depth)->Err_0;
            assert(failure == error::no_value(error));
        },
    }
}

/// Whether `result` is the item `op` of a macro in an expansion: the same instruction with its
/// expression as [`stands_for`] says, a label under its new name, and anything else as it is.
pub open spec fn op_expands(
    result: OpModel,
    op: OpModel,
    table: Seq<(Seq<char>, Seq<char>)>,
    parameters: Seq<Seq<char>>,
    arguments: Seq<Term>,
    macros: Seq<MacroModel>,
) -> bool {
    match op {
        OpModel::Label(label) => result == OpModel::Label(image(table, label)),
        OpModel::Op { code, immediate: Some(term) } => match result {
            OpModel::Op { code: same, immediate: Some(other) } => same == code && stands_for(
                other,
                term,
                table,
                parameters,
                arguments,
                macros,
            ),
            _ => false,
        },
        OpModel::Push(term) => match result {
            OpModel::Push(other) => stands_for(
                other,
                term,
                table,
                parameters,
                arguments,
                macros,
            ),
            _ => false,
        },
        _ => result == op,
    }
}

proof fn instantiated_ops_expand(
    contents: Seq<OpModel>,
    count: nat,
    table: Seq<(Seq<char>, Seq<char>)>,
    parameters: Seq<Seq<char>>,
    arguments: Seq<Term>,
    macros: Seq<MacroModel>,
)
    requires
        parameters.len() == arguments.len(),
        count <= contents.len(),
    ensures
        match macros::instantiated_upto(contents, count, table, parameters, arguments, macros) {
            Ok(ops) => {
                &&& ops.len() == count
                &&& forall|i: int|
                    0 <= i < count ==> has_known_references(#[trigger] contents[i], macros)
                &&& forall|i: int|
                    #![trigger ops[i]]
                    0 <= i < count ==> if contents[i] is Label {
                        ops[i] == contents[i]
                    } else {
                        op_expands(ops[i], contents[i], table, parameters, arguments, macros)
                    }
            },
            Err(failure) => exists|i: int|
                0 <= i < count && #[trigger] has_no_value(contents[i], macros, failure) && forall|
                    j: int,
                |
                    0 <= j < i ==> has_known_references(#[trigger] contents[j], macros),
        },
    decreases count,
{
    if count > 0 {
        let last = count - 1;
        instantiated_ops_expand(
            contents,
            last as nat,
            table,
            parameters,
            arguments,
            macros,
        );
        let op = contents[last];
        match encode::expression_in(op) {
            Some(term) => {
                instantiated_terms_stand(term, table, parameters, arguments, macros);
            },
            None => {},
        }
        match macros::instantiated_upto(
            contents,
            last as nat,
            table,
            parameters,
            arguments,
            macros,
        ) {
            Ok(before) => {
                match macros::instantiated_upto(
                    contents,
                    count,
                    table,
                    parameters,
                    arguments,
                    macros,
                ) {
                    Ok(ops) => {
                        assert forall|i: int|
                            #![trigger ops[i]]
                            0 <= i < count implies if contents[i] is Label {
                            ops[i] == contents[i]
                        } else {
                            op_expands(ops[i], contents[i], table, parameters, arguments, macros)
                        } by {
                            if i < last {
                                assert(ops[i] == before[i]);
                            }
                        }
                    },
                    Err(failure) => {
                        assert(has_no_value(contents[last], macros, failure));
                    },
                }
            },
            Err(failure) => {
                let i = choose|i: int|
                    0 <= i < last && #[trigger] has_no_value(contents[i], macros, failure)
                        && forall|j: int|
                        0 <= j < i ==> has_known_references(#[trigger] contents[j], macros);
                assert(has_no_value(contents[i], macros, failure));
            },
        }
    }
}

/// Whether it cannot be told which labels `op` refers to, for the reason that `failure` gives.
pub open spec fn has_no_value(op: OpModel, macros: Seq<MacroModel>, failure: FailureModel) -> bool {
    match encode::expression_in(op) {
        Some(term) => match context::labels_in(term, macros, NESTING_LIMIT as nat) {
            Ok(_) => false,
            Err(error) => failure == error::no_value(error),
        },
        None => false,
    }
}

/// Whether it can be told which labels `op` refers to.
pub open spec fn has_known_references(op: OpModel, macros: Seq<MacroModel>) -> bool {
    match encode::expression_in(op) {
        Some(term) => context::labels_in(term, macros, NESTING_LIMIT as nat) is Ok,
        None => true,
    }
}

/// Whether `ops` are the items of the macro `name` in an expansion, for which numbers are drawn
/// from index `used` on.
pub open spec fn expands(
    ops: Seq<OpModel>,
    name: Seq<char>,
    contents: Seq<OpModel>,
    table: Seq<(Seq<char>, Seq<char>)>,
    parameters: Seq<Seq<char>>,
    arguments: Seq<Term>,
    macros: Seq<MacroModel>,
    used: nat,
    draws: Seq<u64>,
) -> bool {
    &&& ops.len() == contents.len()
    &&& forall|i: int|
        #![trigger ops[i]]
        0 <= i < ops.len() ==> op_expands(
            ops[i],
            contents[i],
            table,
            parameters,
            arguments,
            macros,
        )
    &&& forall|i: int|
        #![trigger contents[i]]
        0 <= i < contents.len() && contents[i] is Label ==> image(table, contents[i]->Label_0)
            == fresh_text(name, contents, used, draws, i)
    &&& forall|label: Seq<char>|
        (forall|i: int|
            0 <= i < contents.len() ==> #[trigger] contents[i] != OpModel::Label(label))
            ==> #[trigger] image(table, label) == label
}

/// Whether no label is declared twice in `contents`.
pub open spec fn none_is_repeated(contents: Seq<OpModel>) -> bool {
    forall|i: int| 0 <= i < contents.len() ==> !#[trigger] is_repeated(contents, i)
}

/// Whether it can be told of all `contents` which labels they refer to.
pub open spec fn all_have_known_references(
    contents: Seq<OpModel>,
    macros: Seq<MacroModel>,
) -> bool {
    forall|i: int|
        0 <= i < contents.len() ==> has_known_references(#[trigger] contents[i], macros)
}

/// What the use of an instruction macro does: where it succeeds, the items of the macro are
/// accepted, one after the other, with the names and arguments of this expansion. It is refused
/// where the macro is not defined, the arguments are too few or too many, a label is declared twice
/// in it, it cannot be told which labels an expression in it refers to, macros are nested without
/// end, or one of the items is. What comes first in this list, and then in the macro, decides.
pub proof fn macros_are_expanded(
    state: State,
    used: nat,
    name: Seq<char>,
    arguments: Seq<Term>,
    draws: Seq<u64>,
    depth: nat,
)
    ensures
        ({
            let step = state::macro_expanded(state, used, name, arguments, draws, depth);
            match context::find_macro(state.macros, name) {
                Some(MacroModel::Instruction { parameters, contents, .. }) => {
                    ||| parameters.len() != arguments.len() && step == (state::Step {
                        state,
                        used,
                        failure: Some(FailureModel::Fault(Fault::ArgumentCount)),
                    })
                    ||| parameters.len() == arguments.len() && (exists|i: int|
                        0 <= i < contents.len() && #[trigger] is_repeated(contents, i) && (
                        forall|j: int| 0 <= j < i ==> !#[trigger] is_repeated(contents, j)) && step
                            == (state::Step {
                            state,
                            used: used + labels_before(contents, i) + 1,
                            failure: Some(
                                FailureModel::Error(
                                    ErrorModel::DuplicateLabel { label: contents[i]->Label_0 },
                                ),
                            ),
                        }))
                    ||| parameters.len() == arguments.len() && none_is_repeated(contents) && (
                    exists|i: int, failure: FailureModel|
                        0 <= i < contents.len() && #[trigger] has_no_value(
                            contents[i],
                            state.macros,
                            failure,
                        ) && (forall|j: int|
                            0 <= j < i ==> has_known_references(
                                #[trigger] contents[j],
                                state.macros,
                            )) && step == (state::Step {
                            state,
                            used: used + labels_before(contents, contents.len() as int),
                            failure: Some(failure),
                        }))
                    ||| parameters.len() == arguments.len() && none_is_repeated(contents)
                        && all_have_known_references(contents, state.macros) && depth == 0 && step
                        == (state::Step {
                        state,
                        used: used + labels_before(contents, contents.len() as int),
                        failure: Some(FailureModel::Fault(Fault::EndlessMacro)),
                    })
                    ||| parameters.len() == arguments.len() && none_is_repeated(contents)
                        && all_have_known_references(contents, state.macros) && depth > 0 && (
                    exists|ops: Seq<OpModel>, table: Seq<(Seq<char>, Seq<char>)>|
                        #[trigger] expands(
                            ops,
                            name,
                            contents,
                            table,
                            parameters,
                            arguments,
                            state.macros,
                            used,
                            draws,
                        ) && step == state::ops_pushed(
                            state,
                            used + labels_before(contents, contents.len() as int),
                            ops,
                            ops.len(),
                            draws,
                            (depth - 1) as nat,
                        ))
                },
                _ => step == (state::Step {
                    state,
                    used,
                    failure: Some(
                        FailureModel::Error(ErrorModel::UndeclaredInstructionMacro { name }),
                    ),
                }),
            }
        }),
{
    match context::find_macro(state.macros, name) {
        Some(MacroModel::Instruction { parameters, contents, .. }) => {
            if parameters.len() == arguments.len() {
                let fresh = macros::fresh_upto(name, contents, contents.len(), used, draws);
                labels_of_macros_are_fresh(name, contents, contents.len(), used, draws);
                if fresh.duplicate is None {
                    instantiated_ops_expand(
                        fresh.contents,
                        fresh.contents.len(),
                        fresh.table,
                        parameters,
                        arguments,
                        state.macros,
                    );
                    match macros::instantiated_upto(
                        fresh.contents,
                        fresh.contents.len(),
                        fresh.table,
                        parameters,
                        arguments,
                        state.macros,
                    ) {
                        Ok(ops) => {
                            assert forall|j: int|
                                0 <= j < contents.len() implies has_known_references(
                                #[trigger] contents[j],
                                state.macros,
                            ) by {
                                assert(has_known_references(fresh.contents[j], state.macros));
                            }
                            assert forall|i: int|
                                #![trigger ops[i]]
                                0 <= i < ops.len() implies op_expands(
                                ops[i],
                                contents[i],
                                fresh.table,
                                parameters,
                                arguments,
                                state.macros,
                            ) by {
                                assert(fresh.contents[i] == if contents[i] is Label {
                                    OpModel::Label(fresh_text(name, contents, used, draws, i))
                                } else {
                                    contents[i]
                                });
                            }
                            assert(expands(
                                ops,
                                name,
                                contents,
                                fresh.table,
                                parameters,
                                arguments,
                                state.macros,
                                used,
                                draws,
                            ));
                        },
                        Err(failure) => {
                            let i = choose|i: int|
                                0 <= i < fresh.contents.len() && #[trigger] has_no_value(
                                    fresh.contents[i],
                                    state.macros,
                                    failure,
                                ) && forall|j: int|
                                    0 <= j < i ==> has_known_references(
                                        #[trigger] fresh.contents[j],
                                        state.macros,
                                    );
                            assert(has_no_value(contents[i], state.macros, failure));
                            assert forall|j: int| 0 <= j < i implies has_known_references(
                                #[trigger] contents[j],
                                state.macros,
                            ) by {
                                assert(has_known_references(fresh.contents[j], state.macros));
                            }
                        },
                    }
                }
            }
        },
        _ => {},
    }
}

} // verus!
