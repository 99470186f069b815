//! What the value of an expression is, and which labels it rests on.

use vstd::prelude::*;

use crate::context;
use crate::context::{Context, EvalErrorModel};
use crate::expression::Term;
use crate::labels;
use crate::labels::LabelDef;
use crate::laws;
use crate::ops::MacroModel;

verus! {

/// A number stands for itself.
pub proof fn numbers_stand_for_themselves(number: int, context: Context, depth: nat)
    ensures
        context::eval(Term::Number(number), context, depth) == Ok::<int, EvalErrorModel>(number),
{
}

/// A sum has a value where both operands have one, and it is their sum. Otherwise it fails as the
/// first operand does that fails.
pub proof fn sums_are_sums(left: Term, right: Term, context: Context, depth: nat)
    ensures
        ({
            let x = context::eval(left, context, depth);
            let y = context::eval(right, context, depth);
            let sum = context::eval(
                Term::Plus(Box::new(left), Box::new(right)),
                context,
                depth,
            );
            &&& x is Ok && y is Ok ==> sum is Ok && sum->Ok_0 - y->Ok_0 == x->Ok_0
            &&& x is Err ==> sum == x
            &&& x is Ok && y is Err ==> sum == y
        }),
{
}

/// A difference has a value where both operands have one, and it is what is missing from the second
/// to the first. Otherwise it fails as the first operand does that fails.
pub proof fn differences_are_differences(left: Term, right: Term, context: Context, depth: nat)
    ensures
        ({
            let x = context::eval(left, context, depth);
            let y = context::eval(right, context, depth);
            let difference = context::eval(
                Term::Minus(Box::new(left), Box::new(right)),
                context,
                depth,
            );
            &&& x is Ok && y is Ok ==> difference is Ok && y->Ok_0 + difference->Ok_0 == x->Ok_0
            &&& x is Err ==> difference == x
            &&& x is Ok && y is Err ==> difference == y
        }),
{
}

/// What is added and taken away again leaves the value as it was.
pub proof fn differences_undo_sums(left: Term, right: Term, context: Context, depth: nat)
    requires
        context::eval(left, context, depth) is Ok,
        context::eval(right, context, depth) is Ok,
    ensures
        context::eval(
            Term::Minus(
                Box::new(Term::Plus(Box::new(left), Box::new(right))),
                Box::new(right),
            ),
            context,
            depth,
        ) == context::eval(left, context, depth),
        context::eval(
            Term::Plus(
                Box::new(Term::Minus(Box::new(left), Box::new(right))),
                Box::new(right),
            ),
            context,
            depth,
        ) == context::eval(left, context, depth),
{
    let sum = Term::Plus(Box::new(left), Box::new(right));
    let difference = Term::Minus(Box::new(left), Box::new(right));
    sums_are_sums(left, right, context, depth);
    differences_are_differences(sum, right, context, depth);
    differences_are_differences(left, right, context, depth);
    sums_are_sums(difference, right, context, depth);
}

/// A label stands for its position. Where it has none, or was not declared, that is the error.
pub proof fn labels_stand_for_positions(label: Seq<char>, context: Context, depth: nat)
    requires
        laws::distinct_labels(context.labels),
    ensures
        forall|i: int|
            0 <= i < context.labels.len() && (#[trigger] context.labels[i]).0 == label
                && context.labels[i].1 is Some ==> context::eval(
                Term::Label(label),
                context,
                depth,
            ) == Ok::<int, EvalErrorModel>(context.labels[i].1->0.position as int),
        (forall|i: int|
            0 <= i < context.labels.len() && context.labels[i].1 is Some ==> (
            #[trigger] context.labels[i]).0 != label) ==> context::eval(
            Term::Label(label),
            context,
            depth,
        ) == Err::<int, EvalErrorModel>(EvalErrorModel::UnknownLabel(label)),
{
    laws::label_index_finds(context.labels, label);
    assert forall|i: int|
        0 <= i < context.labels.len() && (#[trigger] context.labels[i]).0 == label
            && context.labels[i].1 is Some implies context::eval(
        Term::Label(label),
        context,
        depth,
    ) == Ok::<int, EvalErrorModel>(context.labels[i].1->0.position as int) by {
        laws::label_found(context.labels, i);
    }
}

proof fn variable_is_found(
    names: Seq<Seq<char>>,
    values: Seq<int>,
    name: Seq<char>,
    count: nat,
    i: int,
)
    requires
        0 <= i < count,
        names[i] == name,
        forall|j: int| i < j < count ==> #[trigger] names[j] != name,
    ensures
        context::variable_value(names, values, name, count) == Some(values[i]),
    decreases count,
{
    if i < count - 1 {
        assert(names[count - 1] != name);
        variable_is_found(names, values, name, (count - 1) as nat, i);
    }
}

proof fn variable_is_not_found(
    names: Seq<Seq<char>>,
    values: Seq<int>,
    name: Seq<char>,
    count: nat,
)
    requires
        forall|j: int| 0 <= j < count ==> #[trigger] names[j] != name,
    ensures
        context::variable_value(names, values, name, count) is None,
    decreases count,
{
    if count > 0 {
        variable_is_not_found(names, values, name, (count - 1) as nat);
    }
}

/// A variable stands for the value under its name, the last one where there are several. Where
/// there is none, that is the error. Names and values that have no counterpart count for nothing.
pub proof fn variables_stand_for_values(name: Seq<char>, context: Context, depth: nat)
    ensures
        forall|i: int|
            0 <= i < context.names.len() && i < context.values.len()
                && #[trigger] context.names[i] == name && (forall|j: int|
                i < j < context.names.len() && j < context.values.len()
                    ==> #[trigger] context.names[j] != name) ==> context::eval(
                Term::Variable(name),
                context,
                depth,
            ) == Ok::<int, EvalErrorModel>(context.values[i]),
        (forall|i: int|
            0 <= i < context.names.len() && i < context.values.len()
                ==> #[trigger] context.names[i] != name) ==> context::eval(
            Term::Variable(name),
            context,
            depth,
        ) == Err::<int, EvalErrorModel>(EvalErrorModel::UndefinedVariable(name)),
{
    let count = context::variable_count(context.names, context.values);
    assert forall|i: int|
        0 <= i < context.names.len() && i < context.values.len() && #[trigger] context.names[i]
            == name && (forall|j: int|
            i < j < context.names.len() && j < context.values.len()
                ==> #[trigger] context.names[j] != name) implies context::eval(
        Term::Variable(name),
        context,
        depth,
    ) == Ok::<int, EvalErrorModel>(context.values[i]) by {
        variable_is_found(context.names, context.values, name, count, i);
    }
    if forall|i: int|
        0 <= i < context.names.len() && i < context.values.len() ==> #[trigger] context.names[i]
            != name {
        variable_is_not_found(context.names, context.values, name, count);
    }
}

/// A list of expressions has values if and only if each of them has one, and they are those, in
/// order. Otherwise it fails as the first one does that fails.
pub proof fn lists_have_the_values_of_their_terms(
    terms: Seq<Term>,
    context: Context,
    depth: nat,
)
    ensures
        match context::eval_all(terms, context, depth) {
            Ok(values) => {
                &&& values.len() == terms.len()
                &&& forall|i: int|
                    0 <= i < terms.len() ==> context::eval(#[trigger] terms[i], context, depth)
                        == Ok::<int, EvalErrorModel>(values[i])
            },
            Err(error) => exists|i: int|
                0 <= i < terms.len() && context::eval(#[trigger] terms[i], context, depth) == Err::<
                    int,
                    EvalErrorModel,
                >(error) && forall|j: int|
                    0 <= j < i ==> context::eval(#[trigger] terms[j], context, depth) is Ok,
        },
    decreases terms.len(),
{
    if terms.len() > 0 {
        let front = terms.drop_last();
        lists_have_the_values_of_their_terms(front, context, depth);
        let last = terms.len() - 1;
        assert(terms[last] == terms.last());
        match context::eval_all(front, context, depth) {
            Ok(values) => {
                assert forall|i: int| 0 <= i < last implies context::eval(
                    #[trigger] terms[i],
                    context,
                    depth,
                ) == Ok::<int, EvalErrorModel>(values[i]) by {
                    assert(front[i] == terms[i]);
                }
            },
            Err(error) => {
                let i = choose|i: int|
                    0 <= i < front.len() && context::eval(#[trigger] front[i], context, depth)
                        == Err::<int, EvalErrorModel>(error) && forall|j: int|
                        0 <= j < i ==> context::eval(#[trigger] front[j], context, depth) is Ok;
                assert(terms[i] == front[i]);
                assert forall|j: int| 0 <= j < i implies context::eval(
                    #[trigger] terms[j],
                    context,
                    depth,
                ) is Ok by {
                    assert(front[j] == terms[j]);
                }
            },
        }
    }
}

/// An expression macro stands for its content, in which each parameter stands for the value of its
/// argument. A macro that is not defined, or is none for expressions, is the error.
pub proof fn macros_stand_for_their_content(
    name: Seq<char>,
    arguments: Seq<Term>,
    context: Context,
    depth: nat,
)
    requires
        depth > 0,
    ensures
        match context::find_macro(context.macros, name) {
            Some(MacroModel::Expression { parameters, content, .. }) => {
                &&& forall|values: Seq<int>|
                    #![trigger values.len()]
                    values.len() == arguments.len() && (forall|i: int|
                        0 <= i < arguments.len() ==> context::eval(
                            #[trigger] arguments[i],
                            context,
                            depth,
                        ) == Ok::<int, EvalErrorModel>(values[i])) ==> context::eval(
                        Term::Macro(name, arguments),
                        context,
                        depth,
                    ) == context::eval(
                        content,
                        Context {
                            labels: context.labels,
                            macros: context.macros,
                            names: parameters,
                            values,
                        },
                        (depth - 1) as nat,
                    )
                &&& forall|i: int|
                    0 <= i < arguments.len() && context::eval(
                        #[trigger] arguments[i],
                        context,
                        depth,
                    ) is Err && (forall|j: int|
                        0 <= j < i ==> context::eval(
                            #[trigger] arguments[j],
                            context,
                            depth,
                        ) is Ok) ==> context::eval(Term::Macro(name, arguments), context, depth)
                        == context::eval(arguments[i], context, depth)
            },
            _ => context::eval(Term::Macro(name, arguments), context, depth) == Err::<
                int,
                EvalErrorModel,
            >(EvalErrorModel::UnknownMacro(name)),
        },
{
    match context::find_macro(context.macros, name) {
        Some(MacroModel::Expression { parameters, content, .. }) => {
            lists_have_the_values_of_their_terms(arguments, context, depth);
            assert forall|values: Seq<int>|
                #![trigger values.len()]
                values.len() == arguments.len() && (forall|i: int|
                    0 <= i < arguments.len() ==> context::eval(
                        #[trigger] arguments[i],
                        context,
                        depth,
                    ) == Ok::<int, EvalErrorModel>(values[i])) implies context::eval(
                Term::Macro(name, arguments),
                context,
                depth,
            ) == context::eval(
                content,
                Context {
                    labels: context.labels,
                    macros: context.macros,
                    names: parameters,
                    values,
                },
                (depth - 1) as nat,
            ) by {
                match context::eval_all(arguments, context, depth) {
                    Ok(found) => {
                        assert forall|i: int| 0 <= i < arguments.len() implies found[i]
                            == values[i] by {
                            assert(context::eval(arguments[i], context, depth) == Ok::<
                                int,
                                EvalErrorModel,
                            >(found[i]));
                        }
                        assert(found =~= values);
                    },
                    Err(_) => {},
                }
            }
            assert forall|i: int|
                0 <= i < arguments.len() && context::eval(
                    #[trigger] arguments[i],
                    context,
                    depth,
                ) is Err && (forall|j: int|
                    0 <= j < i ==> context::eval(
                        #[trigger] arguments[j],
                        context,
                        depth,
                    ) is Ok) implies context::eval(Term::Macro(name, arguments), context, depth)
                == context::eval(arguments[i], context, depth) by {
                match context::eval_all(arguments, context, depth) {
                    Ok(_) => {},
                    Err(error) => {
                        let k = choose|k: int|
                            0 <= k < arguments.len() && context::eval(
                                #[trigger] arguments[k],
                                context,
                                depth,
                            ) == Err::<int, EvalErrorModel>(error) && forall|j: int|
                                0 <= j < k ==> context::eval(
                                    #[trigger] arguments[j],
                                    context,
                                    depth,
                                ) is Ok;
                        if k < i {
                            assert(context::eval(arguments[k], context, depth) is Ok);
                        } else if i < k {
                            assert(context::eval(arguments[i], context, depth) is Ok);
                        }
                    },
                }
            }
        },
        _ => {},
    }
}

/// Whether both tables say the same of each of `names`.
pub open spec fn tables_agree(
    entries: Seq<(Seq<char>, Option<LabelDef>)>,
    others: Seq<(Seq<char>, Option<LabelDef>)>,
    names: Seq<Seq<char>>,
) -> bool {
    forall|i: int|
        0 <= i < names.len() ==> labels::label_lookup(entries, #[trigger] names[i])
            == labels::label_lookup(others, names[i])
}

proof fn joined_tables_agree(
    entries: Seq<(Seq<char>, Option<LabelDef>)>,
    others: Seq<(Seq<char>, Option<LabelDef>)>,
    first: Seq<Seq<char>>,
    second: Seq<Seq<char>>,
)
    requires
        tables_agree(entries, others, first + second),
    ensures
        tables_agree(entries, others, first),
        tables_agree(entries, others, second),
{
    assert forall|i: int| 0 <= i < first.len() implies labels::label_lookup(
        entries,
        #[trigger] first[i],
    ) == labels::label_lookup(others, first[i]) by {
        assert((first + second)[i] == first[i]);
    }
    assert forall|i: int| 0 <= i < second.len() implies labels::label_lookup(
        entries,
        #[trigger] second[i],
    ) == labels::label_lookup(others, second[i]) by {
        assert((first + second)[first.len() + i] == second[i]);
    }
}

/// The value of an expression rests on the labels that it refers to, and on no other: where two
/// tables say the same of these, the value is the same.
pub proof fn values_rest_on_their_labels(
    term: Term,
    context: Context,
    others: Seq<(Seq<char>, Option<LabelDef>)>,
    depth: nat,
)
    requires
        context::labels_in(term, context.macros, depth) is Ok,
        tables_agree(
            context.labels,
            others,
            context::labels_in(term, context.macros, depth)->Ok_0,
        ),
    ensures
        context::eval(term, Context { labels: others, ..context }, depth) == context::eval(
            term,
            context,
            depth,
        ),
    decreases depth, term,
{
    match term {
        Term::Label(label) => {
            let used_labels = context::labels_in(term, context.macros, depth)->Ok_0;
            assert(used_labels[0] == label);
        },
        Term::Macro(name, arguments) => match context::find_macro(context.macros, name) {
            Some(MacroModel::Expression { parameters, content, .. }) => {
                let first = context::labels_in_all(arguments, context.macros, depth)->Ok_0;
                let second = context::labels_in(
                    content,
                    context.macros,
                    (depth - 1) as nat,
                )->Ok_0;
                joined_tables_agree(context.labels, others, first, second);
                all_values_rest_on_their_labels(arguments, context, others, depth);
                match context::eval_all(arguments, context, depth) {
                    Ok(values) => {
                        values_rest_on_their_labels(
                            content,
                            Context {
                                labels: context.labels,
                                macros: context.macros,
                                names: parameters,
                                values,
                            },
                            others,
                            (depth - 1) as nat,
                        );
                    },
                    Err(_) => {},
                }
            },
            _ => {},
        },
        Term::Plus(left, right) => {
            let first = context::labels_in(*left, context.macros, depth)->Ok_0;
            let second = context::labels_in(*right, context.macros, depth)->Ok_0;
            joined_tables_agree(context.labels, others, first, second);
            values_rest_on_their_labels(*left, context, others, depth);
            values_rest_on_their_labels(*right, context, others, depth);
        },
        Term::Minus(left, right) => {
            let first = context::labels_in(*left, context.macros, depth)->Ok_0;
            let second = context::labels_in(*right, context.macros, depth)->Ok_0;
            joined_tables_agree(context.labels, others, first, second);
            values_rest_on_their_labels(*left, context, others, depth);
            values_rest_on_their_labels(*right, context, others, depth);
        },
        _ => {},
    }
}

proof fn all_values_rest_on_their_labels(
    terms: Seq<Term>,
    context: Context,
    others: Seq<(Seq<char>, Option<LabelDef>)>,
    depth: nat,
)
    requires
        context::labels_in_all(terms, context.macros, depth) is Ok,
        tables_agree(
            context.labels,
            others,
            context::labels_in_all(terms, context.macros, depth)->Ok_0,
        ),
    ensures
        context::eval_all(terms, Context { labels: others, ..context }, depth)
            == context::eval_all(terms, context, depth),
    decreases depth, terms,
{
    if terms.len() > 0 {
        let first = context::labels_in_all(terms.drop_last(), context.macros, depth)->Ok_0;
        let second = context::labels_in(terms.last(), context.macros, depth)->Ok_0;
        joined_tables_agree(context.labels, others, first, second);
        all_values_rest_on_their_labels(terms.drop_last(), context, others, depth);
        values_rest_on_their_labels(terms.last(), context, others, depth);
    }
}

/// The labels that an expression refers to: a label refers to itself, numbers and variables to
/// none, sums and differences to those of both operands, and an expression macro to those of its
/// arguments and of its content.
pub proof fn references_are_those_of_the_parts(
    left: Term,
    right: Term,
    name: Seq<char>,
    number: int,
    macros: Seq<MacroModel>,
    depth: nat,
)
    ensures
        context::labels_in(Term::Number(number), macros, depth) == Ok::<
            Seq<Seq<char>>,
            EvalErrorModel,
        >(Seq::empty()),
        context::labels_in(Term::Variable(name), macros, depth) == Ok::<
            Seq<Seq<char>>,
            EvalErrorModel,
        >(Seq::empty()),
        context::labels_in(Term::Label(name), macros, depth) == Ok::<
            Seq<Seq<char>>,
            EvalErrorModel,
        >(seq![name]),
        ({
            let xs = context::labels_in(left, macros, depth);
            let ys = context::labels_in(right, macros, depth);
            let sum = context::labels_in(
                Term::Plus(Box::new(left), Box::new(right)),
                macros,
                depth,
            );
            let difference = context::labels_in(
                Term::Minus(Box::new(left), Box::new(right)),
                macros,
                depth,
            );
            &&& xs is Ok && ys is Ok ==> sum is Ok && sum->Ok_0 == xs->Ok_0 + ys->Ok_0
            &&& difference == sum
            &&& xs is Err ==> sum == xs
            &&& xs is Ok && ys is Err ==> sum == ys
        }),
{
}

/// The labels that the use of an expression macro refers to.
pub proof fn references_go_through_macros(
    name: Seq<char>,
    arguments: Seq<Term>,
    macros: Seq<MacroModel>,
    depth: nat,
)
    requires
        depth > 0,
    ensures
        match context::find_macro(macros, name) {
            Some(MacroModel::Expression { content, .. }) => {
                let whole = context::labels_in(Term::Macro(name, arguments), macros, depth);
                let inner = context::labels_in(content, macros, (depth - 1) as nat);
                &&& whole is Ok ==> inner is Ok && (forall|i: int|
                    0 <= i < arguments.len() ==> context::labels_in(
                        #[trigger] arguments[i],
                        macros,
                        depth,
                    ) is Ok)
                &&& inner is Ok && (forall|i: int|
                    0 <= i < arguments.len() ==> context::labels_in(
                        #[trigger] arguments[i],
                        macros,
                        depth,
                    ) is Ok) ==> {
                    &&& whole is Ok
                    &&& forall|label: Seq<char>|
                        #[trigger] whole->Ok_0.contains(label) <==> inner->Ok_0.contains(label) || (
                        exists|i: int|
                            0 <= i < arguments.len() && context::labels_in(
                                #[trigger] arguments[i],
                                macros,
                                depth,
                            )->Ok_0.contains(label))
                }
            },
            _ => context::labels_in(Term::Macro(name, arguments), macros, depth) == Err::<
                Seq<Seq<char>>,
                EvalErrorModel,
            >(EvalErrorModel::UnknownMacro(name)),
        },
{
    match context::find_macro(macros, name) {
        Some(MacroModel::Expression { content, .. }) => {
            all_references_of_lists(arguments, macros, depth);
            let whole = context::labels_in(Term::Macro(name, arguments), macros, depth);
            let inner = context::labels_in(content, macros, (depth - 1) as nat);
            if whole is Ok {
                let first = context::labels_in_all(arguments, macros, depth)->Ok_0;
                assert forall|label: Seq<char>|
                    #[trigger] whole->Ok_0.contains(label) <==> first.contains(label)
                        || inner->Ok_0.contains(label) by {
                    contained_in_both(first, inner->Ok_0, label);
                }
            }
        },
        _ => {},
    }
}

/// What two lists hold one behind the other is what either of them holds.
pub proof fn contained_in_both(first: Seq<Seq<char>>, second: Seq<Seq<char>>, text: Seq<char>)
    ensures
        (first + second).contains(text) <==> first.contains(text) || second.contains(text),
{
    let both = first + second;
    if both.contains(text) {
        let i = choose|i: int| 0 <= i < both.len() && both[i] == text;
        if i < first.len() {
            assert(first[i] == text);
        } else {
            assert(second[i - first.len()] == text);
        }
    }
    if first.contains(text) {
        let i = choose|i: int| 0 <= i < first.len() && first[i] == text;
        assert(both[i] == text);
    }
    if second.contains(text) {
        let i = choose|i: int| 0 <= i < second.len() && second[i] == text;
        assert(both[first.len() + i] == text);
    }
}

/// The labels that a list of expressions refers to.
pub proof fn all_references_of_lists(terms: Seq<Term>, macros: Seq<MacroModel>, depth: nat)
    ensures
        context::labels_in_all(terms, macros, depth) is Ok <==> forall|i: int|
            0 <= i < terms.len() ==> context::labels_in(#[trigger] terms[i], macros, depth) is Ok,
        context::labels_in_all(terms, macros, depth) is Ok ==> forall|label: Seq<char>|
            #[trigger] context::labels_in_all(terms, macros, depth)->Ok_0.contains(label)
                <==> exists|i: int|
                0 <= i < terms.len() && context::labels_in(
                    #[trigger] terms[i],
                    macros,
                    depth,
                )->Ok_0.contains(label),
    decreases terms.len(),
{
    if terms.len() > 0 {
        let front = terms.drop_last();
        let last = terms.len() - 1;
        all_references_of_lists(front, macros, depth);
        assert(terms[last] == terms.last());
        let some = context::labels_in_all(front, macros, depth);
        let more = context::labels_in(terms.last(), macros, depth);
        let all = context::labels_in_all(terms, macros, depth);
        assert forall|i: int| 0 <= i < last implies front[i] == #[trigger] terms[i] by {}
        if some is Err {
            let i = choose|i: int|
                0 <= i < front.len() && context::labels_in(
                    #[trigger] front[i],
                    macros,
                    depth,
                ) is Err;
            assert(terms[i] == front[i]);
        }
        if all is Ok {
            assert forall|i: int| 0 <= i < terms.len() implies context::labels_in(
                #[trigger] terms[i],
                macros,
                depth,
            ) is Ok by {
                if i < last {
                    assert(context::labels_in(front[i], macros, depth) is Ok);
                }
            }
            assert forall|label: Seq<char>|
                #[trigger] all->Ok_0.contains(label) <==> exists|i: int|
                    0 <= i < terms.len() && context::labels_in(
                        #[trigger] terms[i],
                        macros,
                        depth,
                    )->Ok_0.contains(label) by {
                contained_in_both(some->Ok_0, more->Ok_0, label);
                if some->Ok_0.contains(label) {
                    let i = choose|i: int|
                        0 <= i < front.len() && context::labels_in(
                            #[trigger] front[i],
                            macros,
                            depth,
                        )->Ok_0.contains(label);
                    assert(terms[i] == front[i]);
                }
                if more->Ok_0.contains(label) {
                    assert(context::labels_in(
                        terms[last],
                        macros,
                        depth,
                    )->Ok_0.contains(label));
                }
                if exists|i: int|
                    0 <= i < terms.len() && context::labels_in(
                        #[trigger] terms[i],
                        macros,
                        depth,
                    )->Ok_0.contains(label) {
                    let i = choose|i: int|
                        0 <= i < terms.len() && context::labels_in(
                            #[trigger] terms[i],
                            macros,
                            depth,
                        )->Ok_0.contains(label);
                    if i < last {
                        assert(context::labels_in(
                            front[i],
                            macros,
                            depth,
                        )->Ok_0.contains(label));
                    }
                }
            }
        }
    }
}

} // verus!
