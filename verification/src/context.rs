//! The value of an expression, and the labels that it refers to, in a given context.

use indexmap::IndexMap;
use vstd::prelude::*;

use crate::expression;
use crate::expression::{Expression, Term, Terminal};
use crate::integer::Integer;
use crate::labels;
use crate::labels::{get_label, LabelDef};
use crate::ops;
use crate::ops::{MacroDefinition, MacroModel};

verus! {

/// How deep macros may be nested in one another. No stack is that deep: macros that use each other
/// without end exhaust it first.
pub const NESTING_LIMIT: u64 = 0xffff_ffff_ffff_ffff;

/// Why an expression has no value.
#[derive(Debug, PartialEq, Eq)]
pub enum EvalError {
    /// The expression refers to a label without a position.
    UnknownLabel {
        /// The label.
        label: String,
    },
    /// The expression uses an expression macro that is not defined.
    UnknownMacro {
        /// The name of the macro.
        name: String,
    },
    /// The expression refers to a variable that has no value.
    UndefinedVariable {
        /// The name of the variable.
        name: String,
    },
    /// Expression macros are nested beyond [`NESTING_LIMIT`].
    TooDeep,
}

/// An [`EvalError`] as a mathematical value.
pub enum EvalErrorModel {
    UnknownLabel(Seq<char>),
    UnknownMacro(Seq<char>),
    UndefinedVariable(Seq<char>),
    TooDeep,
}

impl View for EvalError {
    type V = EvalErrorModel;

    open spec fn view(&self) -> EvalErrorModel {
        match *self {
            EvalError::UnknownLabel { label } => EvalErrorModel::UnknownLabel(label@),
            EvalError::UnknownMacro { name } => EvalErrorModel::UnknownMacro(name@),
            EvalError::UndefinedVariable { name } => EvalErrorModel::UndefinedVariable(name@),
            EvalError::TooDeep => EvalErrorModel::TooDeep,
        }
    }
}

/// What the names in an expression stand for.
pub struct Context {
    /// The declared labels.
    pub labels: Seq<(Seq<char>, Option<LabelDef>)>,
    /// The defined macros.
    pub macros: Seq<MacroModel>,
    /// The names of the variables.
    pub names: Seq<Seq<char>>,
    /// The values of the variables, in the order of their names.
    pub values: Seq<int>,
}

/// The context of an expression outside of expression macros.
pub open spec fn top_context(
    labels: Seq<(Seq<char>, Option<LabelDef>)>,
    macros: Seq<MacroModel>,
) -> Context {
    Context { labels, macros, names: Seq::empty(), values: Seq::empty() }
}

/// The definition of the macro `name`, if there is one.
pub open spec fn find_macro(macros: Seq<MacroModel>, name: Seq<char>) -> Option<MacroModel>
    decreases macros.len(),
{
    if macros.len() == 0 {
        None
    } else if macros.last().macro_name() == name {
        Some(macros.last())
    } else {
        find_macro(macros.drop_last(), name)
    }
}

/// The value of the variable `name` among the first `count` ones; of several with that name, the
/// last one counts.
pub open spec fn variable_value(
    names: Seq<Seq<char>>,
    values: Seq<int>,
    name: Seq<char>,
    count: nat,
) -> Option<int>
    decreases count,
{
    if count == 0 {
        None
    } else if names[count - 1] == name {
        Some(values[count - 1])
    } else {
        variable_value(names, values, name, (count - 1) as nat)
    }
}

/// The number of variables of a context that have both a name and a value.
pub open spec fn variable_count(names: Seq<Seq<char>>, values: Seq<int>) -> nat {
    if names.len() < values.len() {
        names.len()
    } else {
        values.len()
    }
}

/// The value of `term` in `context`, where macros are nested no deeper than `depth`.
///
/// Operands are evaluated from left to right, and the first one without a value decides the error.
/// The arguments of an expression macro are evaluated before its content, in the context of the
/// invocation.
pub open spec fn eval(term: Term, context: Context, depth: nat) -> Result<int, EvalErrorModel>
    decreases depth, term,
{
    match term {
        Term::Number(value) => Ok(value),
        Term::Label(label) => match labels::label_lookup(context.labels, label) {
            Some(Some(def)) => Ok(def.position as int),
            _ => Err(EvalErrorModel::UnknownLabel(label)),
        },
        Term::Variable(name) => match variable_value(
            context.names,
            context.values,
            name,
            variable_count(context.names, context.values),
        ) {
            Some(value) => Ok(value),
            None => Err(EvalErrorModel::UndefinedVariable(name)),
        },
        Term::Macro(name, arguments) => match find_macro(context.macros, name) {
            Some(MacroModel::Expression { parameters, content, .. }) => match eval_all(
                arguments,
                context,
                depth,
            ) {
                Ok(values) => if depth == 0 {
                    Err(EvalErrorModel::TooDeep)
                } else {
                    eval(
                        content,
                        Context {
                            labels: context.labels,
                            macros: context.macros,
                            names: parameters,
                            values,
                        },
                        (depth - 1) as nat,
                    )
                },
                Err(error) => Err(error),
            },
            _ => Err(EvalErrorModel::UnknownMacro(name)),
        },
        Term::Plus(left, right) => match eval(*left, context, depth) {
            Ok(x) => match eval(*right, context, depth) {
                Ok(y) => Ok(x + y),
                Err(error) => Err(error),
            },
            Err(error) => Err(error),
        },
        Term::Minus(left, right) => match eval(*left, context, depth) {
            Ok(x) => match eval(*right, context, depth) {
                Ok(y) => Ok(x - y),
                Err(error) => Err(error),
            },
            Err(error) => Err(error),
        },
    }
}

/// The values of `terms` in `context`, where macros are nested no deeper than `depth`.
pub open spec fn eval_all(terms: Seq<Term>, context: Context, depth: nat) -> Result<
    Seq<int>,
    EvalErrorModel,
>
    decreases depth, terms,
{
    if terms.len() == 0 {
        Ok(Seq::empty())
    } else {
        match eval_all(terms.drop_last(), context, depth) {
            Ok(values) => match eval(terms.last(), context, depth) {
                Ok(value) => Ok(values.push(value)),
                Err(error) => Err(error),
            },
            Err(error) => Err(error),
        }
    }
}

/// The labels that `term` refers to, in the order in which they stand in it, where macros are
/// nested no deeper than `depth`. Those in the arguments of an expression macro come before those
/// in its content.
pub open spec fn labels_in(term: Term, macros: Seq<MacroModel>, depth: nat) -> Result<
    Seq<Seq<char>>,
    EvalErrorModel,
>
    decreases depth, term,
{
    match term {
        Term::Number(_) => Ok(Seq::empty()),
        Term::Label(label) => Ok(seq![label]),
        Term::Variable(_) => Ok(Seq::empty()),
        Term::Macro(name, arguments) => match find_macro(macros, name) {
            Some(MacroModel::Expression { content, .. }) => match labels_in_all(
                arguments,
                macros,
                depth,
            ) {
                Ok(first) => if depth == 0 {
                    Err(EvalErrorModel::TooDeep)
                } else {
                    match labels_in(content, macros, (depth - 1) as nat) {
                        Ok(second) => Ok(first + second),
                        Err(error) => Err(error),
                    }
                },
                Err(error) => Err(error),
            },
            _ => Err(EvalErrorModel::UnknownMacro(name)),
        },
        Term::Plus(left, right) => joined(
            labels_in(*left, macros, depth),
            labels_in(*right, macros, depth),
        ),
        Term::Minus(left, right) => joined(
            labels_in(*left, macros, depth),
            labels_in(*right, macros, depth),
        ),
    }
}

/// Two lists one behind the other, or the first error.
pub open spec fn joined(
    first: Result<Seq<Seq<char>>, EvalErrorModel>,
    second: Result<Seq<Seq<char>>, EvalErrorModel>,
) -> Result<Seq<Seq<char>>, EvalErrorModel> {
    match first {
        Ok(xs) => match second {
            Ok(ys) => Ok(xs + ys),
            Err(error) => Err(error),
        },
        Err(error) => Err(error),
    }
}

/// The labels that one of `terms` refers to, as in [`labels_in`].
pub open spec fn labels_in_all(terms: Seq<Term>, macros: Seq<MacroModel>, depth: nat) -> Result<
    Seq<Seq<char>>,
    EvalErrorModel,
>
    decreases depth, terms,
{
    if terms.len() == 0 {
        Ok(Seq::empty())
    } else {
        joined(
            labels_in_all(terms.drop_last(), macros, depth),
            labels_in(terms.last(), macros, depth),
        )
    }
}

/// The definition of the macro `name`, if there is one.
pub(crate) fn get_macro<'a>(macros: &'a Vec<MacroDefinition>, name: &String) -> (definition: Option<
    &'a MacroDefinition,
>)
    ensures
        match definition {
            Some(definition) => find_macro(ops::macro_models(macros@), name@) == Some(definition@),
            None => find_macro(ops::macro_models(macros@), name@) is None,
        },
{
    let ghost models = ops::macro_models(macros@);
    let mut i: usize = macros.len();
    assert(models.take(models.len() as int) =~= models);
    while i > 0
        invariant
            i <= macros@.len(),
            models == ops::macro_models(macros@),
            find_macro(models, name@) == find_macro(models.take(i as int), name@),
        decreases i,
    {
        i = i - 1;
        assert(models.take(i + 1).drop_last() =~= models.take(i as int));
        assert(models.take(i + 1).last() == macros@[i as int]@);
        if *macros[i].name() == *name {
            return Some(&macros[i]);
        }
    }
    None
}

/// The values of `integers`.
pub open spec fn values_of(integers: Seq<Integer>) -> Seq<int> {
    Seq::new(integers.len(), |i: int| integers[i]@)
}

fn get_variable(names: &Vec<String>, values: &Vec<Integer>, name: &String) -> (value: Option<
    Integer,
>)
    ensures
        match value {
            Some(value) => variable_value(
                ops::texts_of(names@),
                values_of(values@),
                name@,
                variable_count(ops::texts_of(names@), values_of(values@)),
            ) == Some(value@),
            None => variable_value(
                ops::texts_of(names@),
                values_of(values@),
                name@,
                variable_count(ops::texts_of(names@), values_of(values@)),
            ) is None,
        },
{
    let count: usize = if names.len() < values.len() {
        names.len()
    } else {
        values.len()
    };
    let mut i: usize = count;
    while i > 0
        invariant
            i <= count <= names@.len(),
            count <= values@.len(),
            count == variable_count(ops::texts_of(names@), values_of(values@)),
            variable_value(ops::texts_of(names@), values_of(values@), name@, count as nat)
                == variable_value(ops::texts_of(names@), values_of(values@), name@, i as nat),
        decreases i,
    {
        i = i - 1;
        if names[i] == *name {
            return Some(values[i].clone());
        }
    }
    None
}

/// Evaluates `expression` where the given variables have the given values.
pub(crate) fn eval_with_context(
    expression: &Expression,
    labels: &IndexMap<String, Option<LabelDef>>,
    macros: &Vec<MacroDefinition>,
    names: &Vec<String>,
    values: &Vec<Integer>,
    depth: u64,
) -> (result: Result<Integer, EvalError>)
    ensures
        ({
            let context = Context {
                labels: labels::label_entries(*labels),
                macros: ops::macro_models(macros@),
                names: ops::texts_of(names@),
                values: values_of(values@),
            };
            match result {
                Ok(value) => eval(expression@, context, depth as nat) == Ok::<int, EvalErrorModel>(
                    value@,
                ),
                Err(error) => eval(expression@, context, depth as nat) == Err::<
                    int,
                    EvalErrorModel,
                >(error@),
            }
        }),
    decreases depth, expression,
{
    match expression {
        Expression::Terminal(terminal) => match terminal {
            Terminal::Number(value) => Ok(value.clone()),
            Terminal::Label(label) => match get_label(labels, label.as_str()) {
                Some(Some(def)) => Ok(Integer::from_i128(def.position as i128)),
                _ => Err(EvalError::UnknownLabel { label: label.clone() }),
            },
            Terminal::Variable(name) => match get_variable(names, values, name) {
                Some(value) => Ok(value),
                None => Err(EvalError::UndefinedVariable { name: name.clone() }),
            },
        },
        Expression::Macro(invocation) => match get_macro(macros, &invocation.name) {
            Some(MacroDefinition::Expression(definition)) => {
                let arguments = eval_all_with_context(
                    &invocation.parameters,
                    labels,
                    macros,
                    names,
                    values,
                    depth,
                )?;
                if depth == 0 {
                    return Err(EvalError::TooDeep);
                }
                eval_with_context(
                    &definition.content.tree,
                    labels,
                    macros,
                    &definition.parameters,
                    &arguments,
                    depth - 1,
                )
            },
            _ => Err(EvalError::UnknownMacro { name: invocation.name.clone() }),
        },
        Expression::Plus(left, right) => {
            let x = eval_with_context(left, labels, macros, names, values, depth)?;
            let y = eval_with_context(right, labels, macros, names, values, depth)?;
            Ok(x.plus(&y))
        },
        Expression::Minus(left, right) => {
            let x = eval_with_context(left, labels, macros, names, values, depth)?;
            let y = eval_with_context(right, labels, macros, names, values, depth)?;
            Ok(x.minus(&y))
        },
    }
}

/// Evaluates each of `expressions`.
fn eval_all_with_context(
    expressions: &Vec<Expression>,
    labels: &IndexMap<String, Option<LabelDef>>,
    macros: &Vec<MacroDefinition>,
    names: &Vec<String>,
    values: &Vec<Integer>,
    depth: u64,
) -> (result: Result<Vec<Integer>, EvalError>)
    ensures
        ({
            let context = Context {
                labels: labels::label_entries(*labels),
                macros: ops::macro_models(macros@),
                names: ops::texts_of(names@),
                values: values_of(values@),
            };
            match result {
                Ok(results) => eval_all(
                    expression::terms_of(expressions@),
                    context,
                    depth as nat,
                ) == Ok::<Seq<int>, EvalErrorModel>(values_of(results@)),
                Err(error) => eval_all(
                    expression::terms_of(expressions@),
                    context,
                    depth as nat,
                ) == Err::<Seq<int>, EvalErrorModel>(error@),
            }
        }),
    decreases depth, expressions@,
{
    let ghost context = Context {
        labels: labels::label_entries(*labels),
        macros: ops::macro_models(macros@),
        names: ops::texts_of(names@),
        values: values_of(values@),
    };
    let ghost terms = expression::terms_of(expressions@);
    let mut results: Vec<Integer> = Vec::new();
    assert(values_of(results@) =~= Seq::empty());
    for i in 0..expressions.len()
        invariant
            context == (Context {
                labels: labels::label_entries(*labels),
                macros: ops::macro_models(macros@),
                names: ops::texts_of(names@),
                values: values_of(values@),
            }),
            terms == expression::terms_of(expressions@),
            eval_all(terms.take(i as int), context, depth as nat) == Ok::<
                Seq<int>,
                EvalErrorModel,
            >(values_of(results@)),
    {
        let ghost before = values_of(results@);
        assert(terms.take(i + 1).drop_last() =~= terms.take(i as int));
        match eval_with_context(&expressions[i], labels, macros, names, values, depth) {
            Ok(value) => {
                results.push(value);
                assert(values_of(results@) =~= before.push(value@));
            },
            Err(error) => {
                proof {
                    eval_all_stops(terms, context, depth as nat, (i + 1) as nat);
                }
                return Err(error);
            },
        }
    }
    assert(terms.take(terms.len() as int) =~= terms);
    Ok(results)
}

/// A list of terms has no values once a prefix of it has none, and for the same reason.
proof fn eval_all_stops(terms: Seq<Term>, context: Context, depth: nat, count: nat)
    requires
        count <= terms.len(),
        eval_all(terms.take(count as int), context, depth) is Err,
    ensures
        eval_all(terms, context, depth) == eval_all(terms.take(count as int), context, depth),
    decreases terms.len(),
{
    if count == terms.len() {
        assert(terms.take(count as int) =~= terms);
    } else {
        assert(terms.drop_last().take(count as int) =~= terms.take(count as int));
        eval_all_stops(terms.drop_last(), context, depth, count);
    }
}

/// The labels that `expression` refers to.
pub(crate) fn labels_of(
    expression: &Expression,
    macros: &Vec<MacroDefinition>,
    depth: u64,
) -> (result: Result<Vec<String>, EvalError>)
    ensures
        match result {
            Ok(labels) => labels_in(expression@, ops::macro_models(macros@), depth as nat) == Ok::<
                Seq<Seq<char>>,
                EvalErrorModel,
            >(ops::texts_of(labels@)),
            Err(error) => labels_in(expression@, ops::macro_models(macros@), depth as nat)
                == Err::<Seq<Seq<char>>, EvalErrorModel>(error@),
        },
    decreases depth, expression,
{
    match expression {
        Expression::Terminal(terminal) => {
            let mut labels: Vec<String> = Vec::new();
            assert(ops::texts_of(labels@) =~= Seq::empty());
            if let Terminal::Label(label) = terminal {
                labels.push(label.clone());
                assert(ops::texts_of(labels@) =~= seq![label@]);
            }
            Ok(labels)
        },
        Expression::Macro(invocation) => match get_macro(macros, &invocation.name) {
            Some(MacroDefinition::Expression(definition)) => {
                let first = labels_of_all(&invocation.parameters, macros, depth)?;
                if depth == 0 {
                    return Err(EvalError::TooDeep);
                }
                let second = labels_of(&definition.content.tree, macros, depth - 1)?;
                Ok(join(first, second))
            },
            _ => Err(EvalError::UnknownMacro { name: invocation.name.clone() }),
        },
        Expression::Plus(left, right) => {
            let first = labels_of(left, macros, depth)?;
            let second = labels_of(right, macros, depth)?;
            Ok(join(first, second))
        },
        Expression::Minus(left, right) => {
            let first = labels_of(left, macros, depth)?;
            let second = labels_of(right, macros, depth)?;
            Ok(join(first, second))
        },
    }
}

/// The labels that one of `expressions` refers to.
fn labels_of_all(
    expressions: &Vec<Expression>,
    macros: &Vec<MacroDefinition>,
    depth: u64,
) -> (result: Result<Vec<String>, EvalError>)
    ensures
        match result {
            Ok(labels) => labels_in_all(
                expression::terms_of(expressions@),
                ops::macro_models(macros@),
                depth as nat,
            ) == Ok::<Seq<Seq<char>>, EvalErrorModel>(ops::texts_of(labels@)),
            Err(error) => labels_in_all(
                expression::terms_of(expressions@),
                ops::macro_models(macros@),
                depth as nat,
            ) == Err::<Seq<Seq<char>>, EvalErrorModel>(error@),
        },
    decreases depth, expressions@,
{
    let ghost models = ops::macro_models(macros@);
    let ghost terms = expression::terms_of(expressions@);
    let mut labels: Vec<String> = Vec::new();
    assert(ops::texts_of(labels@) =~= Seq::empty());
    for i in 0..expressions.len()
        invariant
            models == ops::macro_models(macros@),
            terms == expression::terms_of(expressions@),
            labels_in_all(terms.take(i as int), models, depth as nat) == Ok::<
                Seq<Seq<char>>,
                EvalErrorModel,
            >(ops::texts_of(labels@)),
    {
        assert(terms.take(i + 1).drop_last() =~= terms.take(i as int));
        match labels_of(&expressions[i], macros, depth) {
            Ok(more) => {
                labels = join(labels, more);
            },
            Err(error) => {
                proof {
                    labels_in_all_stops(terms, models, depth as nat, (i + 1) as nat);
                }
                return Err(error);
            },
        }
    }
    assert(terms.take(terms.len() as int) =~= terms);
    Ok(labels)
}

/// The labels in a list of terms are not known once those in a prefix of it are not, and for the
/// same reason.
proof fn labels_in_all_stops(terms: Seq<Term>, macros: Seq<MacroModel>, depth: nat, count: nat)
    requires
        count <= terms.len(),
        labels_in_all(terms.take(count as int), macros, depth) is Err,
    ensures
        labels_in_all(terms, macros, depth) == labels_in_all(
            terms.take(count as int),
            macros,
            depth,
        ),
    decreases terms.len(),
{
    if count == terms.len() {
        assert(terms.take(count as int) =~= terms);
    } else {
        assert(terms.drop_last().take(count as int) =~= terms.take(count as int));
        labels_in_all_stops(terms.drop_last(), macros, depth, count);
    }
}

/// Two lists of strings one behind the other.
fn join(first: Vec<String>, second: Vec<String>) -> (both: Vec<String>)
    ensures
        ops::texts_of(both@) == ops::texts_of(first@) + ops::texts_of(second@),
{
    let mut first = first;
    let mut second = second;
    let ghost texts = ops::texts_of(first@) + ops::texts_of(second@);
    first.append(&mut second);
    assert(ops::texts_of(first@) =~= texts);
    first
}

} // verus!
