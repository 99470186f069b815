//! The expansion of instruction macros: fresh names for local labels, and arguments in the place of
//! parameters.

use vstd::prelude::*;
use vstd::string::StringExecFns;

use crate::context;
use crate::context::{labels_of, NESTING_LIMIT};
use crate::error;
use crate::error::{failure_without_value, Failure, FailureModel};
use crate::expression;
use crate::expression::{Expression, ExpressionMacroInvocation, Term, Terminal};
use crate::nonces;
use crate::nonces::Nonces;
use crate::ops;
use crate::ops::{AbstractOp, Imm, MacroDefinition, MacroModel, Op, OpModel};

verus! {

/// The new name of `label`, if `table` has one.
pub open spec fn new_name(table: Seq<(Seq<char>, Seq<char>)>, label: Seq<char>) -> Option<Seq<char>>
    decreases table.len(),
{
    if table.len() == 0 {
        None
    } else if table.last().0 == label {
        Some(table.last().1)
    } else {
        new_name(table.drop_last(), label)
    }
}

/// `term` with new names for the labels in `table`.
pub open spec fn renamed(term: Term, table: Seq<(Seq<char>, Seq<char>)>) -> Term
    decreases term,
{
    match term {
        Term::Label(label) => match new_name(table, label) {
            Some(name) => Term::Label(name),
            None => term,
        },
        Term::Macro(name, arguments) => Term::Macro(name, all_renamed(arguments, table)),
        Term::Plus(left, right) => Term::Plus(
            Box::new(renamed(*left, table)),
            Box::new(renamed(*right, table)),
        ),
        Term::Minus(left, right) => Term::Minus(
            Box::new(renamed(*left, table)),
            Box::new(renamed(*right, table)),
        ),
        _ => term,
    }
}

/// `terms` with new names for the labels in `table`.
pub open spec fn all_renamed(terms: Seq<Term>, table: Seq<(Seq<char>, Seq<char>)>) -> Seq<Term>
    decreases terms,
{
    Seq::new(
        terms.len(),
        |i: int|
            if 0 <= i < terms.len() {
                renamed(terms[i], table)
            } else {
                arbitrary()
            },
    )
}

/// `term` with `value` in the place of the variable `name`.
pub open spec fn filled(term: Term, name: Seq<char>, value: Term) -> Term
    decreases term,
{
    match term {
        Term::Variable(variable) => if variable == name {
            value
        } else {
            term
        },
        Term::Macro(callee, arguments) => Term::Macro(callee, all_filled(arguments, name, value)),
        Term::Plus(left, right) => Term::Plus(
            Box::new(filled(*left, name, value)),
            Box::new(filled(*right, name, value)),
        ),
        Term::Minus(left, right) => Term::Minus(
            Box::new(filled(*left, name, value)),
            Box::new(filled(*right, name, value)),
        ),
        _ => term,
    }
}

/// `terms` with `value` in the place of the variable `name`.
pub open spec fn all_filled(terms: Seq<Term>, name: Seq<char>, value: Term) -> Seq<Term>
    decreases terms,
{
    Seq::new(
        terms.len(),
        |i: int|
            if 0 <= i < terms.len() {
                filled(terms[i], name, value)
            } else {
                arbitrary()
            },
    )
}

/// The old and new names of labels.
pub open spec fn table_of(table: Seq<(String, String)>) -> Seq<(Seq<char>, Seq<char>)> {
    Seq::new(table.len(), |i: int| (table[i].0@, table[i].1@))
}

/// The new name of `label`, if `table` has one.
pub(crate) fn find_new_name<'a>(table: &'a Vec<(String, String)>, label: &String) -> (name: Option<
    &'a String,
>)
    ensures
        match name {
            Some(name) => new_name(table_of(table@), label@) == Some(name@),
            None => new_name(table_of(table@), label@) is None,
        },
{
    let ghost model = table_of(table@);
    let mut i: usize = table.len();
    assert(model.take(model.len() as int) =~= model);
    while i > 0
        invariant
            i <= table@.len(),
            model == table_of(table@),
            new_name(model, label@) == new_name(model.take(i as int), label@),
        decreases i,
    {
        i = i - 1;
        assert(model.take(i + 1).drop_last() =~= model.take(i as int));
        if table[i].0 == *label {
            return Some(&table[i].1);
        }
    }
    None
}

/// `expression` with new names for the labels in `table`.
pub(crate) fn rename(expression: &Expression, table: &Vec<(String, String)>) -> (result: Expression)
    ensures
        result@ == renamed(expression@, table_of(table@)),
    decreases expression,
{
    match expression {
        Expression::Terminal(terminal) => match terminal {
            Terminal::Label(label) => match find_new_name(table, label) {
                Some(name) => Expression::Terminal(Terminal::Label(name.clone())),
                None => Expression::Terminal(terminal.clone()),
            },
            _ => Expression::Terminal(terminal.clone()),
        },
        Expression::Macro(invocation) => {
            let parameters = rename_all(&invocation.parameters, table);
            Expression::Macro(
                ExpressionMacroInvocation { name: invocation.name.clone(), parameters },
            )
        },
        Expression::Plus(left, right) => Expression::Plus(
            Box::new(rename(left, table)),
            Box::new(rename(right, table)),
        ),
        Expression::Minus(left, right) => Expression::Minus(
            Box::new(rename(left, table)),
            Box::new(rename(right, table)),
        ),
    }
}

fn rename_all(expressions: &Vec<Expression>, table: &Vec<(String, String)>) -> (results: Vec<
    Expression,
>)
    ensures
        expression::terms_of(results@) == all_renamed(
            expression::terms_of(expressions@),
            table_of(table@),
        ),
    decreases expressions@,
{
    let ghost goal = all_renamed(expression::terms_of(expressions@), table_of(table@));
    let mut results: Vec<Expression> = Vec::new();
    for i in 0..expressions.len()
        invariant
            goal == all_renamed(expression::terms_of(expressions@), table_of(table@)),
            results@.len() == i,
            expression::terms_of(results@) == goal.take(i as int),
    {
        let result = rename(&expressions[i], table);
        results.push(result);
        assert(expression::terms_of(results@) =~= goal.take(i + 1));
    }
    assert(goal.take(expressions@.len() as int) =~= goal);
    results
}

/// `expression` with `value` in the place of the variable `name`.
pub(crate) fn fill_variable(
    expression: &Expression,
    name: &String,
    value: &Expression,
) -> (result: Expression)
    ensures
        result@ == filled(expression@, name@, value@),
    decreases expression,
{
    match expression {
        Expression::Terminal(terminal) => match terminal {
            Terminal::Variable(variable) => if *variable == *name {
                value.clone()
            } else {
                Expression::Terminal(terminal.clone())
            },
            _ => Expression::Terminal(terminal.clone()),
        },
        Expression::Macro(invocation) => {
            let parameters = fill_variable_in_all(&invocation.parameters, name, value);
            Expression::Macro(
                ExpressionMacroInvocation { name: invocation.name.clone(), parameters },
            )
        },
        Expression::Plus(left, right) => Expression::Plus(
            Box::new(fill_variable(left, name, value)),
            Box::new(fill_variable(right, name, value)),
        ),
        Expression::Minus(left, right) => Expression::Minus(
            Box::new(fill_variable(left, name, value)),
            Box::new(fill_variable(right, name, value)),
        ),
    }
}

fn fill_variable_in_all(expressions: &Vec<Expression>, name: &String, value: &Expression) -> (results:
    Vec<Expression>)
    ensures
        expression::terms_of(results@) == all_filled(
            expression::terms_of(expressions@),
            name@,
            value@,
        ),
    decreases expressions@,
{
    let ghost goal = all_filled(expression::terms_of(expressions@), name@, value@);
    let mut results: Vec<Expression> = Vec::new();
    for i in 0..expressions.len()
        invariant
            goal == all_filled(expression::terms_of(expressions@), name@, value@),
            results@.len() == i,
            expression::terms_of(results@) == goal.take(i as int),
    {
        let result = fill_variable(&expressions[i], name, value);
        results.push(result);
        assert(expression::terms_of(results@) =~= goal.take(i + 1));
    }
    assert(goal.take(expressions@.len() as int) =~= goal);
    results
}

/// The decimal digit `value`.
pub open spec fn digit(value: nat) -> char {
    (48 + value) as char
}

/// `value` in decimal digits.
pub open spec fn decimal(value: nat) -> Seq<char>
    decreases value,
{
    if value < 10 {
        seq![digit(value)]
    } else {
        decimal(value / 10).push(digit(value % 10))
    }
}

/// The name of `label` in one expansion of the macro `name`.
pub open spec fn mangled(name: Seq<char>, label: Seq<char>, nonce: u64) -> Seq<char> {
    name + seq!['_'] + label + seq!['_'] + decimal(nonce as nat)
}

/// The content of an instruction macro with fresh names for the labels that it declares.
pub struct FreshContents {
    /// The labels with their fresh names.
    pub table: Seq<(Seq<char>, Seq<char>)>,
    /// The content.
    pub contents: Seq<OpModel>,
    /// How many numbers were drawn.
    pub used: nat,
    /// The label that is declared twice, if there is one.
    pub duplicate: Option<Seq<char>>,
}

/// The first `count` operations of the macro `name` with fresh names for the labels that they
/// declare, made from the numbers in `draws` from index `used` on.
pub open spec fn fresh_upto(
    name: Seq<char>,
    contents: Seq<OpModel>,
    count: nat,
    used: nat,
    draws: Seq<u64>,
) -> FreshContents
    decreases count,
{
    if count == 0 {
        FreshContents { table: Seq::empty(), contents: Seq::empty(), used, duplicate: None }
    } else {
        let before = fresh_upto(name, contents, (count - 1) as nat, used, draws);
        if before.duplicate is Some {
            before
        } else {
            match contents[count - 1] {
                OpModel::Label(label) => if new_name(before.table, label) is Some {
                    FreshContents { used: before.used + 1, duplicate: Some(label), ..before }
                } else {
                    let fresh = mangled(name, label, draws[before.used as int]);
                    FreshContents {
                        table: before.table.push((label, fresh)),
                        contents: before.contents.push(OpModel::Label(fresh)),
                        used: before.used + 1,
                        duplicate: None,
                    }
                },
                op => FreshContents { contents: before.contents.push(op), ..before },
            }
        }
    }
}

/// `term` with the first `count` arguments in the place of their parameters, one after the other.
/// Of several parameters with one name the last one counts.
pub open spec fn filled_upto(
    term: Term,
    parameters: Seq<Seq<char>>,
    arguments: Seq<Term>,
    count: nat,
) -> Term
    decreases count,
{
    if count == 0 {
        term
    } else {
        let before = filled_upto(term, parameters, arguments, (count - 1) as nat);
        if parameters.skip(count as int).contains(parameters[count - 1]) {
            before
        } else {
            filled(before, parameters[count - 1], arguments[count - 1])
        }
    }
}

/// `term` with the names and arguments of one expansion.
pub open spec fn instantiated_term(
    term: Term,
    table: Seq<(Seq<char>, Seq<char>)>,
    parameters: Seq<Seq<char>>,
    arguments: Seq<Term>,
    macros: Seq<MacroModel>,
) -> Result<Term, FailureModel> {
    match context::labels_in(term, macros, NESTING_LIMIT as nat) {
        Ok(_) => Ok(
            filled_upto(renamed(term, table), parameters, arguments, parameters.len()),
        ),
        Err(error) => Err(error::no_value(error)),
    }
}

/// `op` with the names and arguments of one expansion.
pub open spec fn instantiated(
    op: OpModel,
    table: Seq<(Seq<char>, Seq<char>)>,
    parameters: Seq<Seq<char>>,
    arguments: Seq<Term>,
    macros: Seq<MacroModel>,
) -> Result<OpModel, FailureModel> {
    match op {
        OpModel::Op { code, immediate: Some(term) } => match instantiated_term(
            term,
            table,
            parameters,
            arguments,
            macros,
        ) {
            Ok(result) => Ok(OpModel::Op { code, immediate: Some(result) }),
            Err(failure) => Err(failure),
        },
        OpModel::Push(term) => match instantiated_term(
            term,
            table,
            parameters,
            arguments,
            macros,
        ) {
            Ok(result) => Ok(OpModel::Push(result)),
            Err(failure) => Err(failure),
        },
        _ => Ok(op),
    }
}

/// The first `count` of `contents` with the names and arguments of one expansion.
pub open spec fn instantiated_upto(
    contents: Seq<OpModel>,
    count: nat,
    table: Seq<(Seq<char>, Seq<char>)>,
    parameters: Seq<Seq<char>>,
    arguments: Seq<Term>,
    macros: Seq<MacroModel>,
) -> Result<Seq<OpModel>, FailureModel>
    decreases count,
{
    if count == 0 {
        Ok(Seq::empty())
    } else {
        match instantiated_upto(
            contents,
            (count - 1) as nat,
            table,
            parameters,
            arguments,
            macros,
        ) {
            Ok(before) => match instantiated(
                contents[count - 1],
                table,
                parameters,
                arguments,
                macros,
            ) {
                Ok(op) => Ok(before.push(op)),
                Err(failure) => Err(failure),
            },
            Err(failure) => Err(failure),
        }
    }
}

/// The decimal digit `value`.
fn digit_str(value: u64) -> (result: &'static str)
    requires
        value < 10,
    ensures
        result@ == seq![digit(value as nat)],
{
    proof {
        reveal_strlit("0");
        reveal_strlit("1");
        reveal_strlit("2");
        reveal_strlit("3");
        reveal_strlit("4");
        reveal_strlit("5");
        reveal_strlit("6");
        reveal_strlit("7");
        reveal_strlit("8");
        reveal_strlit("9");
    }
    let result = match value {
        0 => "0",
        1 => "1",
        2 => "2",
        3 => "3",
        4 => "4",
        5 => "5",
        6 => "6",
        7 => "7",
        8 => "8",
        _ => "9",
    };
    assert(result@ =~= seq![digit(value as nat)]);
    result
}

/// Puts `value` in decimal digits behind `text`.
fn append_decimal(text: &mut String, value: u64)
    ensures
        final(text)@ == old(text)@ + decimal(value as nat),
    decreases value,
{
    let ghost before = text@;
    if value < 10 {
        text.append(digit_str(value));
    } else {
        append_decimal(text, value / 10);
        text.append(digit_str(value % 10));
        assert(text@ =~= before + decimal(value as nat));
    }
}

/// The name of `label` in one expansion of the macro `name`.
fn mangle(name: &String, label: &String, nonce: u64) -> (result: String)
    ensures
        result@ == mangled(name@, label@, nonce),
{
    proof {
        reveal_strlit("_");
    }
    let mut result = name.clone();
    result.append("_");
    result.append(label.as_str());
    result.append("_");
    append_decimal(&mut result, nonce);
    assert(result@ =~= mangled(name@, label@, nonce));
    result
}

/// A macro that declares a label twice does so, however much of it follows.
proof fn fresh_upto_stops(
    name: Seq<char>,
    contents: Seq<OpModel>,
    count: nat,
    total: nat,
    used: nat,
    draws: Seq<u64>,
)
    requires
        count <= total,
        fresh_upto(name, contents, count, used, draws).duplicate is Some,
    ensures
        fresh_upto(name, contents, total, used, draws) == fresh_upto(
            name,
            contents,
            count,
            used,
            draws,
        ),
    decreases total,
{
    if count < total {
        fresh_upto_stops(name, contents, count, (total - 1) as nat, used, draws);
    }
}

/// The content of an instruction macro with fresh names for the labels that it declares, and the
/// table of these names. Where a label is declared twice, the label instead.
pub(crate) fn freshen(
    name: &String,
    contents: &Vec<AbstractOp>,
    nonces: &mut Nonces,
) -> (result: Result<(Vec<(String, String)>, Vec<AbstractOp>), String>)
    ensures
        old(nonces).leads_to(final(nonces)),
        forall|draws: Seq<u64>|
            #[trigger] final(nonces)@.is_prefix_of(draws) ==> ({
                let fresh = fresh_upto(
                    name@,
                    ops::op_models(contents@),
                    contents@.len(),
                    old(nonces)@.len(),
                    draws,
                );
                &&& fresh.used == final(nonces)@.len()
                &&& match result {
                    Ok((table, fresh_contents)) => {
                        &&& fresh.table == table_of(table@)
                        &&& fresh.contents == ops::op_models(fresh_contents@)
                        &&& fresh.duplicate is None
                    },
                    Err(label) => fresh.duplicate == Some(label@),
                }
            }),
{
    let ghost models = ops::op_models(contents@);
    let ghost used = nonces@.len();
    let ghost first = *nonces;
    let mut table: Vec<(String, String)> = Vec::new();
    let mut results: Vec<AbstractOp> = Vec::new();
    assert(table_of(table@) =~= Seq::empty());
    assert(ops::op_models(results@) =~= Seq::empty());
    proof {
        nonces::nonces_lead_nowhere(first);
    }
    for i in 0..contents.len()
        invariant
            models == ops::op_models(contents@),
            used == first@.len(),
            first == *old(nonces),
            first.leads_to(nonces),
            forall|draws: Seq<u64>|
                #[trigger] nonces@.is_prefix_of(draws) ==> fresh_upto(
                    name@,
                    models,
                    i as nat,
                    used,
                    draws,
                ) == (FreshContents {
                    table: table_of(table@),
                    contents: ops::op_models(results@),
                    used: nonces@.len(),
                    duplicate: None,
                }),
    {
        let ghost before = *nonces;
        let ghost table_before = table_of(table@);
        let ghost results_before = ops::op_models(results@);
        match &contents[i] {
            AbstractOp::Label(label) => {
                let fresh = mangle(name, label, nonces.draw());
                if find_new_name(&table, label).is_some() {
                    proof {
                        assert forall|draws: Seq<u64>| #[trigger] nonces@.is_prefix_of(draws) implies ({
                            let fresh = fresh_upto(
                                name@,
                                models,
                                models.len(),
                                used,
                                draws,
                            );
                            fresh.used == nonces@.len() && fresh.duplicate == Some(label@)
                        }) by {
                            assert(before@.is_prefix_of(draws));
                            assert(fresh_upto(name@, models, i as nat, used, draws).duplicate is None);
                            fresh_upto_stops(name@, models, (i + 1) as nat, models.len(), used, draws);
                        }
                    }
                    return Err(label.clone());
                }
                table.push((label.clone(), fresh.clone()));
                results.push(AbstractOp::Label(fresh));
                proof {
                    assert(table_of(table@) =~= table_before.push((label@, fresh@)));
                    assert(ops::op_models(results@) =~= results_before.push(OpModel::Label(fresh@)));
                    assert forall|draws: Seq<u64>| #[trigger] nonces@.is_prefix_of(draws) implies
                        fresh_upto(name@, models, (i + 1) as nat, used, draws) == (FreshContents {
                            table: table_of(table@),
                            contents: ops::op_models(results@),
                            used: nonces@.len(),
                            duplicate: None,
                        }) by {
                        assert(before@.is_prefix_of(draws));
                        assert(fresh_upto(name@, models, i as nat, used, draws).duplicate is None);
                        assert(draws[before@.len() as int] == nonces@[before@.len() as int]);
                    }
                }
            },
            op => {
                results.push(op.clone());
                proof {
                    assert(ops::op_models(results@) =~= results_before.push(models[i as int]));
                    assert forall|draws: Seq<u64>| #[trigger] nonces@.is_prefix_of(draws) implies
                        fresh_upto(name@, models, (i + 1) as nat, used, draws) == (FreshContents {
                            table: table_of(table@),
                            contents: ops::op_models(results@),
                            used: nonces@.len(),
                            duplicate: None,
                        }) by {
                        assert(fresh_upto(name@, models, i as nat, used, draws).duplicate is None);
                    }
                }
            },
        }
    }
    Ok((table, results))
}

/// `expression` with the arguments in the place of their parameters.
fn fill_variables(
    expression: Expression,
    parameters: &Vec<String>,
    arguments: &Vec<Expression>,
) -> (result: Expression)
    requires
        parameters@.len() == arguments@.len(),
    ensures
        result@ == filled_upto(
            expression@,
            ops::texts_of(parameters@),
            expression::terms_of(arguments@),
            parameters@.len(),
        ),
{
    let ghost names = ops::texts_of(parameters@);
    let ghost terms = expression::terms_of(arguments@);
    let mut result = expression;
    for i in 0..parameters.len()
        invariant
            names == ops::texts_of(parameters@),
            terms == expression::terms_of(arguments@),
            parameters@.len() == arguments@.len(),
            result@ == filled_upto(expression@, names, terms, i as nat),
    {
        let mut repeated = false;
        for j in i + 1..parameters.len()
            invariant
                i < parameters@.len(),
                names == ops::texts_of(parameters@),
                repeated == exists|k: int| i < k < j && names[k] == names[i as int],
        {
            if parameters[j] == parameters[i] {
                repeated = true;
                assert(names[j as int] == names[i as int]);
            }
        }
        proof {
            let later = names.skip(i + 1);
            if repeated {
                let k = choose|k: int| i < k < names.len() && names[k] == names[i as int];
                assert(later[k - i - 1] == names[i as int]);
            } else if later.contains(names[i as int]) {
                let k = choose|k: int| 0 <= k < later.len() && later[k] == names[i as int];
                assert(names[k + i + 1] == names[i as int]);
            }
        }
        if !repeated {
            result = fill_variable(&result, &parameters[i], &arguments[i]);
        }
    }
    result
}

fn instantiate_expression(
    expression: &Expression,
    table: &Vec<(String, String)>,
    parameters: &Vec<String>,
    arguments: &Vec<Expression>,
    macros: &Vec<MacroDefinition>,
) -> (result: Result<Expression, Failure>)
    requires
        parameters@.len() == arguments@.len(),
    ensures
        match result {
            Ok(result) => instantiated_term(
                expression@,
                table_of(table@),
                ops::texts_of(parameters@),
                expression::terms_of(arguments@),
                ops::macro_models(macros@),
            ) == Ok::<Term, FailureModel>(result@),
            Err(failure) => instantiated_term(
                expression@,
                table_of(table@),
                ops::texts_of(parameters@),
                expression::terms_of(arguments@),
                ops::macro_models(macros@),
            ) == Err::<Term, FailureModel>(failure@),
        },
{
    match labels_of(expression, macros, NESTING_LIMIT) {
        Ok(_) => Ok(fill_variables(rename(expression, table), parameters, arguments)),
        Err(error) => Err(failure_without_value(error)),
    }
}

/// An expansion that fails does so, however much of the macro follows.
proof fn instantiated_upto_stops(
    contents: Seq<OpModel>,
    count: nat,
    total: nat,
    table: Seq<(Seq<char>, Seq<char>)>,
    parameters: Seq<Seq<char>>,
    arguments: Seq<Term>,
    macros: Seq<MacroModel>,
)
    requires
        count <= total,
        instantiated_upto(contents, count, table, parameters, arguments, macros) is Err,
    ensures
        instantiated_upto(contents, total, table, parameters, arguments, macros)
            == instantiated_upto(contents, count, table, parameters, arguments, macros),
    decreases total,
{
    if count < total {
        instantiated_upto_stops(
            contents,
            count,
            (total - 1) as nat,
            table,
            parameters,
            arguments,
            macros,
        );
    }
}

/// The content of an instruction macro with the names and arguments of one expansion.
pub(crate) fn instantiate(
    contents: &Vec<AbstractOp>,
    table: &Vec<(String, String)>,
    parameters: &Vec<String>,
    arguments: &Vec<Expression>,
    macros: &Vec<MacroDefinition>,
) -> (result: Result<Vec<AbstractOp>, Failure>)
    requires
        parameters@.len() == arguments@.len(),
    ensures
        match result {
            Ok(results) => instantiated_upto(
                ops::op_models(contents@),
                contents@.len(),
                table_of(table@),
                ops::texts_of(parameters@),
                expression::terms_of(arguments@),
                ops::macro_models(macros@),
            ) == Ok::<Seq<OpModel>, FailureModel>(ops::op_models(results@)),
            Err(failure) => instantiated_upto(
                ops::op_models(contents@),
                contents@.len(),
                table_of(table@),
                ops::texts_of(parameters@),
                expression::terms_of(arguments@),
                ops::macro_models(macros@),
            ) == Err::<Seq<OpModel>, FailureModel>(failure@),
        },
{
    let ghost models = ops::op_models(contents@);
    let ghost names = table_of(table@);
    let ghost texts = ops::texts_of(parameters@);
    let ghost terms = expression::terms_of(arguments@);
    let ghost defined = ops::macro_models(macros@);
    let mut results: Vec<AbstractOp> = Vec::new();
    assert(ops::op_models(results@) =~= Seq::empty());
    for i in 0..contents.len()
        invariant
            parameters@.len() == arguments@.len(),
            models == ops::op_models(contents@),
            names == table_of(table@),
            texts == ops::texts_of(parameters@),
            terms == expression::terms_of(arguments@),
            defined == ops::macro_models(macros@),
            instantiated_upto(models, i as nat, names, texts, terms, defined) == Ok::<
                Seq<OpModel>,
                FailureModel,
            >(ops::op_models(results@)),
    {
        let ghost before = ops::op_models(results@);
        assert(models[i as int] == contents@[i as int]@);
        let instance: Result<AbstractOp, Failure> = match &contents[i] {
            AbstractOp::Op(op) => match op.immediate() {
                Some(imm) => match instantiate_expression(
                    &imm.tree,
                    table,
                    parameters,
                    arguments,
                    macros,
                ) {
                    Ok(tree) => Ok(AbstractOp::Op(op.push_instead(Imm { tree }))),
                    Err(failure) => Err(failure),
                },
                None => Ok(AbstractOp::Op(op.clone())),
            },
            AbstractOp::Push(imm) => match instantiate_expression(
                &imm.tree,
                table,
                parameters,
                arguments,
                macros,
            ) {
                Ok(tree) => Ok(AbstractOp::Push(Imm { tree })),
                Err(failure) => Err(failure),
            },
            op => Ok(op.clone()),
        };
        match instance {
            Ok(op) => {
                results.push(op);
                assert(ops::op_models(results@) =~= before.push(op@));
            },
            Err(failure) => {
                proof {
                    instantiated_upto_stops(
                        models,
                        (i + 1) as nat,
                        models.len(),
                        names,
                        texts,
                        terms,
                        defined,
                    );
                }
                return Err(failure);
            },
        }
    }
    Ok(results)
}

} // verus!
