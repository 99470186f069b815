//! The names of local labels: what happens to expressions when other numbers are drawn for them.

use vstd::prelude::*;

use crate::context;
use crate::context::{Context, EvalErrorModel, NESTING_LIMIT};
use crate::encode;
use crate::encode::EncodeErrorModel;
use crate::error::FailureModel;
use crate::expression::Term;
use crate::labels;
use crate::labels::LabelDef;
use crate::laws;
use crate::macros;
use crate::ops::{MacroModel, OpModel};

verus! {

/// Other numbers in the place of drawn ones, index by index.
pub struct Renaming {
    /// The numbers that were drawn.
    pub from: Seq<u64>,
    /// The numbers in their place.
    pub to: Seq<u64>,
}

/// Whether no number is drawn twice, on either side.
pub open spec fn is_renaming(r: Renaming) -> bool {
    &&& r.from.len() == r.to.len()
    &&& r.from.no_duplicates()
    &&& r.to.no_duplicates()
}

/// Whether `text` ends in an underscore and the digits of `number`.
pub open spec fn ends_in(text: Seq<char>, number: u64) -> bool {
    let digits = macros::decimal(number as nat);
    &&& digits.len() < text.len()
    &&& text[text.len() - digits.len() - 1] == '_'
    &&& text.skip(text.len() - digits.len()) == digits
}

/// The index of the number that `text` ends in.
pub open spec fn number_in(numbers: Seq<u64>, text: Seq<char>) -> Option<int> {
    if exists|k: int| 0 <= k < numbers.len() && ends_in(text, #[trigger] numbers[k]) {
        Some(choose|k: int| 0 <= k < numbers.len() && ends_in(text, #[trigger] numbers[k]))
    } else {
        None
    }
}

/// Whether `text` ends in none of the numbers.
pub open spec fn plain(r: Renaming, text: Seq<char>) -> bool {
    number_in(r.from, text) is None && number_in(r.to, text) is None
}

/// Whether `text` ends in one of the drawn numbers, or in none of those in their place.
pub open spec fn fits(r: Renaming, text: Seq<char>) -> bool {
    number_in(r.from, text) is Some || number_in(r.to, text) is None
}

/// `text` with the other number at its end, if it ends in a drawn one.
pub open spec fn new_text(r: Renaming, text: Seq<char>) -> Seq<char> {
    match number_in(r.from, text) {
        Some(k) => text.take(
            text.len() - macros::decimal(r.from[k] as nat).len(),
        ) + macros::decimal(r.to[k] as nat),
        None => text,
    }
}

/// A text ends in one number only.
proof fn ends_in_one(text: Seq<char>, first: u64, second: u64)
    requires
        ends_in(text, first),
        ends_in(text, second),
    ensures
        first == second,
{
    let a = macros::decimal(first as nat);
    let b = macros::decimal(second as nat);
    laws::decimal_is_plain(first as nat);
    laws::decimal_is_plain(second as nat);
    assert forall|i: int| 0 <= i < a.len() implies #[trigger] a[i] == text[text.len() - a.len()
        + i] by {
        assert(text.skip(text.len() - a.len())[i] == a[i]);
    }
    assert forall|i: int| 0 <= i < b.len() implies #[trigger] b[i] == text[text.len() - b.len()
        + i] by {
        assert(text.skip(text.len() - b.len())[i] == b[i]);
    }
    if a.len() < b.len() {
        assert(b[b.len() - a.len() - 1] == '_');
    } else if b.len() < a.len() {
        assert(a[a.len() - b.len() - 1] == '_');
    }
    assert(a =~= b);
    laws::decimal_is_injective(first as nat, second as nat);
}

/// What the new text of one that ends in a drawn number is.
proof fn new_text_ends(r: Renaming, text: Seq<char>, k: int)
    requires
        is_renaming(r),
        0 <= k < r.from.len(),
        ends_in(text, r.from[k]),
    ensures
        number_in(r.from, text) == Some(k),
        fits(r, text),
        new_text(r, text) == text.take(
            text.len() - macros::decimal(r.from[k] as nat).len(),
        ) + macros::decimal(r.to[k] as nat),
        ends_in(new_text(r, text), r.to[k]),
{
    assert(number_in(r.from, text) is Some);
    let i = number_in(r.from, text)->0;
    assert(0 <= i < r.from.len() && ends_in(text, r.from[i]));
    ends_in_one(text, r.from[i], r.from[k]);
    let front = text.take(text.len() - macros::decimal(r.from[k] as nat).len());
    let digits = macros::decimal(r.to[k] as nat);
    let changed = front + digits;
    assert(changed.skip(changed.len() - digits.len()) =~= digits);
    assert(changed[changed.len() - digits.len() - 1] == front.last());
}

/// Different names stay different.
pub proof fn names_stay_different(r: Renaming, first: Seq<char>, second: Seq<char>)
    requires
        is_renaming(r),
        fits(r, first),
        fits(r, second),
        new_text(r, first) == new_text(r, second),
    ensures
        first == second,
{
    let text = new_text(r, first);
    match (number_in(r.from, first), number_in(r.from, second)) {
        (Some(i), Some(k)) => {
            new_text_ends(r, first, i);
            new_text_ends(r, second, k);
            ends_in_one(text, r.to[i], r.to[k]);
            assert(i == k);
            let digits = macros::decimal(r.from[i] as nat);
            let others = macros::decimal(r.to[i] as nat);
            let front = first.take(first.len() - digits.len());
            let other_front = second.take(second.len() - digits.len());
            assert(front =~= text.take(text.len() - others.len()));
            assert(other_front =~= text.take(text.len() - others.len()));
            assert(first =~= front + first.skip(first.len() - digits.len()));
            assert(second =~= other_front + second.skip(second.len() - digits.len()));
        },
        (Some(i), None) => {
            new_text_ends(r, first, i);
            assert(ends_in(second, r.to[i]));
            assert(number_in(r.to, second) is Some);
        },
        (None, Some(k)) => {
            new_text_ends(r, second, k);
            assert(ends_in(first, r.to[k]));
            assert(number_in(r.to, first) is Some);
        },
        (None, None) => {},
    }
}

/// Whether `draws` and `others` are the numbers of the renaming, as far as they are drawn. Without
/// any number in the renaming, they are the same ones.
pub open spec fn drawn_for(r: Renaming, draws: Seq<u64>, others: Seq<u64>, count: nat) -> bool {
    ||| r.from.len() == 0 && r.to.len() == 0 && draws == others
    ||| count <= r.from.len() && forall|k: int|
        0 <= k < count ==> #[trigger] draws[k] == r.from[k] && others[k] == r.to[k]
}

/// A local label gets the name that is made from the other number.
proof fn fresh_names_are_renamed(
    r: Renaming,
    draws: Seq<u64>,
    others: Seq<u64>,
    count: nat,
    name: Seq<char>,
    label: Seq<char>,
    k: int,
)
    requires
        is_renaming(r),
        drawn_for(r, draws, others, count),
        0 <= k < count,
    ensures
        fits(r, macros::mangled(name, label, draws[k])),
        new_text(r, macros::mangled(name, label, draws[k])) == macros::mangled(
            name,
            label,
            others[k],
        ),
{
    let text = macros::mangled(name, label, draws[k]);
    if r.from.len() > 0 {
        assert(draws[k] == r.from[k]);
        let digits = macros::decimal(draws[k] as nat);
        assert(text.skip(text.len() - digits.len()) =~= digits);
        assert(ends_in(text, r.from[k]));
        new_text_ends(r, text, k);
        assert(text.take(text.len() - digits.len()) =~= name + seq!['_'] + label + seq!['_']);
    }
}

/// Whether the labels in `term` end in none of the numbers.
pub open spec fn term_plain(r: Renaming, term: Term) -> bool
    decreases term,
{
    match term {
        Term::Label(label) => plain(r, label),
        Term::Macro(_, arguments) => terms_plain(r, arguments),
        Term::Plus(left, right) => term_plain(r, *left) && term_plain(r, *right),
        Term::Minus(left, right) => term_plain(r, *left) && term_plain(r, *right),
        _ => true,
    }
}

/// Whether the labels in `terms` end in none of the numbers.
pub open spec fn terms_plain(r: Renaming, terms: Seq<Term>) -> bool
    decreases terms,
{
    forall|i: int| 0 <= i < terms.len() ==> term_plain(r, #[trigger] terms[i])
}

/// Whether the labels in `term` fit.
pub open spec fn term_fits(r: Renaming, term: Term) -> bool
    decreases term,
{
    match term {
        Term::Label(label) => fits(r, label),
        Term::Macro(_, arguments) => terms_fit(r, arguments),
        Term::Plus(left, right) => term_fits(r, *left) && term_fits(r, *right),
        Term::Minus(left, right) => term_fits(r, *left) && term_fits(r, *right),
        _ => true,
    }
}

/// Whether the labels in `terms` fit.
pub open spec fn terms_fit(r: Renaming, terms: Seq<Term>) -> bool
    decreases terms,
{
    forall|i: int| 0 <= i < terms.len() ==> term_fits(r, #[trigger] terms[i])
}

/// `term` with new names for its labels.
pub open spec fn new_term(r: Renaming, term: Term) -> Term
    decreases term,
{
    match term {
        Term::Label(label) => Term::Label(new_text(r, label)),
        Term::Macro(name, arguments) => Term::Macro(name, new_terms(r, arguments)),
        Term::Plus(left, right) => Term::Plus(
            Box::new(new_term(r, *left)),
            Box::new(new_term(r, *right)),
        ),
        Term::Minus(left, right) => Term::Minus(
            Box::new(new_term(r, *left)),
            Box::new(new_term(r, *right)),
        ),
        _ => term,
    }
}

/// `terms` with new names for their labels.
pub open spec fn new_terms(r: Renaming, terms: Seq<Term>) -> Seq<Term>
    decreases terms,
{
    Seq::new(
        terms.len(),
        |i: int|
            if 0 <= i < terms.len() {
                new_term(r, terms[i])
            } else {
                arbitrary()
            },
    )
}

/// An expression whose labels end in none of the numbers stays as it is.
pub proof fn plain_terms_stay(r: Renaming, term: Term)
    requires
        term_plain(r, term),
    ensures
        term_fits(r, term),
        new_term(r, term) == term,
    decreases term,
{
    match term {
        Term::Macro(_, arguments) => {
            assert(terms_plain(r, arguments));
            assert forall|i: int| 0 <= i < arguments.len() implies term_fits(
                r,
                #[trigger] arguments[i],
            ) && new_term(r, arguments[i]) == arguments[i] by {
                assert(term_plain(r, arguments[i]));
                plain_terms_stay(r, arguments[i]);
            }
            assert(terms_fit(r, arguments));
            assert(new_terms(r, arguments) =~= arguments);
        },
        Term::Plus(left, right) => {
            plain_terms_stay(r, *left);
            plain_terms_stay(r, *right);
        },
        Term::Minus(left, right) => {
            plain_terms_stay(r, *left);
            plain_terms_stay(r, *right);
        },
        _ => {},
    }
}

/// Whether the labels that a macro refers to end in none of the numbers.
pub open spec fn macro_plain(r: Renaming, definition: MacroModel) -> bool {
    match definition {
        MacroModel::Expression { content, .. } => term_plain(r, content),
        MacroModel::Instruction { contents, .. } => forall|i: int|
            0 <= i < contents.len() ==> content_plain(r, #[trigger] contents[i]),
    }
}

/// Whether the labels that `op` refers to end in none of the numbers.
pub open spec fn content_plain(r: Renaming, op: OpModel) -> bool {
    match op {
        OpModel::Op { immediate: Some(term), .. } => term_plain(r, term),
        OpModel::Push(term) => term_plain(r, term),
        OpModel::Macro(_, arguments) => terms_plain(r, arguments),
        _ => true,
    }
}

/// Whether the labels that the macros refer to end in none of the numbers.
pub open spec fn macros_plain(r: Renaming, macros: Seq<MacroModel>) -> bool {
    forall|name: Seq<char>|
        match #[trigger] context::find_macro(macros, name) {
            Some(definition) => macro_plain(r, definition),
            None => true,
        }
}

/// Whether `macros` and `others` define the same macros.
pub open spec fn same_macros(macros: Seq<MacroModel>, others: Seq<MacroModel>) -> bool {
    forall|name: Seq<char>| #[trigger]
        context::find_macro(others, name) == context::find_macro(macros, name)
}

/// `entries` with new names.
pub open spec fn new_entries(
    r: Renaming,
    entries: Seq<(Seq<char>, Option<LabelDef>)>,
) -> Seq<(Seq<char>, Option<LabelDef>)> {
    Seq::new(entries.len(), |i: int| (new_text(r, entries[i].0), entries[i].1))
}

/// Whether the names in `entries` fit.
pub open spec fn entries_fit(
    r: Renaming,
    entries: Seq<(Seq<char>, Option<LabelDef>)>,
) -> bool {
    forall|i: int| 0 <= i < entries.len() ==> fits(r, (#[trigger] entries[i]).0)
}

/// `texts` with new names.
pub open spec fn new_texts(r: Renaming, texts: Seq<Seq<char>>) -> Seq<Seq<char>> {
    Seq::new(texts.len(), |i: int| new_text(r, texts[i]))
}

/// Whether the names in `texts` fit.
pub open spec fn texts_fit(r: Renaming, texts: Seq<Seq<char>>) -> bool {
    forall|i: int| 0 <= i < texts.len() ==> fits(r, #[trigger] texts[i])
}

/// A label is found where it was, under its new name.
pub proof fn labels_are_found_again(
    r: Renaming,
    entries: Seq<(Seq<char>, Option<LabelDef>)>,
    label: Seq<char>,
)
    requires
        is_renaming(r),
        entries_fit(r, entries),
        fits(r, label),
    ensures
        labels::label_index(new_entries(r, entries), new_text(r, label)) == labels::label_index(
            entries,
            label,
        ),
        labels::label_lookup(new_entries(r, entries), new_text(r, label)) == labels::label_lookup(
            entries,
            label,
        ),
    decreases entries.len(),
{
    if entries.len() > 0 {
        let others = new_entries(r, entries);
        assert(fits(r, entries.last().0));
        assert(others.drop_last() =~= new_entries(r, entries.drop_last()));
        assert(entries_fit(r, entries.drop_last())) by {
            assert forall|i: int| 0 <= i < entries.len() - 1 implies fits(
                r,
                (#[trigger] entries.drop_last()[i]).0,
            ) by {
                assert(fits(r, entries[i].0));
            }
        }
        labels_are_found_again(r, entries.drop_last(), label);
        if others.last().0 == new_text(r, label) {
            names_stay_different(r, entries.last().0, label);
        }
        laws::label_index_finds(entries, label);
    }
}

/// The same error, but for the name of an unknown label.
pub open spec fn same_eval_error(error: EvalErrorModel, other: EvalErrorModel) -> bool {
    match (error, other) {
        (EvalErrorModel::UnknownLabel(_), EvalErrorModel::UnknownLabel(_)) => true,
        _ => error == other,
    }
}

/// The same value, or the same error but for the name of an unknown label.
pub open spec fn same_value<T>(
    result: Result<T, EvalErrorModel>,
    other: Result<T, EvalErrorModel>,
) -> bool {
    match (result, other) {
        (Ok(value), Ok(other)) => value == other,
        (Err(error), Err(other)) => same_eval_error(error, other),
        _ => false,
    }
}

/// Expressions keep their values when labels get new names.
pub proof fn values_are_not_renamed(
    r: Renaming,
    term: Term,
    context: Context,
    others: Seq<MacroModel>,
    depth: nat,
)
    requires
        is_renaming(r),
        term_fits(r, term),
        entries_fit(r, context.labels),
        macros_plain(r, context.macros),
        same_macros(context.macros, others),
    ensures
        same_value(
            context::eval(term, context, depth),
            context::eval(
                new_term(r, term),
                Context { labels: new_entries(r, context.labels), macros: others, ..context },
                depth,
            ),
        ),
    decreases depth, term,
{
    let other = Context { labels: new_entries(r, context.labels), macros: others, ..context };
    match term {
        Term::Label(label) => {
            labels_are_found_again(r, context.labels, label);
        },
        Term::Macro(name, arguments) => {
            assert(context::find_macro(others, name) == context::find_macro(context.macros, name));
            match context::find_macro(context.macros, name) {
                Some(MacroModel::Expression { parameters, content, .. }) => {
                    all_values_are_not_renamed(r, arguments, context, others, depth);
                    match context::eval_all(arguments, context, depth) {
                        Ok(values) => {
                            if depth > 0 {
                                plain_terms_stay(r, content);
                                values_are_not_renamed(
                                    r,
                                    content,
                                    Context {
                                        labels: context.labels,
                                        macros: context.macros,
                                        names: parameters,
                                        values,
                                    },
                                    others,
                                    (depth - 1) as nat,
                                );
                            }
                        },
                        Err(_) => {},
                    }
                },
                _ => {},
            }
        },
        Term::Plus(left, right) => {
            values_are_not_renamed(r, *left, context, others, depth);
            values_are_not_renamed(r, *right, context, others, depth);
        },
        Term::Minus(left, right) => {
            values_are_not_renamed(r, *left, context, others, depth);
            values_are_not_renamed(r, *right, context, others, depth);
        },
        _ => {},
    }
}

proof fn all_values_are_not_renamed(
    r: Renaming,
    terms: Seq<Term>,
    context: Context,
    others: Seq<MacroModel>,
    depth: nat,
)
    requires
        is_renaming(r),
        terms_fit(r, terms),
        entries_fit(r, context.labels),
        macros_plain(r, context.macros),
        same_macros(context.macros, others),
    ensures
        same_value(
            context::eval_all(terms, context, depth),
            context::eval_all(
                new_terms(r, terms),
                Context { labels: new_entries(r, context.labels), macros: others, ..context },
                depth,
            ),
        ),
    decreases depth, terms,
{
    if terms.len() > 0 {
        let front = terms.drop_last();
        assert(new_terms(r, terms).drop_last() =~= new_terms(r, front));
        assert(new_terms(r, terms).last() == new_term(r, terms.last()));
        assert(terms_fit(r, front)) by {
            assert forall|i: int| 0 <= i < front.len() implies term_fits(
                r,
                #[trigger] front[i],
            ) by {
                assert(term_fits(r, terms[i]));
            }
        }
        assert(term_fits(r, terms[terms.len() - 1]));
        all_values_are_not_renamed(r, front, context, others, depth);
        values_are_not_renamed(r, terms.last(), context, others, depth);
    }
}

/// The labels that an expression refers to have their new names.
pub open spec fn renamed_labels(
    r: Renaming,
    result: Result<Seq<Seq<char>>, EvalErrorModel>,
    other: Result<Seq<Seq<char>>, EvalErrorModel>,
) -> bool {
    match result {
        Ok(texts) => texts_fit(r, texts) && other == Ok::<Seq<Seq<char>>, EvalErrorModel>(
            new_texts(r, texts),
        ),
        Err(_) => other == result,
    }
}

proof fn joined_is_renamed(
    r: Renaming,
    first: Result<Seq<Seq<char>>, EvalErrorModel>,
    second: Result<Seq<Seq<char>>, EvalErrorModel>,
    other_first: Result<Seq<Seq<char>>, EvalErrorModel>,
    other_second: Result<Seq<Seq<char>>, EvalErrorModel>,
)
    requires
        renamed_labels(r, first, other_first),
        renamed_labels(r, second, other_second),
    ensures
        renamed_labels(
            r,
            context::joined(first, second),
            context::joined(other_first, other_second),
        ),
{
    match (first, second) {
        (Ok(xs), Ok(ys)) => {
            assert(new_texts(r, xs + ys) =~= new_texts(r, xs) + new_texts(r, ys));
            assert(texts_fit(r, xs + ys)) by {
                assert forall|i: int| 0 <= i < (xs + ys).len() implies fits(
                    r,
                    #[trigger] (xs + ys)[i],
                ) by {
                    if i < xs.len() {
                        assert(fits(r, xs[i]));
                    } else {
                        assert(fits(r, ys[i - xs.len()]));
                    }
                }
            }
        },
        _ => {},
    }
}

/// The labels that an expression refers to are renamed with it.
pub proof fn references_are_renamed(
    r: Renaming,
    term: Term,
    macros: Seq<MacroModel>,
    others: Seq<MacroModel>,
    depth: nat,
)
    requires
        is_renaming(r),
        term_fits(r, term),
        macros_plain(r, macros),
        same_macros(macros, others),
    ensures
        renamed_labels(
            r,
            context::labels_in(term, macros, depth),
            context::labels_in(new_term(r, term), others, depth),
        ),
    decreases depth, term,
{
    match term {
        Term::Label(label) => {
            assert(new_texts(r, seq![label]) =~= seq![new_text(r, label)]);
        },
        Term::Macro(name, arguments) => {
            assert(context::find_macro(others, name) == context::find_macro(macros, name));
            match context::find_macro(macros, name) {
                Some(MacroModel::Expression { content, .. }) => {
                    all_references_are_renamed(r, arguments, macros, others, depth);
                    if depth > 0 {
                        plain_terms_stay(r, content);
                        references_are_renamed(r, content, macros, others, (depth - 1) as nat);
                        joined_is_renamed(
                            r,
                            context::labels_in_all(arguments, macros, depth),
                            context::labels_in(content, macros, (depth - 1) as nat),
                            context::labels_in_all(new_terms(r, arguments), others, depth),
                            context::labels_in(content, others, (depth - 1) as nat),
                        );
                    }
                },
                _ => {},
            }
        },
        Term::Plus(left, right) => {
            references_are_renamed(r, *left, macros, others, depth);
            references_are_renamed(r, *right, macros, others, depth);
            joined_is_renamed(
                r,
                context::labels_in(*left, macros, depth),
                context::labels_in(*right, macros, depth),
                context::labels_in(new_term(r, *left), others, depth),
                context::labels_in(new_term(r, *right), others, depth),
            );
        },
        Term::Minus(left, right) => {
            references_are_renamed(r, *left, macros, others, depth);
            references_are_renamed(r, *right, macros, others, depth);
            joined_is_renamed(
                r,
                context::labels_in(*left, macros, depth),
                context::labels_in(*right, macros, depth),
                context::labels_in(new_term(r, *left), others, depth),
                context::labels_in(new_term(r, *right), others, depth),
            );
        },
        _ => {
            assert(new_texts(r, Seq::empty()) =~= Seq::empty());
        },
    }
}

proof fn all_references_are_renamed(
    r: Renaming,
    terms: Seq<Term>,
    macros: Seq<MacroModel>,
    others: Seq<MacroModel>,
    depth: nat,
)
    requires
        is_renaming(r),
        terms_fit(r, terms),
        macros_plain(r, macros),
        same_macros(macros, others),
    ensures
        renamed_labels(
            r,
            context::labels_in_all(terms, macros, depth),
            context::labels_in_all(new_terms(r, terms), others, depth),
        ),
    decreases depth, terms,
{
    if terms.len() > 0 {
        let front = terms.drop_last();
        assert(new_terms(r, terms).drop_last() =~= new_terms(r, front));
        assert(new_terms(r, terms).last() == new_term(r, terms.last()));
        assert(terms_fit(r, front)) by {
            assert forall|i: int| 0 <= i < front.len() implies term_fits(
                r,
                #[trigger] front[i],
            ) by {
                assert(term_fits(r, terms[i]));
            }
        }
        assert(term_fits(r, terms[terms.len() - 1]));
        all_references_are_renamed(r, front, macros, others, depth);
        references_are_renamed(r, terms.last(), macros, others, depth);
        joined_is_renamed(
            r,
            context::labels_in_all(front, macros, depth),
            context::labels_in(terms.last(), macros, depth),
            context::labels_in_all(new_terms(r, front), others, depth),
            context::labels_in(new_term(r, terms.last()), others, depth),
        );
    } else {
        assert(new_texts(r, Seq::empty()) =~= Seq::empty());
    }
}

/// Whether the names in `op` fit, and the arguments of a macro end in none of the numbers.
pub open spec fn op_fits(r: Renaming, op: OpModel) -> bool {
    match op {
        OpModel::Op { immediate: Some(term), .. } => term_fits(r, term),
        OpModel::Push(term) => term_fits(r, term),
        OpModel::Label(label) => fits(r, label),
        OpModel::Macro(_, arguments) => terms_plain(r, arguments),
        _ => true,
    }
}

/// Whether the names in `ops` fit.
pub open spec fn ops_fit(r: Renaming, ops: Seq<OpModel>) -> bool {
    forall|i: int| 0 <= i < ops.len() ==> op_fits(r, #[trigger] ops[i])
}

/// `op` with new names.
pub open spec fn new_op(r: Renaming, op: OpModel) -> OpModel {
    match op {
        OpModel::Op { code, immediate: Some(term) } => OpModel::Op {
            code,
            immediate: Some(new_term(r, term)),
        },
        OpModel::Push(term) => OpModel::Push(new_term(r, term)),
        OpModel::Label(label) => OpModel::Label(new_text(r, label)),
        _ => op,
    }
}

/// `ops` with new names.
pub open spec fn new_ops(r: Renaming, ops: Seq<OpModel>) -> Seq<OpModel> {
    Seq::new(ops.len(), |i: int| new_op(r, ops[i]))
}

/// `table` with other fresh names.
pub open spec fn new_table(r: Renaming, table: Seq<(Seq<char>, Seq<char>)>) -> Seq<
    (Seq<char>, Seq<char>),
> {
    Seq::new(table.len(), |i: int| (table[i].0, new_text(r, table[i].1)))
}

/// Whether the fresh names in `table` fit.
pub open spec fn table_fits(r: Renaming, table: Seq<(Seq<char>, Seq<char>)>) -> bool {
    forall|i: int| 0 <= i < table.len() ==> fits(r, (#[trigger] table[i]).1)
}

/// Whether `op` declares a label under a fresh name, or refers to labels that end in none of the
/// numbers.
pub open spec fn fresh_fits(r: Renaming, op: OpModel) -> bool {
    match op {
        OpModel::Label(label) => fits(r, label),
        _ => content_plain(r, op),
    }
}

/// The fresh name of a label is renamed with the table.
proof fn fresh_name_is_renamed(
    r: Renaming,
    table: Seq<(Seq<char>, Seq<char>)>,
    label: Seq<char>,
)
    requires
        table_fits(r, table),
    ensures
        match macros::new_name(table, label) {
            Some(name) => fits(r, name) && macros::new_name(new_table(r, table), label) == Some(
                new_text(r, name),
            ),
            None => macros::new_name(new_table(r, table), label) is None,
        },
    decreases table.len(),
{
    if table.len() > 0 {
        let front = table.drop_last();
        assert(new_table(r, table).drop_last() =~= new_table(r, front));
        assert(fits(r, table[table.len() - 1].1));
        assert(table_fits(r, front)) by {
            assert forall|i: int| 0 <= i < front.len() implies fits(
                r,
                (#[trigger] front[i]).1,
            ) by {
                assert(fits(r, table[i].1));
            }
        }
        fresh_name_is_renamed(r, front, label);
    }
}

/// What a content without labels of its own is under other names.
pub proof fn plain_contents_stay(r: Renaming, op: OpModel)
    requires
        content_plain(r, op),
        !(op is Label),
    ensures
        op_fits(r, op),
        new_op(r, op) == op,
{
    match op {
        OpModel::Op { immediate: Some(term), .. } => {
            plain_terms_stay(r, term);
        },
        OpModel::Push(term) => {
            plain_terms_stay(r, term);
        },
        _ => {},
    }
}

/// Fresh names are made alike from the other numbers.
pub proof fn fresh_contents_are_renamed(
    r: Renaming,
    name: Seq<char>,
    contents: Seq<OpModel>,
    count: nat,
    used: nat,
    draws: Seq<u64>,
    others: Seq<u64>,
    limit: nat,
)
    requires
        is_renaming(r),
        drawn_for(r, draws, others, limit),
        count <= contents.len(),
        forall|i: int| 0 <= i < contents.len() ==> content_plain(r, #[trigger] contents[i]),
        macros::fresh_upto(name, contents, count, used, draws).used <= limit,
    ensures
        ({
            let fresh = macros::fresh_upto(name, contents, count, used, draws);
            let other = macros::fresh_upto(name, contents, count, used, others);
            &&& other.used == fresh.used
            &&& other.duplicate == fresh.duplicate
            &&& other.table == new_table(r, fresh.table)
            &&& other.contents == new_ops(r, fresh.contents)
            &&& table_fits(r, fresh.table)
            &&& forall|i: int|
                0 <= i < fresh.contents.len() ==> fresh_fits(r, #[trigger] fresh.contents[i])
        }),
    decreases count,
{
    if count > 0 {
        let before = macros::fresh_upto(name, contents, (count - 1) as nat, used, draws);
        let fresh = macros::fresh_upto(name, contents, count, used, draws);
        let other = macros::fresh_upto(name, contents, count, used, others);
        fresh_contents_are_renamed(
            r,
            name,
            contents,
            (count - 1) as nat,
            used,
            draws,
            others,
            limit,
        );
        assert(content_plain(r, contents[count - 1]));
        if before.duplicate is None {
            match contents[count - 1] {
                OpModel::Label(label) => {
                    fresh_name_is_renamed(r, before.table, label);
                    if macros::new_name(before.table, label) is None {
                        fresh_names_are_renamed(
                            r,
                            draws,
                            others,
                            limit,
                            name,
                            label,
                            before.used as int,
                        );
                        assert(other.table =~= new_table(r, fresh.table));
                        assert(other.contents =~= new_ops(r, fresh.contents));
                    }
                },
                op => {
                    plain_contents_stay(r, op);
                    assert(other.contents =~= new_ops(r, fresh.contents));
                },
            }
        }
    } else {
        let fresh = macros::fresh_upto(name, contents, count, used, draws);
        assert(new_table(r, fresh.table) =~= fresh.table);
        assert(new_ops(r, fresh.contents) =~= fresh.contents);
    }
}

/// An expression gets the other fresh names.
proof fn fresh_terms_are_renamed(
    r: Renaming,
    term: Term,
    table: Seq<(Seq<char>, Seq<char>)>,
)
    requires
        term_plain(r, term),
        table_fits(r, table),
    ensures
        term_fits(r, macros::renamed(term, table)),
        macros::renamed(term, new_table(r, table)) == new_term(r, macros::renamed(term, table)),
    decreases term,
{
    match term {
        Term::Label(label) => {
            fresh_name_is_renamed(r, table, label);
        },
        Term::Macro(name, arguments) => {
            let fresh = macros::all_renamed(arguments, table);
            assert(terms_plain(r, arguments));
            assert forall|i: int| 0 <= i < arguments.len() implies term_fits(
                r,
                #[trigger] fresh[i],
            ) && macros::renamed(arguments[i], new_table(r, table)) == new_term(r, fresh[i]) by {
                assert(term_plain(r, arguments[i]));
                fresh_terms_are_renamed(r, arguments[i], table);
            }
            assert(terms_fit(r, fresh));
            assert(macros::all_renamed(arguments, new_table(r, table)) =~= new_terms(r, fresh)) by {
                assert forall|i: int| 0 <= i < arguments.len() implies macros::all_renamed(
                    arguments,
                    new_table(r, table),
                )[i] == new_terms(r, fresh)[i] by {
                    assert(term_fits(r, fresh[i]));
                }
            }
        },
        Term::Plus(left, right) => {
            fresh_terms_are_renamed(r, *left, table);
            fresh_terms_are_renamed(r, *right, table);
        },
        Term::Minus(left, right) => {
            fresh_terms_are_renamed(r, *left, table);
            fresh_terms_are_renamed(r, *right, table);
        },
        _ => {},
    }
}

/// Arguments take the place of parameters under other names as well.
proof fn filled_terms_are_renamed(r: Renaming, term: Term, name: Seq<char>, value: Term)
    requires
        term_fits(r, term),
        term_plain(r, value),
    ensures
        term_fits(r, macros::filled(term, name, value)),
        macros::filled(new_term(r, term), name, value) == new_term(
            r,
            macros::filled(term, name, value),
        ),
    decreases term,
{
    plain_terms_stay(r, value);
    match term {
        Term::Macro(callee, arguments) => {
            let full = macros::all_filled(arguments, name, value);
            let others = new_terms(r, arguments);
            assert(terms_fit(r, arguments));
            assert forall|i: int| 0 <= i < arguments.len() implies term_fits(
                r,
                #[trigger] full[i],
            ) && macros::filled(others[i], name, value) == new_term(r, full[i]) by {
                assert(term_fits(r, arguments[i]));
                filled_terms_are_renamed(r, arguments[i], name, value);
            }
            assert(terms_fit(r, full));
            assert(macros::all_filled(others, name, value) =~= new_terms(r, full)) by {
                assert forall|i: int| 0 <= i < arguments.len() implies macros::all_filled(
                    others,
                    name,
                    value,
                )[i] == new_terms(r, full)[i] by {
                    assert(term_fits(r, full[i]));
                }
            }
        },
        Term::Plus(left, right) => {
            filled_terms_are_renamed(r, *left, name, value);
            filled_terms_are_renamed(r, *right, name, value);
        },
        Term::Minus(left, right) => {
            filled_terms_are_renamed(r, *left, name, value);
            filled_terms_are_renamed(r, *right, name, value);
        },
        _ => {},
    }
}

proof fn filled_upto_is_renamed(
    r: Renaming,
    term: Term,
    parameters: Seq<Seq<char>>,
    arguments: Seq<Term>,
    count: nat,
)
    requires
        term_fits(r, term),
        terms_plain(r, arguments),
        count <= parameters.len() == arguments.len(),
    ensures
        term_fits(r, macros::filled_upto(term, parameters, arguments, count)),
        macros::filled_upto(new_term(r, term), parameters, arguments, count) == new_term(
            r,
            macros::filled_upto(term, parameters, arguments, count),
        ),
    decreases count,
{
    if count > 0 {
        filled_upto_is_renamed(r, term, parameters, arguments, (count - 1) as nat);
        assert(term_plain(r, arguments[count - 1]));
        filled_terms_are_renamed(
            r,
            macros::filled_upto(term, parameters, arguments, (count - 1) as nat),
            parameters[count - 1],
            arguments[count - 1],
        );
    }
}

proof fn instantiated_term_is_renamed(
    r: Renaming,
    term: Term,
    table: Seq<(Seq<char>, Seq<char>)>,
    parameters: Seq<Seq<char>>,
    arguments: Seq<Term>,
    macros: Seq<MacroModel>,
    others: Seq<MacroModel>,
)
    requires
        is_renaming(r),
        term_plain(r, term),
        table_fits(r, table),
        terms_plain(r, arguments),
        parameters.len() == arguments.len(),
        macros_plain(r, macros),
        same_macros(macros, others),
    ensures
        match macros::instantiated_term(term, table, parameters, arguments, macros) {
            Ok(result) => {
                &&& term_fits(r, result)
                &&& macros::instantiated_term(
                    term,
                    new_table(r, table),
                    parameters,
                    arguments,
                    others,
                ) == Ok::<Term, FailureModel>(new_term(r, result))
            },
            Err(_) => macros::instantiated_term(
                term,
                new_table(r, table),
                parameters,
                arguments,
                others,
            ) is Err,
        },
{
    plain_terms_stay(r, term);
    references_are_renamed(r, term, macros, others, NESTING_LIMIT as nat);
    fresh_terms_are_renamed(r, term, table);
    filled_upto_is_renamed(
        r,
        macros::renamed(term, table),
        parameters,
        arguments,
        parameters.len(),
    );
}

/// The content of a macro is put in alike under other names.
pub proof fn instantiated_is_renamed(
    r: Renaming,
    contents: Seq<OpModel>,
    count: nat,
    table: Seq<(Seq<char>, Seq<char>)>,
    parameters: Seq<Seq<char>>,
    arguments: Seq<Term>,
    macros: Seq<MacroModel>,
    others: Seq<MacroModel>,
)
    requires
        is_renaming(r),
        count <= contents.len(),
        forall|i: int| 0 <= i < contents.len() ==> fresh_fits(r, #[trigger] contents[i]),
        table_fits(r, table),
        terms_plain(r, arguments),
        parameters.len() == arguments.len(),
        macros_plain(r, macros),
        same_macros(macros, others),
    ensures
        match macros::instantiated_upto(contents, count, table, parameters, arguments, macros) {
            Ok(ops) => {
                &&& ops_fit(r, ops)
                &&& macros::instantiated_upto(
                    new_ops(r, contents),
                    count,
                    new_table(r, table),
                    parameters,
                    arguments,
                    others,
                ) == Ok::<Seq<OpModel>, FailureModel>(new_ops(r, ops))
            },
            Err(_) => macros::instantiated_upto(
                new_ops(r, contents),
                count,
                new_table(r, table),
                parameters,
                arguments,
                others,
            ) is Err,
        },
    decreases count,
{
    if count > 0 {
        instantiated_is_renamed(
            r,
            contents,
            (count - 1) as nat,
            table,
            parameters,
            arguments,
            macros,
            others,
        );
        let op = contents[count - 1];
        assert(fresh_fits(r, op));
        if !(op is Label) {
            plain_contents_stay(r, op);
        }
        match encode::expression_in(op) {
            Some(term) => {
                instantiated_term_is_renamed(
                    r,
                    term,
                    table,
                    parameters,
                    arguments,
                    macros,
                    others,
                );
            },
            None => {},
        }
        match macros::instantiated_upto(contents, count, table, parameters, arguments, macros) {
            Ok(ops) => {
                let before = macros::instantiated_upto(
                    contents,
                    (count - 1) as nat,
                    table,
                    parameters,
                    arguments,
                    macros,
                )->Ok_0;
                assert(new_ops(r, ops) =~= new_ops(r, before).push(new_op(r, ops.last())));
            },
            Err(_) => {},
        }
    } else {
        assert(new_ops(r, Seq::empty()) =~= Seq::empty());
    }
}

/// The same bytes, or the same error but for the name of an unknown label.
pub open spec fn same_encoding(
    result: Result<Seq<u8>, EncodeErrorModel>,
    other: Result<Seq<u8>, EncodeErrorModel>,
) -> bool {
    match (result, other) {
        (Ok(bytes), Ok(others)) => bytes == others,
        (
            Err(EncodeErrorModel::NoValue(error)),
            Err(EncodeErrorModel::NoValue(other)),
        ) => same_eval_error(error, other),
        (Err(error), Err(other)) => error == other,
        _ => false,
    }
}

/// Instructions keep their bytes when labels get new names.
pub proof fn encodings_are_not_renamed(
    r: Renaming,
    op: OpModel,
    room: nat,
    entries: Seq<(Seq<char>, Option<LabelDef>)>,
    macros: Seq<MacroModel>,
    others: Seq<MacroModel>,
)
    requires
        is_renaming(r),
        op_fits(r, op),
        entries_fit(r, entries),
        macros_plain(r, macros),
        same_macros(macros, others),
    ensures
        same_encoding(
            encode::encoding(op, entries, macros),
            encode::encoding(new_op(r, op), new_entries(r, entries), others),
        ),
        same_encoding(
            encode::encoding_in(op, room, entries, macros),
            encode::encoding_in(new_op(r, op), room, new_entries(r, entries), others),
        ),
{
    match encode::expression_in(op) {
        Some(term) => {
            values_are_not_renamed(
                r,
                term,
                context::top_context(entries, macros),
                others,
                NESTING_LIMIT as nat,
            );
        },
        None => {},
    }
}

} // verus!
