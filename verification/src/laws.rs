//! Laws of expressions, labels and macros.

use vstd::prelude::*;

use crate::context;
use crate::context::{Context, NESTING_LIMIT};
use crate::encode;
use crate::error::{ErrorModel, FailureModel};
use crate::expression::Term;
use crate::integer;
use crate::labels;
use crate::labels::LabelDef;
use crate::macros;
use crate::opcode;
use crate::opcode::PUSH1;
use crate::ops::{MacroModel, OpModel};
use crate::state;
use crate::state::{ItemModel, State};

verus! {

/// No label is declared twice.
pub open spec fn distinct_labels(entries: Seq<(Seq<char>, Option<LabelDef>)>) -> bool {
    forall|i: int, j: int|
        0 <= i < j < entries.len() ==> (#[trigger] entries[i]).0 != (#[trigger] entries[j]).0
}

/// A label is found where it stands.
pub proof fn label_index_finds(entries: Seq<(Seq<char>, Option<LabelDef>)>, label: Seq<char>)
    ensures
        match labels::label_index(entries, label) {
            Some(i) => 0 <= i < entries.len() && entries[i].0 == label,
            None => forall|i: int| 0 <= i < entries.len() ==> (#[trigger] entries[i]).0 != label,
        },
    decreases entries.len(),
{
    if entries.len() > 0 && entries.last().0 != label {
        let rest = entries.drop_last();
        label_index_finds(rest, label);
        if labels::label_index(rest, label) is None {
            assert forall|i: int| 0 <= i < entries.len() implies (#[trigger] entries[i]).0
                != label by {
                if i < rest.len() {
                    assert(rest[i].0 != label);
                }
            }
        }
    }
}

/// Where no label is declared twice, every label is found.
pub proof fn label_found(entries: Seq<(Seq<char>, Option<LabelDef>)>, i: int)
    requires
        distinct_labels(entries),
        0 <= i < entries.len(),
    ensures
        labels::label_index(entries, entries[i].0) == Some(i),
        labels::label_lookup(entries, entries[i].0) == Some(entries[i].1),
{
    label_index_finds(entries, entries[i].0);
    match labels::label_index(entries, entries[i].0) {
        Some(j) => {
            if i < j {
                assert(entries[i].0 != entries[j].0);
            } else if j < i {
                assert(entries[j].0 != entries[i].0);
            }
        },
        None => {
            assert(entries[i].0 != entries[i].0);
        },
    }
}

/// Every label that has a position in `entries` has the same one in `others`.
pub open spec fn positions_kept(
    entries: Seq<(Seq<char>, Option<LabelDef>)>,
    others: Seq<(Seq<char>, Option<LabelDef>)>,
) -> bool {
    forall|label: Seq<char>|
        labels::label_lookup(entries, label) is Some && labels::label_lookup(entries, label)->0 is Some
            ==> #[trigger] labels::label_lookup(others, label) == labels::label_lookup(
            entries,
            label,
        )
}

/// A declaration changes nothing of the labels that were declared before.
pub proof fn declarations_keep_positions(
    entries: Seq<(Seq<char>, Option<LabelDef>)>,
    others: Seq<(Seq<char>, Option<LabelDef>)>,
)
    requires
        entries.is_prefix_of(others),
        distinct_labels(others),
    ensures
        positions_kept(entries, others),
{
    assert forall|label: Seq<char>|
        labels::label_lookup(entries, label) is Some && labels::label_lookup(
            entries,
            label,
        )->0 is Some implies #[trigger] labels::label_lookup(others, label)
        == labels::label_lookup(entries, label) by {
        label_index_finds(entries, label);
        let i = labels::label_index(entries, label)->0;
        assert(others[i] == entries[i]);
        label_found(others, i);
    }
}

/// The value of an expression does not depend on the labels that it does not refer to: once all of
/// its labels have positions, it keeps its value for as long as they do.
pub proof fn values_are_kept(
    term: Term,
    context: Context,
    others: Seq<(Seq<char>, Option<LabelDef>)>,
    depth: nat,
)
    requires
        positions_kept(context.labels, others),
        context::eval(term, context, depth) is Ok,
    ensures
        context::eval(term, Context { labels: others, ..context }, depth) == context::eval(
            term,
            context,
            depth,
        ),
    decreases depth, term,
{
    let other = Context { labels: others, ..context };
    match term {
        Term::Label(label) => {
            assert(labels::label_lookup(others, label) == labels::label_lookup(
                context.labels,
                label,
            ));
        },
        Term::Macro(name, arguments) => match context::find_macro(context.macros, name) {
            Some(MacroModel::Expression { parameters, content, .. }) => {
                all_values_are_kept(arguments, context, others, depth);
                let values = context::eval_all(arguments, context, depth)->Ok_0;
                values_are_kept(
                    content,
                    Context {
                        labels: context.labels,
                        macros: context.macros,
                        names: parameters,
                        values,
                    },
                    others,
                    (depth - 1) as nat,
                );
            },
            _ => {},
        },
        Term::Plus(left, right) => {
            values_are_kept(*left, context, others, depth);
            values_are_kept(*right, context, others, depth);
        },
        Term::Minus(left, right) => {
            values_are_kept(*left, context, others, depth);
            values_are_kept(*right, context, others, depth);
        },
        _ => {},
    }
}

proof fn all_values_are_kept(
    terms: Seq<Term>,
    context: Context,
    others: Seq<(Seq<char>, Option<LabelDef>)>,
    depth: nat,
)
    requires
        positions_kept(context.labels, others),
        context::eval_all(terms, context, depth) is Ok,
    ensures
        context::eval_all(terms, Context { labels: others, ..context }, depth)
            == context::eval_all(terms, context, depth),
    decreases depth, terms,
{
    if terms.len() > 0 {
        all_values_are_kept(terms.drop_last(), context, others, depth);
        values_are_kept(terms.last(), context, others, depth);
    }
}

/// An instruction that has bytes keeps them when more labels are declared.
pub proof fn encodings_are_kept(
    op: OpModel,
    entries: Seq<(Seq<char>, Option<LabelDef>)>,
    others: Seq<(Seq<char>, Option<LabelDef>)>,
    macros: Seq<MacroModel>,
)
    requires
        entries.is_prefix_of(others),
        distinct_labels(others),
        encode::encoding(op, entries, macros) is Ok,
    ensures
        encode::encoding(op, others, macros) == encode::encoding(op, entries, macros),
{
    declarations_keep_positions(entries, others);
    match encode::expression_in(op) {
        Some(term) => {
            values_are_kept(
                term,
                context::top_context(entries, macros),
                others,
                NESTING_LIMIT as nat,
            );
        },
        None => {},
    }
}

/// Zeros in front of a number do not change it.
pub proof fn leading_zeros_vanish(count: nat, digits: Seq<u8>)
    ensures
        integer::be_value(Seq::new(count, |i: int| 0u8) + digits) == integer::be_value(digits),
    decreases digits.len(), count,
{
    let zeros = Seq::new(count, |i: int| 0u8);
    if digits.len() == 0 {
        assert(zeros + digits =~= zeros);
        if count > 0 {
            assert(zeros.drop_last() =~= Seq::new((count - 1) as nat, |i: int| 0u8));
            assert(Seq::new((count - 1) as nat, |i: int| 0u8) + digits =~= zeros.drop_last());
            leading_zeros_vanish((count - 1) as nat, digits);
        }
    } else {
        assert((zeros + digits).drop_last() =~= zeros + digits.drop_last());
        leading_zeros_vanish(count, digits.drop_last());
    }
}

/// The instruction that a push is assembled to carries the value of its expression, behind an
/// opcode that says how many bytes the value takes.
pub proof fn pushes_carry_their_value(
    op: OpModel,
    entries: Seq<(Seq<char>, Option<LabelDef>)>,
    macros: Seq<MacroModel>,
)
    requires
        encode::expression_in(op) is Some,
        encode::encoding(op, entries, macros) is Ok,
    ensures
        ({
            let bytes = encode::encoding(op, entries, macros)->Ok_0;
            let value = encode::value_of(encode::expression_in(op)->0, entries, macros);
            &&& bytes.len() == opcode::instruction_size(bytes[0])
            &&& bytes.len() > 1
            &&& value is Ok
            &&& integer::be_value(bytes.skip(1)) == value->Ok_0
            &&& op matches OpModel::Op { code, .. } ==> bytes[0] == code
        }),
{
    let bytes = encode::encoding(op, entries, macros)->Ok_0;
    let value = encode::value_of(encode::expression_in(op)->0, entries, macros)->Ok_0;
    let digits = integer::be_bytes(value as nat);
    integer::be_bytes_represent(value as nat);
    match op {
        OpModel::Op { code, .. } => {
            let pad = (opcode::immediate_len(code) - digits.len()) as nat;
            leading_zeros_vanish(pad, digits);
            assert(bytes.skip(1) =~= Seq::new(pad, |i: int| 0u8) + digits);
        },
        _ => {
            assert(bytes.skip(1) =~= digits);
        },
    }
}

/// A push that takes up the room that it was given carries the value of its expression as well.
pub proof fn roomy_pushes_carry_their_value(
    op: OpModel,
    room: nat,
    entries: Seq<(Seq<char>, Option<LabelDef>)>,
    macros: Seq<MacroModel>,
)
    requires
        encode::expression_in(op) is Some,
        encode::encoding_in(op, room, entries, macros) is Ok,
    ensures
        ({
            let bytes = encode::encoding_in(op, room, entries, macros)->Ok_0;
            let value = encode::value_of(encode::expression_in(op)->0, entries, macros);
            &&& bytes.len() == opcode::instruction_size(bytes[0])
            &&& bytes.len() > 1
            &&& value is Ok
            &&& integer::be_value(bytes.skip(1)) == value->Ok_0
            &&& op matches OpModel::Op { code, .. } ==> bytes[0] == code
            &&& op is Push && 2 <= room <= 33 ==> bytes.len() == room
        }),
{
    match op {
        OpModel::Push(term) => {
            if 2 <= room <= 33 {
                let code = (PUSH1 + room - 2) as u8;
                pushes_carry_their_value(
                    OpModel::Op { code, immediate: Some(term) },
                    entries,
                    macros,
                );
            } else {
                pushes_carry_their_value(op, entries, macros);
            }
        },
        _ => {
            pushes_carry_their_value(op, entries, macros);
        },
    }
}

/// The instruction that a `%push` is assembled to is the narrowest one that holds its value.
pub proof fn unsized_pushes_are_narrow(
    term: Term,
    entries: Seq<(Seq<char>, Option<LabelDef>)>,
    macros: Seq<MacroModel>,
    code: u8,
)
    requires
        encode::encoding(OpModel::Push(term), entries, macros) is Ok,
        encode::encoding(
            OpModel::Op { code, immediate: Some(term) },
            entries,
            macros,
        ) is Ok,
    ensures
        encode::encoding(OpModel::Push(term), entries, macros)->Ok_0.len() <= encode::encoding(
            OpModel::Op { code, immediate: Some(term) },
            entries,
            macros,
        )->Ok_0.len(),
{
}

/// The decimal digits of a number hold no underscore, and there is at least one.
pub proof fn decimal_is_plain(value: nat)
    ensures
        macros::decimal(value).len() > 0,
        forall|i: int|
            0 <= i < macros::decimal(value).len() ==> '0' <= #[trigger] macros::decimal(value)[i]
                <= '9',
    decreases value,
{
    if value >= 10 {
        decimal_is_plain(value / 10);
    }
}

/// Different numbers have different digits.
pub proof fn decimal_is_injective(first: nat, second: nat)
    requires
        macros::decimal(first) == macros::decimal(second),
    ensures
        first == second,
    decreases first,
{
    let a = macros::decimal(first);
    let b = macros::decimal(second);
    decimal_is_plain(first / 10);
    decimal_is_plain(second / 10);
    assert(a.last() == macros::digit(first % 10));
    assert(b.last() == macros::digit(second % 10));
    assert(first % 10 == second % 10);
    if first >= 10 && second >= 10 {
        assert(a.drop_last() =~= macros::decimal(first / 10));
        assert(b.drop_last() =~= macros::decimal(second / 10));
        decimal_is_injective(first / 10, second / 10);
    }
}

/// The labels of two macro expansions have the same name only where the same number was drawn for
/// both: neither the names of the macros nor those of the labels lead to a clash.
pub proof fn fresh_names_differ(
    name: Seq<char>,
    label: Seq<char>,
    nonce: u64,
    other_name: Seq<char>,
    other_label: Seq<char>,
    other_nonce: u64,
)
    requires
        macros::mangled(name, label, nonce) == macros::mangled(
            other_name,
            other_label,
            other_nonce,
        ),
    ensures
        nonce == other_nonce,
{
    let text = macros::mangled(name, label, nonce);
    let a = macros::decimal(nonce as nat);
    let b = macros::decimal(other_nonce as nat);
    decimal_is_plain(nonce as nat);
    decimal_is_plain(other_nonce as nat);
    assert(text[text.len() - a.len() - 1] == '_');
    assert(text[text.len() - b.len() - 1] == '_');
    assert forall|i: int| 0 <= i < a.len() implies #[trigger] a[i] == text[text.len() - a.len()
        + i] by {}
    assert forall|i: int| 0 <= i < b.len() implies #[trigger] b[i] == text[text.len() - b.len()
        + i] by {}
    if a.len() < b.len() {
        assert(b[b.len() - a.len() - 1] == '_');
    } else if b.len() < a.len() {
        assert(a[a.len() - b.len() - 1] == '_');
    }
    assert(a =~= b);
    decimal_is_injective(nonce as nat, other_nonce as nat);
}

/// The directive `.org` fills the output with zeros up to its offset.
pub proof fn org_fills_with_zeros(state: State, i: nat, offset: nat)
    requires
        i < state.ready.len(),
        state.ready[i as int] == ItemModel::Org(offset),
        state::emitted(state, i + 1).1 is Ok,
    ensures
        ({
            let before = state::emitted(state, i).1;
            let after = state::emitted(state, i + 1).1->Ok_0;
            &&& before is Ok
            &&& before->Ok_0.is_prefix_of(after)
            &&& state.origin + after.len() == offset
            &&& forall|k: int| before->Ok_0.len() <= k < after.len() ==> #[trigger] after[k] == 0
        }),
{
}

/// The directive `.org` never goes back: an offset before the current position is refused, and
/// the refusal changes nothing.
pub proof fn org_never_goes_back(
    state: State,
    used: nat,
    offset: nat,
    draws: Seq<u64>,
    depth: nat,
)
    requires
        offset < state.concrete_len,
    ensures
        ({
            let step = state::op_pushed(state, used, OpModel::Org(offset), draws, depth);
            &&& step.failure == Some(
                FailureModel::Error(
                    ErrorModel::OrgRewind { offset, position: state.concrete_len },
                ),
            )
            &&& step.state == state
        }),
{
}

} // verus!
