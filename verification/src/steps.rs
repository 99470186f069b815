//! What each item of a program does to the assembler, and when it is refused.

use vstd::prelude::*;

use crate::context;
use crate::context::{Context, EvalErrorModel, NESTING_LIMIT};
use crate::encode;
use crate::error::{ErrorModel, FailureModel, Fault};
use crate::expression::Term;
use crate::labels;
use crate::labels::LabelDef;
use crate::laws;
use crate::macros;
use crate::ops::{MacroModel, OpModel, RawModel};
use crate::placement;
use crate::state;
use crate::state::{ItemModel, State, Step};

verus! {

/// Whether `label` is declared.
pub open spec fn is_declared(
    entries: Seq<(Seq<char>, Option<LabelDef>)>,
    label: Seq<char>,
) -> bool {
    exists|i: int| 0 <= i < entries.len() && (#[trigger] entries[i]).0 == label
}

proof fn index_tells_declaration(
    entries: Seq<(Seq<char>, Option<LabelDef>)>,
    label: Seq<char>,
)
    ensures
        labels::label_index(entries, label) is Some <==> is_declared(entries, label),
    decreases entries.len(),
{
    laws::label_index_finds(entries, label);
    if entries.len() > 0 {
        index_tells_declaration(entries.drop_last(), label);
        if entries.last().0 != label {
            if is_declared(entries, label) {
                let i = choose|i: int| 0 <= i < entries.len() && (#[trigger] entries[i]).0 == label;
                assert(entries.drop_last()[i] == entries[i]);
            }
            if is_declared(entries.drop_last(), label) {
                let front = entries.drop_last();
                let i = choose|i: int| 0 <= i < front.len() && (#[trigger] front[i]).0 == label;
                assert(entries[i] == front[i]);
            }
        } else {
            assert(entries[entries.len() - 1].0 == label);
        }
    }
}

/// What the table of labels holds of a label: what stands beside its name, or nothing where it was
/// never declared.
pub proof fn labels_are_looked_up(
    entries: Seq<(Seq<char>, Option<LabelDef>)>,
    label: Seq<char>,
)
    requires
        laws::distinct_labels(entries),
    ensures
        labels::label_lookup(entries, label) is Some <==> is_declared(entries, label),
        forall|i: int|
            0 <= i < entries.len() && (#[trigger] entries[i]).0 == label ==> labels::label_lookup(
                entries,
                label,
            ) == Some(entries[i].1),
{
    index_tells_declaration(entries, label);
    laws::label_index_finds(entries, label);
    assert forall|i: int| 0 <= i < entries.len() && (#[trigger] entries[i]).0 == label implies
        labels::label_lookup(entries, label) == Some(entries[i].1) by {
        laws::label_found(entries, i);
    }
}

/// What it means to give a label a definition: it has it from then on, and all else stays.
pub proof fn labels_are_inserted(
    entries: Seq<(Seq<char>, Option<LabelDef>)>,
    label: Seq<char>,
    def: Option<LabelDef>,
    other: Seq<char>,
)
    ensures
        labels::label_lookup(labels::label_insert(entries, label, def), label) == Some(def),
        other != label ==> labels::label_lookup(
            labels::label_insert(entries, label, def),
            other,
        ) == labels::label_lookup(entries, other),
        labels::label_insert(entries, label, def).len() == entries.len() + if is_declared(
            entries,
            label,
        ) {
            0int
        } else {
            1
        },
        !is_declared(entries, label) ==> entries.is_prefix_of(
            labels::label_insert(entries, label, def),
        ),
    decreases entries.len(),
{
    index_tells_declaration(entries, label);
    laws::label_index_finds(entries, label);
    let after = labels::label_insert(entries, label, def);
    match labels::label_index(entries, label) {
        None => {
            lookup_behind(entries, (label, def), other);
            lookup_behind(entries, (label, def), label);
        },
        Some(index) => {
            if index == entries.len() - 1 {
                let front = entries.drop_last();
                assert(after =~= front.push((label, def)));
                assert(front.push(entries.last()) =~= entries);
                lookup_behind(front, (label, def), label);
                lookup_behind(front, (label, def), other);
                lookup_behind(front, entries.last(), other);
            } else {
                let front = entries.drop_last();
                labels_are_inserted(front, label, def, other);
                assert(after.drop_last() =~= labels::label_insert(front, label, def));
                assert(after.last() == entries.last());
                assert(entries.last().0 != label);
                lookup_behind(front, entries.last(), other);
                lookup_behind(after.drop_last(), entries.last(), other);
                lookup_behind(after.drop_last(), entries.last(), label);
                assert(front.push(entries.last()) =~= entries);
                assert(after.drop_last().push(entries.last()) =~= after);
            }
        },
    }
}

proof fn lookup_behind(
    front: Seq<(Seq<char>, Option<LabelDef>)>,
    last: (Seq<char>, Option<LabelDef>),
    label: Seq<char>,
)
    ensures
        labels::label_lookup(front.push(last), label) == if last.0 == label {
            Some(last.1)
        } else {
            labels::label_lookup(front, label)
        },
{
    let entries = front.push(last);
    assert(entries.drop_last() =~= front);
    laws::label_index_finds(front, label);
}

/// A label is refused if and only if it is declared already. Else it is declared at the current
/// position, waits no longer, and takes up no room.
pub proof fn labels_are_declared(
    state: State,
    used: nat,
    label: Seq<char>,
    draws: Seq<u64>,
    depth: nat,
)
    requires
        state.concrete_len <= usize::MAX,
    ensures
        ({
            let step = state::op_pushed(state, used, OpModel::Label(label), draws, depth);
            let after = step.state;
            &&& step.used == used
            &&& is_declared(state.labels, label) ==> after == state && step.failure == Some(
                FailureModel::Error(ErrorModel::DuplicateLabel { label }),
            )
            &&& !is_declared(state.labels, label) ==> {
                &&& step.failure is None
                &&& after.labels.len() == state.labels.len() + 1
                &&& state.labels.is_prefix_of(after.labels)
                &&& after.labels.last().0 == label
                &&& after.labels.last().1 is Some
                &&& after.labels.last().1->0.position == state.concrete_len
                &&& !after.labels.last().1->0.updated
                &&& after.marks == state.marks.push((state.labels.len(), state.ready.len()))
                &&& after.undeclared == state::without_label(state.undeclared, label)
                &&& after == (State {
                    labels: after.labels,
                    marks: after.marks,
                    undeclared: after.undeclared,
                    ..state
                })
            }
        }),
{
    index_tells_declaration(state.labels, label);
}

/// A label that was declared waits no longer, and all others keep waiting, in their order.
pub proof fn declared_labels_wait_no_longer(
    front: Seq<Seq<char>>,
    label: Seq<char>,
    back: Seq<Seq<char>>,
)
    requires
        !front.contains(label),
        !back.contains(label),
    ensures
        state::without_label(front + seq![label] + back, label) == front + back,
        state::without_label(front, label) == front,
    decreases back.len(),
{
    others_keep_waiting(front, label);
    if back.len() == 0 {
        last_one_waits(front, label, label);
        assert(front + seq![label] + back =~= front.push(label));
        assert(front + back =~= front);
    } else {
        let shorter = back.drop_last();
        let last = back.last();
        assert(back[back.len() - 1] == last);
        assert(!shorter.contains(label)) by {
            if shorter.contains(label) {
                let i = choose|i: int| 0 <= i < shorter.len() && shorter[i] == label;
                assert(back[i] == label);
            }
        }
        declared_labels_wait_no_longer(front, label, shorter);
        last_one_waits(front + seq![label] + shorter, last, label);
        assert(front + seq![label] + back =~= (front + seq![label] + shorter).push(last));
        assert(front + back =~= (front + shorter).push(last));
    }
}

proof fn last_one_waits(waiting: Seq<Seq<char>>, last: Seq<char>, label: Seq<char>)
    ensures
        state::without_label(waiting.push(last), label) == if last == label {
            state::without_label(waiting, label)
        } else {
            state::without_label(waiting, label).push(last)
        },
{
    reveal(Seq::filter);
    assert(waiting.push(last).drop_last() =~= waiting);
}

proof fn others_keep_waiting(waiting: Seq<Seq<char>>, label: Seq<char>)
    requires
        !waiting.contains(label),
    ensures
        state::without_label(waiting, label) == waiting,
    decreases waiting.len(),
{
    if waiting.len() == 0 {
        reveal(Seq::filter);
        assert(state::without_label(waiting, label) =~= waiting);
    } else {
        let front = waiting.drop_last();
        assert(waiting[waiting.len() - 1] == waiting.last());
        assert(!front.contains(label)) by {
            if front.contains(label) {
                let i = choose|i: int| 0 <= i < front.len() && front[i] == label;
                assert(waiting[i] == label);
            }
        }
        others_keep_waiting(front, label);
        last_one_waits(front, waiting.last(), label);
        assert(front.push(waiting.last()) =~= waiting);
    }
}

/// Which labels wait for their declaration once an instruction was deferred: those that did before,
/// and behind them, each of them once and in order, those that it refers to and that are not
/// declared.
pub proof fn undeclared_labels_wait(
    waiting: Seq<Seq<char>>,
    used_labels: Seq<Seq<char>>,
    count: nat,
    entries: Seq<(Seq<char>, Option<LabelDef>)>,
    label: Seq<char>,
)
    requires
        count <= used_labels.len(),
    ensures
        ({
            let after = state::with_undeclared(waiting, used_labels, count, entries);
            &&& waiting.is_prefix_of(after)
            &&& after.contains(label) <==> waiting.contains(label) || (!is_declared(entries, label)
                && exists|i: int| 0 <= i < count && #[trigger] used_labels[i] == label)
            &&& waiting.no_duplicates() ==> after.no_duplicates()
            &&& forall|fewer: nat|
                fewer <= count ==> #[trigger] state::with_undeclared(
                    waiting,
                    used_labels,
                    fewer,
                    entries,
                ).is_prefix_of(after)
        }),
    decreases count,
{
    let after = state::with_undeclared(waiting, used_labels, count, entries);
    if count > 0 {
        let last = (count - 1) as nat;
        undeclared_labels_wait(waiting, used_labels, last, entries, label);
        let before = state::with_undeclared(waiting, used_labels, last, entries);
        let next = used_labels[last as int];
        index_tells_declaration(entries, next);
        if after != before {
            assert(after == before.push(next));
            assert(after.contains(label) <==> before.contains(label) || next == label) by {
                if before.contains(label) {
                    let i = choose|i: int| 0 <= i < before.len() && before[i] == label;
                    assert(after[i] == label);
                }
                if next == label {
                    assert(after[before.len() as int] == label);
                }
            }
        }
        if exists|i: int| 0 <= i < count && #[trigger] used_labels[i] == label {
            let i = choose|i: int| 0 <= i < count && #[trigger] used_labels[i] == label;
            if i < last {
                assert(exists|i: int| 0 <= i < last && #[trigger] used_labels[i] == label);
            } else {
                assert(next == label);
            }
        }
        assert forall|fewer: nat| fewer <= count implies #[trigger] state::with_undeclared(
            waiting,
            used_labels,
            fewer,
            entries,
        ).is_prefix_of(after) by {
            if fewer <= last {
                assert(state::with_undeclared(waiting, used_labels, fewer, entries).is_prefix_of(
                    before,
                ));
            }
        }
    }
}

/// Bytes are refused only where there is no position left behind them. Else they are an item, as
/// they are.
pub proof fn bytes_are_accepted(state: State, used: nat, bytes: Seq<u8>, draws: Seq<u64>)
    ensures
        ({
            let step = state::raw_pushed(state, used, RawModel::Raw(bytes), draws);
            let after = step.state;
            let fits = state.concrete_len + bytes.len() <= usize::MAX;
            &&& step.used == used
            &&& !fits ==> after == state && step.failure == Some(
                FailureModel::Fault(Fault::OffsetOverflow),
            )
            &&& fits ==> {
                &&& step.failure is None
                &&& after == (State {
                    ready: state.ready.push(ItemModel::Raw(bytes)),
                    sizes: state.sizes.push(bytes.len()),
                    concrete_len: state.concrete_len + bytes.len(),
                    ..state
                })
            }
        }),
{
}

/// A scope is an assembler of its own. It is refused for what is wrong inside, and else it is like
/// the bytes that come out of it.
pub proof fn scopes_are_accepted(
    state: State,
    used: nat,
    ops: Seq<RawModel>,
    draws: Seq<u64>,
)
    ensures
        ({
            let step = state::raw_pushed(state, used, RawModel::Scope(ops), draws);
            let inner = state::assembled(state::new_state(None), used, ops, draws);
            &&& step.used == inner.used
            &&& match inner.result {
                Err(failure) => step.state == state && step.failure == Some(failure),
                Ok(bytes) => {
                    let same = state::raw_pushed(state, used, RawModel::Raw(bytes), draws);
                    step.state == same.state && step.failure == same.failure
                },
            }
        }),
{
}

/// The directive `.org` is refused if and only if its offset is behind. Else it is an item that
/// moves the position there.
pub proof fn org_is_accepted(
    state: State,
    used: nat,
    offset: nat,
    draws: Seq<u64>,
    depth: nat,
)
    ensures
        ({
            let step = state::op_pushed(state, used, OpModel::Org(offset), draws, depth);
            let after = step.state;
            &&& step.used == used
            &&& offset < state.concrete_len ==> after == state && step.failure == Some(
                FailureModel::Error(
                    ErrorModel::OrgRewind { offset, position: state.concrete_len },
                ),
            )
            &&& state.concrete_len <= offset && offset > usize::MAX ==> after == state
                && step.failure == Some(FailureModel::Fault(Fault::OffsetOverflow))
            &&& state.concrete_len <= offset <= usize::MAX ==> {
                &&& step.failure is None
                &&& after == (State {
                    ready: state.ready.push(ItemModel::Org(offset)),
                    sizes: state.sizes.push(0),
                    concrete_len: offset,
                    ..state
                })
            }
        }),
{
}

/// The definition of a macro does nothing in its place.
pub proof fn definitions_are_passed_over(
    state: State,
    used: nat,
    definition: MacroModel,
    draws: Seq<u64>,
    depth: nat,
)
    ensures
        state::op_pushed(state, used, OpModel::MacroDefinition(definition), draws, depth) == (Step {
            state,
            used,
            failure: None,
        }),
{
}

/// The state with the instruction `op` behind the other items, `size` bytes long.
pub open spec fn with_instruction(state: State, op: OpModel, size: nat) -> State {
    State {
        ready: state.ready.push(ItemModel::Instruction(op)),
        sizes: state.sizes.push(size),
        concrete_len: state.concrete_len + size,
        pushes: if op is Push {
            state.pushes.push((op, state.ready.len()))
        } else {
            state.pushes
        },
        ..state
    }
}

/// An instruction without an immediate is refused only where there is no position left behind it.
/// Else it is an item of one byte.
pub proof fn plain_instructions_are_accepted(
    state: State,
    used: nat,
    code: u8,
    draws: Seq<u64>,
    depth: nat,
)
    ensures
        ({
            let op = OpModel::Op { code, immediate: None };
            let step = state::op_pushed(state, used, op, draws, depth);
            &&& step.used == used
            &&& state.concrete_len == usize::MAX ==> step.state == state && step.failure == Some(
                FailureModel::Fault(Fault::OffsetOverflow),
            )
            &&& state.concrete_len < usize::MAX ==> step.failure is None && step.state
                == with_instruction(state, op, 1)
        }),
{
}

/// What becomes of an instruction whose expression has no value. Where a label has no position, the
/// instruction is accepted and the label waits, and where the expression is wrong in itself, the
/// instruction is refused for that.
pub proof fn open_instructions_are_deferred(
    state: State,
    used: nat,
    op: OpModel,
    term: Term,
    error: EvalErrorModel,
    draws: Seq<u64>,
    depth: nat,
)
    requires
        op is Op || op is Push,
        encode::expression_in(op) == Some(term),
        encode::value_of(term, state.labels, state.macros) == Err::<int, EvalErrorModel>(error),
    ensures
        ({
            let step = state::op_pushed(state, used, op, draws, depth);
            let size = match op {
                OpModel::Op { code, .. } => if 0x60 <= code <= 0x7f {
                    (code - 0x5f + 1) as nat
                } else {
                    1
                },
                _ => 2,
            };
            let refused = |failure: FailureModel| step == (Step {
                state,
                used,
                failure: Some(failure),
            });
            match error {
                EvalErrorModel::UnknownMacro(name) => refused(
                    FailureModel::Error(ErrorModel::UndeclaredExpressionMacro { name }),
                ),
                EvalErrorModel::UndefinedVariable(var) => refused(
                    FailureModel::Error(ErrorModel::UndeclaredVariableMacro { var }),
                ),
                EvalErrorModel::TooDeep => refused(FailureModel::Fault(Fault::EndlessMacro)),
                EvalErrorModel::UnknownLabel(_) => match context::labels_in(
                    term,
                    state.macros,
                    NESTING_LIMIT as nat,
                ) {
                    Err(EvalErrorModel::UnknownMacro(name)) => refused(
                        FailureModel::Error(ErrorModel::UndeclaredExpressionMacro { name }),
                    ),
                    Err(_) => refused(FailureModel::Fault(Fault::EndlessMacro)),
                    Ok(used_labels) => if state.concrete_len + size > usize::MAX {
                        refused(FailureModel::Fault(Fault::OffsetOverflow))
                    } else {
                        step == (Step {
                            state: State {
                                undeclared: step.state.undeclared,
                                ..with_instruction(state, op, size)
                            },
                            used,
                            failure: None,
                        }) && step.state.undeclared == state::with_undeclared(
                            state.undeclared,
                            used_labels,
                            used_labels.len(),
                            state.labels,
                        )
                    },
                },
            }
        }),
{
    references_have_no_variables(term, state.macros, NESTING_LIMIT as nat);
}

proof fn references_have_no_variables(term: Term, macros: Seq<MacroModel>, depth: nat)
    ensures
        match context::labels_in(term, macros, depth) {
            Err(EvalErrorModel::UnknownMacro(_)) => true,
            Err(EvalErrorModel::TooDeep) => true,
            Err(_) => false,
            Ok(_) => true,
        },
    decreases depth, term,
{
    match term {
        Term::Macro(name, arguments) => {
            all_references_have_no_variables(arguments, macros, depth);
            match context::find_macro(macros, name) {
                Some(MacroModel::Expression { content, .. }) => {
                    if depth > 0 {
                        references_have_no_variables(content, macros, (depth - 1) as nat);
                    }
                },
                _ => {},
            }
        },
        Term::Plus(left, right) => {
            references_have_no_variables(*left, macros, depth);
            references_have_no_variables(*right, macros, depth);
        },
        Term::Minus(left, right) => {
            references_have_no_variables(*left, macros, depth);
            references_have_no_variables(*right, macros, depth);
        },
        _ => {},
    }
}

proof fn all_references_have_no_variables(
    terms: Seq<Term>,
    macros: Seq<MacroModel>,
    depth: nat,
)
    ensures
        match context::labels_in_all(terms, macros, depth) {
            Err(EvalErrorModel::UnknownMacro(_)) => true,
            Err(EvalErrorModel::TooDeep) => true,
            Err(_) => false,
            Ok(_) => true,
        },
    decreases depth, terms,
{
    if terms.len() > 0 {
        all_references_have_no_variables(terms.drop_last(), macros, depth);
        references_have_no_variables(terms.last(), macros, depth);
    }
}

/// An instruction whose value is known, and which is not refused, is an item: as wide as its opcode
/// says, or as its value needs where it has no size of its own.
pub proof fn known_instructions_are_accepted(
    state: State,
    used: nat,
    op: OpModel,
    term: Term,
    value: int,
    draws: Seq<u64>,
    depth: nat,
)
    requires
        op is Op || op is Push,
        op matches OpModel::Op { code, .. } ==> 0x60 <= code <= 0x7f,
        encode::expression_in(op) == Some(term),
        encode::value_of(term, state.labels, state.macros) == Ok::<int, EvalErrorModel>(value),
        state::op_pushed(state, used, op, draws, depth).failure is None,
    ensures
        ({
            let step = state::op_pushed(state, used, op, draws, depth);
            let size = match op {
                OpModel::Op { code, .. } => (code - 0x5f + 1) as nat,
                _ => 1 + encode::width_needed(value),
            };
            &&& step.used == used
            &&& step.state == with_instruction(state, op, size)
        }),
{
}

/// The items of a macro, and those of a program, are taken one after the other, up to the first one
/// that is refused.
pub proof fn items_are_taken_in_order(
    state: State,
    used: nat,
    ops: Seq<OpModel>,
    count: nat,
    draws: Seq<u64>,
    depth: nat,
)
    requires
        count < ops.len(),
    ensures
        state::ops_pushed(state, used, ops, 0, draws, depth) == (Step {
            state,
            used,
            failure: None,
        }),
        ({
            let before = state::ops_pushed(state, used, ops, count, draws, depth);
            let after = state::ops_pushed(state, used, ops, count + 1, draws, depth);
            &&& before.failure is Some ==> after == before
            &&& before.failure is None ==> after == state::op_pushed(
                before.state,
                before.used,
                ops[count as int],
                draws,
                depth,
            )
        }),
{
}

/// The same of the items of a program.
pub proof fn program_is_taken_in_order(
    state: State,
    used: nat,
    ops: Seq<RawModel>,
    count: nat,
    draws: Seq<u64>,
)
    requires
        count < ops.len(),
    ensures
        state::raws_pushed(state, used, ops, 0, draws) == (Step { state, used, failure: None }),
        ({
            let before = state::raws_pushed(state, used, ops, count, draws);
            let after = state::raws_pushed(state, used, ops, count + 1, draws);
            &&& before.failure is Some ==> after == before
            &&& before.failure is None ==> after == state::raw_pushed(
                before.state,
                before.used,
                ops[count as int],
                draws,
            )
        }),
{
}

/// A program is assembled in three steps, and the first one that fails decides: its macros are
/// defined, its items are taken, and the output is written.
pub proof fn programs_are_assembled_in_steps(
    state: State,
    used: nat,
    ops: Seq<RawModel>,
    draws: Seq<u64>,
)
    ensures
        ({
            let assembly = state::assembled(state, used, ops, draws);
            let declared = state::macros_declared(state, ops, ops.len());
            let pushed = state::raws_pushed(declared.state, used, ops, ops.len(), draws);
            let emission = state::finished(pushed.state);
            &&& declared.failure matches Some(failure) ==> assembly.result == Err::<
                Seq<u8>,
                FailureModel,
            >(failure) && assembly.state == declared.state && assembly.used == used
            &&& declared.failure is None ==> assembly.used == pushed.used && {
                &&& pushed.failure matches Some(failure) ==> assembly.result == Err::<
                    Seq<u8>,
                    FailureModel,
                >(failure) && assembly.state == pushed.state
                &&& pushed.failure is None ==> assembly.result == emission.result && {
                    &&& emission.result is Err ==> assembly.state == emission.state
                    &&& emission.result is Ok ==> {
                        &&& assembly.state.labels == emission.state.labels
                        &&& assembly.state.macros == emission.state.macros
                        &&& assembly.state.offset == emission.state.offset
                        &&& assembly.state.concrete_len == emission.state.concrete_len
                    }
                }
            }
        }),
{
}

/// Substitution goes through an expression part by part: where it is no variable, it keeps its form,
/// and operands and arguments keep their places.
pub proof fn filling_keeps_the_form(term: Term, name: Seq<char>, value: Term)
    ensures
        ({
            let result = macros::filled(term, name, value);
            match term {
                Term::Number(_) => result == term,
                Term::Label(_) => result == term,
                Term::Variable(variable) => (variable == name ==> result == value) && (variable
                    != name ==> result == term),
                Term::Macro(callee, arguments) => {
                    &&& result is Macro
                    &&& result->Macro_0 == callee
                    &&& result->Macro_1.len() == arguments.len()
                    &&& forall|i: int|
                        0 <= i < arguments.len() ==> #[trigger] result->Macro_1[i]
                            == macros::filled(arguments[i], name, value)
                },
                Term::Plus(left, right) => result is Plus && *result->Plus_0 == macros::filled(
                    *left,
                    name,
                    value,
                ) && *result->Plus_1 == macros::filled(*right, name, value),
                Term::Minus(left, right) => result is Minus && *result->Minus_0 == macros::filled(
                    *left,
                    name,
                    value,
                ) && *result->Minus_1 == macros::filled(*right, name, value),
            }
        }),
{
    match term {
        Term::Macro(_, arguments) => {
            assert(macros::all_filled(arguments, name, value).len() == arguments.len());
        },
        _ => {},
    }
}

/// Renaming goes through an expression part by part: where it is no label, it keeps its form, and
/// operands and arguments keep their places.
pub proof fn renaming_keeps_the_form(term: Term, table: Seq<(Seq<char>, Seq<char>)>)
    ensures
        ({
            let result = macros::renamed(term, table);
            match term {
                Term::Number(_) => result == term,
                Term::Label(label) => result == Term::Label(
                    match macros::new_name(table, label) {
                        Some(other) => other,
                        None => label,
                    },
                ),
                Term::Variable(_) => result == term,
                Term::Macro(callee, arguments) => {
                    &&& result is Macro
                    &&& result->Macro_0 == callee
                    &&& result->Macro_1.len() == arguments.len()
                    &&& forall|i: int|
                        0 <= i < arguments.len() ==> #[trigger] result->Macro_1[i]
                            == macros::renamed(arguments[i], table)
                },
                Term::Plus(left, right) => result is Plus && *result->Plus_0 == macros::renamed(
                    *left,
                    table,
                ) && *result->Plus_1 == macros::renamed(*right, table),
                Term::Minus(left, right) => result is Minus && *result->Minus_0 == macros::renamed(
                    *left,
                    table,
                ) && *result->Minus_1 == macros::renamed(*right, table),
            }
        }),
{
    match term {
        Term::Macro(_, arguments) => {
            assert(macros::all_renamed(arguments, table).len() == arguments.len());
        },
        _ => {},
    }
}

/// Whether there is no variable in `term`.
pub open spec fn is_closed(term: Term) -> bool
    decreases term,
{
    match term {
        Term::Variable(_) => false,
        Term::Macro(_, arguments) => all_closed(arguments),
        Term::Plus(left, right) => is_closed(*left) && is_closed(*right),
        Term::Minus(left, right) => is_closed(*left) && is_closed(*right),
        _ => true,
    }
}

/// Whether there is no variable in `terms`.
pub open spec fn all_closed(terms: Seq<Term>) -> bool
    decreases terms,
{
    forall|i: int| 0 <= i < terms.len() ==> is_closed(#[trigger] terms[i])
}

/// Nothing is put in the place of variables where there are none.
pub proof fn closed_terms_stay(term: Term, name: Seq<char>, value: Term)
    requires
        is_closed(term),
    ensures
        macros::filled(term, name, value) == term,
    decreases term,
{
    match term {
        Term::Macro(_, arguments) => {
            assert(all_closed(arguments));
            let results = macros::all_filled(arguments, name, value);
            assert forall|i: int| 0 <= i < arguments.len() implies #[trigger] results[i]
                == arguments[i] by {
                closed_terms_stay(arguments[i], name, value);
            }
            assert(results =~= arguments);
        },
        Term::Plus(left, right) => {
            closed_terms_stay(*left, name, value);
            closed_terms_stay(*right, name, value);
        },
        Term::Minus(left, right) => {
            closed_terms_stay(*left, name, value);
            closed_terms_stay(*right, name, value);
        },
        _ => {},
    }
}

/// All arguments go through an expression part by part: what is no variable keeps its form, and
/// operands and arguments keep their places. A variable gives way to the argument of the last
/// parameter with its name, and stays where there is none.
pub proof fn arguments_take_the_place_of_parameters(
    term: Term,
    parameters: Seq<Seq<char>>,
    arguments: Seq<Term>,
    count: nat,
)
    requires
        count <= parameters.len() == arguments.len(),
    ensures
        ({
            let result = macros::filled_upto(term, parameters, arguments, count);
            match term {
                Term::Number(_) => result == term,
                Term::Label(_) => result == term,
                Term::Variable(name) => {
                    &&& (forall|k: int|
                        0 <= k < count && #[trigger] parameters[k] == name ==> parameters.skip(
                            k + 1,
                        ).contains(name)) ==> result == term
                    &&& forall|k: int|
                        0 <= k < count && #[trigger] parameters[k] == name && !parameters.skip(
                            k + 1,
                        ).contains(name) && is_closed(arguments[k]) ==> result == arguments[k]
                },
                Term::Macro(callee, inner) => {
                    &&& result is Macro
                    &&& result->Macro_0 == callee
                    &&& result->Macro_1.len() == inner.len()
                    &&& forall|i: int|
                        0 <= i < inner.len() ==> #[trigger] result->Macro_1[i]
                            == macros::filled_upto(inner[i], parameters, arguments, count)
                },
                Term::Plus(left, right) => result is Plus && *result->Plus_0 == macros::filled_upto(
                    *left,
                    parameters,
                    arguments,
                    count,
                ) && *result->Plus_1 == macros::filled_upto(*right, parameters, arguments, count),
                Term::Minus(left, right) => result is Minus && *result->Minus_0
                    == macros::filled_upto(*left, parameters, arguments, count)
                    && *result->Minus_1 == macros::filled_upto(
                    *right,
                    parameters,
                    arguments,
                    count,
                ),
            }
        }),
    decreases count,
{
    if count > 0 {
        let last = (count - 1) as nat;
        arguments_take_the_place_of_parameters(term, parameters, arguments, last);
        let before = macros::filled_upto(term, parameters, arguments, last);
        let result = macros::filled_upto(term, parameters, arguments, count);
        filling_keeps_the_form(before, parameters[last as int], arguments[last as int]);
        match term {
            Term::Variable(name) => {
                assert forall|k: int|
                    0 <= k < count && #[trigger] parameters[k] == name && !parameters.skip(
                        k + 1,
                    ).contains(name) && is_closed(arguments[k]) implies result
                    == arguments[k] by {
                    if k < last {
                        assert(before == arguments[k]);
                        closed_terms_stay(
                            before,
                            parameters[last as int],
                            arguments[last as int],
                        );
                    } else {
                        assert forall|j: int|
                            0 <= j < last && #[trigger] parameters[j]
                                == name implies parameters.skip(j + 1).contains(name) by {
                            assert(parameters.skip(j + 1)[k - j - 1] == name);
                        }
                        assert(before == term);
                        assert(parameters.skip(count as int) == parameters.skip(k + 1));
                    }
                }
                if forall|k: int|
                    0 <= k < count && #[trigger] parameters[k] == name ==> parameters.skip(
                        k + 1,
                    ).contains(name) {
                    assert(before == term);
                    if parameters[last as int] == name {
                        assert(parameters.skip(last as int + 1).contains(name));
                    }
                }
            },
            _ => {},
        }
    }
}

/// What becomes of an expression of a macro: labels are renamed first, and the arguments take the
/// place of the parameters then, so that labels in arguments keep their names. It is refused where
/// it cannot be told which labels it refers to.
pub proof fn expressions_are_expanded(
    term: Term,
    table: Seq<(Seq<char>, Seq<char>)>,
    parameters: Seq<Seq<char>>,
    arguments: Seq<Term>,
    definitions: Seq<MacroModel>,
)
    ensures
        match macros::instantiated_term(term, table, parameters, arguments, definitions) {
            Ok(result) => result == macros::filled_upto(
                macros::renamed(term, table),
                parameters,
                arguments,
                parameters.len(),
            ) && context::labels_in(term, definitions, NESTING_LIMIT as nat) is Ok,
            Err(failure) => match context::labels_in(term, definitions, NESTING_LIMIT as nat) {
                Err(EvalErrorModel::UnknownMacro(name)) => failure == FailureModel::Error(
                    ErrorModel::UndeclaredExpressionMacro { name },
                ),
                Err(_) => failure == FailureModel::Fault(Fault::EndlessMacro),
                Ok(_) => false,
            },
        },
{
    references_have_no_variables(term, definitions, NESTING_LIMIT as nat);
}

/// Outside of macros, an expression has the value that it has where no variable does. Macros may be
/// nested 2 to the power of 64 less one times.
pub proof fn nothing_is_bound_outside(
    term: Term,
    name: Seq<char>,
    entries: Seq<(Seq<char>, Option<LabelDef>)>,
    definitions: Seq<MacroModel>,
)
    ensures
        encode::value_of(Term::Variable(name), entries, definitions) == Err::<int, EvalErrorModel>(
            EvalErrorModel::UndefinedVariable(name),
        ),
        encode::value_of(term, entries, definitions) == context::eval(
            term,
            Context {
                labels: entries,
                macros: definitions,
                names: Seq::empty(),
                values: Seq::empty(),
            },
            0xffff_ffff_ffff_ffff,
        ),
{
}

/// An operation of a program is taken as it is, and macros may be nested in it 2 to the power of 64
/// less one times.
pub proof fn operations_are_taken(state: State, used: nat, op: OpModel, draws: Seq<u64>)
    ensures
        state::raw_pushed(state, used, RawModel::Op(op), draws) == state::op_pushed(
            state,
            used,
            op,
            draws,
            0xffff_ffff_ffff_ffff,
        ),
{
}

/// A label that moves is at its new position, and is marked as moved from then on.
pub proof fn moved_labels_are_marked(state: State, m: int)
    requires
        placement::well_formed(state),
        0 <= m < state.marks.len(),
        state::placed(state).failure is None,
        state.labels[state.marks[m].0 as int].1 is Some,
    ensures
        ({
            let i = state.marks[m].0 as int;
            let old_def = state.labels[i].1->0;
            let position = placement::position_in(state, state.marks[m].1 as int);
            let entry = state::placed(state).state.labels[i];
            &&& entry.0 == state.labels[i].0
            &&& entry.1 is Some
            &&& entry.1->0.position == position
            &&& entry.1->0.updated == (old_def.updated || old_def.position != position)
        }),
{
    let count = state.marks.len();
    assert(placement::position_in(state, state.marks[m].1 as int) <= usize::MAX) by {
        assert(state.marks[m].1 <= state.ready.len());
        assert(state::position_at(
            state.origin,
            state.ready,
            state.sizes,
            state.marks[m].1 as int,
        ) <= usize::MAX);
    }
    labels_are_placed(state, count, state.marks[m].0 as int);
}

/// The labels of the program are placed, and all others stay.
proof fn labels_are_placed(state: State, count: nat, i: int)
    requires
        placement::well_formed(state),
        count <= state.marks.len(),
        0 <= i < state.labels.len(),
    ensures
        state::labels_placed(state, count).len() == state.labels.len(),
        forall|m: int|
            0 <= m < count && (#[trigger] state.marks[m]).0 == i ==> state::labels_placed(
                state,
                count,
            )[i] == (
                state.labels[i].0,
                state::moved(
                    state.labels[i].1,
                    placement::position_in(state, state.marks[m].1 as int),
                ),
            ),
        (forall|m: int| 0 <= m < count ==> (#[trigger] state.marks[m]).0 != i)
            ==> state::labels_placed(state, count)[i] == state.labels[i],
    decreases count,
{
    if count > 0 {
        let last = (count - 1) as nat;
        labels_are_placed(state, last, i);
        let mark = state.marks[last as int];
        assert(mark.0 < state.labels.len() && mark.1 <= state.ready.len());
        if mark.0 == i {
            assert forall|m: int| 0 <= m < last implies (#[trigger] state.marks[m]).0 != i by {
                assert(state.marks[m].0 < state.marks[last as int].0);
            }
            assert(state::labels_placed(state, last)[i] == state.labels[i]);
        } else {
            assert(state::labels_placed(state, count)[i] == state::labels_placed(state, last)[i]);
        }
    }
}

/// Labels of earlier programs stay where they are.
pub proof fn other_labels_stay(state: State, i: int)
    requires
        placement::well_formed(state),
        0 <= i < state.labels.len(),
        forall|m: int| 0 <= m < state.marks.len() ==> (#[trigger] state.marks[m]).0 != i,
    ensures
        state::placed(state).state.labels[i] == state.labels[i],
{
    labels_are_placed(state, state.marks.len(), i);
}

/// Whether an instruction that was accepted refers to `label`.
pub open spec fn is_referred_to(state: State, label: Seq<char>) -> bool {
    exists|i: int|
        0 <= i < state.ready.len() && (#[trigger] state.ready[i] matches ItemModel::Instruction(op)
            && refers_to(op, state.macros, label))
}

/// Whether the instruction `op` refers to `label`.
pub open spec fn refers_to(op: OpModel, macros: Seq<MacroModel>, label: Seq<char>) -> bool {
    match encode::expression_in(op) {
        Some(term) => match context::labels_in(term, macros, NESTING_LIMIT as nat) {
            Ok(used_labels) => used_labels.contains(label),
            Err(_) => false,
        },
        None => false,
    }
}

/// Whether each label that waits for its declaration is one that an instruction refers to.
pub open spec fn none_waits_in_vain(state: State) -> bool {
    forall|label: Seq<char>| state.undeclared.contains(label) ==> #[trigger] is_referred_to(
        state,
        label,
    )
}

proof fn still_waits_for_reason(state: State, later: State, op: OpModel)
    requires
        none_waits_in_vain(state),
        state.ready.is_prefix_of(later.ready),
        later.macros == state.macros,
        forall|label: Seq<char>|
            #![trigger later.undeclared.contains(label)]
            later.undeclared.contains(label) ==> state.undeclared.contains(label) || (later.ready
                == state.ready.push(ItemModel::Instruction(op)) && refers_to(
                op,
                state.macros,
                label,
            )),
    ensures
        none_waits_in_vain(later),
{
    assert forall|label: Seq<char>| later.undeclared.contains(label) implies
        #[trigger] is_referred_to(later, label) by {
        if state.undeclared.contains(label) {
            assert(is_referred_to(state, label));
            let i = choose|i: int|
                0 <= i < state.ready.len() && (#[trigger] state.ready[i]
                    matches ItemModel::Instruction(op) && refers_to(op, state.macros, label));
            assert(later.ready[i] == state.ready[i]);
        } else {
            assert(later.ready[state.ready.len() as int] == ItemModel::Instruction(op));
        }
    }
}

/// Items keep it so that no label waits in vain.
pub proof fn op_lets_none_wait_in_vain(
    state: State,
    used: nat,
    op: OpModel,
    draws: Seq<u64>,
    depth: nat,
)
    requires
        none_waits_in_vain(state),
    ensures
        none_waits_in_vain(state::op_pushed(state, used, op, draws, depth).state),
    decreases depth, 1nat, 0nat,
{
    let after = state::op_pushed(state, used, op, draws, depth).state;
    match op {
        OpModel::Label(label) => {
            assert forall|other: Seq<char>|
                #![trigger after.undeclared.contains(other)]
                after.undeclared.contains(other) implies state.undeclared.contains(other) by {
                if after != state {
                    filtered_was_there(state.undeclared, label, other);
                }
            }
            still_waits_for_reason(state, after, op);
        },
        OpModel::Macro(name, arguments) => {
            let step = state::macro_expanded(state, used, name, arguments, draws, depth);
            assert(after == step.state);
            match context::find_macro(state.macros, name) {
                Some(MacroModel::Instruction { parameters, contents, .. }) => {
                    let fresh = macros::fresh_upto(name, contents, contents.len(), used, draws);
                    match macros::instantiated_upto(
                        fresh.contents,
                        fresh.contents.len(),
                        fresh.table,
                        parameters,
                        arguments,
                        state.macros,
                    ) {
                        Ok(ops) => {
                            if depth > 0 {
                                ops_let_none_wait_in_vain(
                                    state,
                                    fresh.used,
                                    ops,
                                    ops.len(),
                                    draws,
                                    (depth - 1) as nat,
                                );
                            }
                        },
                        Err(_) => {},
                    }
                },
                _ => {},
            }
        },
        _ => {
            match encode::expression_in(op) {
                Some(term) => match context::labels_in(
                    term,
                    state.macros,
                    NESTING_LIMIT as nat,
                ) {
                    Ok(used_labels) => {
                        assert forall|other: Seq<char>|
                            #![trigger after.undeclared.contains(other)]
                            after.undeclared.contains(other) implies state.undeclared.contains(
                            other,
                        ) || (after.ready == state.ready.push(ItemModel::Instruction(op))
                            && refers_to(op, state.macros, other)) by {
                            undeclared_labels_wait(
                                state.undeclared,
                                used_labels,
                                used_labels.len(),
                                state.labels,
                                other,
                            );
                            if !state.undeclared.contains(other) {
                                assert(after.undeclared != state.undeclared);
                                let i = choose|i: int|
                                    0 <= i < used_labels.len() && #[trigger] used_labels[i]
                                        == other;
                                assert(used_labels.contains(other));
                            }
                        }
                        still_waits_for_reason(state, after, op);
                    },
                    Err(_) => {
                        still_waits_for_reason(state, after, op);
                    },
                },
                None => {
                    still_waits_for_reason(state, after, op);
                },
            }
        },
    }
}

proof fn filtered_was_there(waiting: Seq<Seq<char>>, label: Seq<char>, other: Seq<char>)
    requires
        state::without_label(waiting, label).contains(other),
    ensures
        waiting.contains(other),
        other != label,
    decreases waiting.len(),
{
    reveal(Seq::filter);
    let after = state::without_label(waiting, label);
    if waiting.len() > 0 {
        let front = waiting.drop_last();
        let i = choose|i: int| 0 <= i < after.len() && after[i] == other;
        if waiting.last() != label && i == after.len() - 1 {
            assert(waiting[waiting.len() - 1] == other);
        } else {
            assert(state::without_label(front, label)[i] == other);
            filtered_was_there(front, label, other);
            let j = choose|j: int| 0 <= j < front.len() && front[j] == other;
            assert(waiting[j] == other);
        }
    }
}

proof fn ops_let_none_wait_in_vain(
    state: State,
    used: nat,
    ops: Seq<OpModel>,
    count: nat,
    draws: Seq<u64>,
    depth: nat,
)
    requires
        none_waits_in_vain(state),
    ensures
        none_waits_in_vain(state::ops_pushed(state, used, ops, count, draws, depth).state),
    decreases depth, 2nat, count,
{
    if count > 0 {
        ops_let_none_wait_in_vain(state, used, ops, (count - 1) as nat, draws, depth);
        let before = state::ops_pushed(state, used, ops, (count - 1) as nat, draws, depth);
        if before.failure is None {
            op_lets_none_wait_in_vain(before.state, before.used, ops[count - 1], draws, depth);
        }
    }
}

/// A program that starts with no label that waits has none that waits in vain: each label that is
/// reported as undeclared is one that an instruction of the program refers to.
pub proof fn reported_labels_are_referred_to(
    state: State,
    used: nat,
    ops: Seq<RawModel>,
    count: nat,
    draws: Seq<u64>,
)
    requires
        none_waits_in_vain(state),
        count <= ops.len(),
    ensures
        none_waits_in_vain(state::raws_pushed(state, used, ops, count, draws).state),
    decreases count,
{
    if count > 0 {
        reported_labels_are_referred_to(state, used, ops, (count - 1) as nat, draws);
        let before = state::raws_pushed(state, used, ops, (count - 1) as nat, draws);
        let after = state::raws_pushed(state, used, ops, count, draws);
        if before.failure is None {
            let step = state::raw_pushed(before.state, before.used, ops[count - 1], draws);
            assert(after == step);
            match ops[count - 1] {
                RawModel::Op(op) => {
                    op_lets_none_wait_in_vain(
                        before.state,
                        before.used,
                        op,
                        draws,
                        NESTING_LIMIT as nat,
                    );
                },
                RawModel::Raw(bytes) => {
                    assert(step.state.undeclared == before.state.undeclared);
                    still_waits_for_reason(before.state, step.state, OpModel::Org(0));
                },
                RawModel::Scope(inner) => {
                    scopes_are_accepted(before.state, before.used, inner, draws);
                    assert(step.state.undeclared == before.state.undeclared);
                    still_waits_for_reason(before.state, step.state, OpModel::Org(0));
                },
            }
        }
    }
}

/// The same macro is found however many others are defined behind it, and only by its name.
pub proof fn definitions_are_added(state: State, ops: Seq<RawModel>, count: nat)
    requires
        count < ops.len(),
        state::macros_declared(state, ops, count).failure is None,
    ensures
        ({
            let before = state::macros_declared(state, ops, count).state;
            let step = state::macros_declared(state, ops, count + 1);
            let taken = |name: Seq<char>| exists|i: int|
                0 <= i < before.macros.len() && (#[trigger] before.macros[i]).macro_name() == name;
            match ops[count as int] {
                RawModel::Op(OpModel::MacroDefinition(definition)) => if taken(
                    definition.macro_name(),
                ) {
                    step.state == before && step.failure == Some(
                        FailureModel::Error(
                            ErrorModel::DuplicateMacro { name: definition.macro_name() },
                        ),
                    )
                } else {
                    step.failure is None && step.state == (State {
                        macros: before.macros.push(definition),
                        ..before
                    })
                },
                _ => step.failure is None && step.state == before,
            }
        }),
{
    let before = state::macros_declared(state, ops, count).state;
    match ops[count as int] {
        RawModel::Op(OpModel::MacroDefinition(definition)) => {
            macro_found_by_name(before.macros, definition.macro_name());
        },
        _ => {},
    }
}

proof fn macro_found_by_name(macros: Seq<MacroModel>, name: Seq<char>)
    ensures
        context::find_macro(macros, name) is Some <==> exists|i: int|
            0 <= i < macros.len() && (#[trigger] macros[i]).macro_name() == name,
    decreases macros.len(),
{
    if macros.len() > 0 {
        let front = macros.drop_last();
        macro_found_by_name(front, name);
        if macros.last().macro_name() == name {
            assert(macros[macros.len() - 1].macro_name() == name);
        } else {
            if exists|i: int| 0 <= i < macros.len() && (#[trigger] macros[i]).macro_name() == name {
                let i = choose|i: int|
                    0 <= i < macros.len() && (#[trigger] macros[i]).macro_name() == name;
                assert(front[i] == macros[i]);
            }
            if exists|i: int| 0 <= i < front.len() && (#[trigger] front[i]).macro_name() == name {
                let i = choose|i: int|
                    0 <= i < front.len() && (#[trigger] front[i]).macro_name() == name;
                assert(macros[i] == front[i]);
            }
        }
    }
}

} // verus!
