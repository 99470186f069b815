//! The assembler.

use indexmap::IndexMap;
use std::collections::HashMap;
use vstd::prelude::*;

use crate::context::{get_macro, labels_of, EvalError, NESTING_LIMIT};
use crate::encode;
use crate::encode::{evaluate, measure_width, EncodeError, Instruction};
use crate::error::{failure_without_value, Error, ErrorModel, Failure, FailureModel, Fault};
use crate::evmgif;
use crate::evmgif::{
    assemble_chunked, build_position_map, decode_instruction_starts, plan_chunks,
};
use crate::expression;
use crate::expression::Expression;
use crate::labels;
use crate::labels::{
    contains_label, count_labels, get_label, insert_label, label_def_at, new_labels,
    set_label_def_at, LabelDef,
};
use crate::macros::{freshen, instantiate};
use crate::nonces;
use crate::nonces::Nonces;
use crate::opcode::JUMPDEST;
use crate::ops;
use crate::ops::{copy_strings, AbstractOp, MacroDefinition, OpModel, RawModel, RawOp};
use crate::progress;
use crate::state;
use crate::state::{Assembly, Emission, ItemModel, Outcome, PushRefModel, State, Step};

verus! {

/// What takes part in the output.
#[derive(Debug)]
enum Item {
    /// An instruction.
    Instruction(Instruction),
    /// Bytes that are placed as they are.
    Raw(Vec<u8>),
    /// Zeros up to an offset.
    Org(usize),
}

impl View for Item {
    type V = ItemModel;

    closed spec fn view(&self) -> ItemModel {
        match *self {
            Item::Instruction(instruction) => ItemModel::Instruction(instruction@),
            Item::Raw(bytes) => ItemModel::Raw(bytes@),
            Item::Org(offset) => ItemModel::Org(offset as nat),
        }
    }
}

/// An item that was accepted.
#[derive(Debug)]
struct Accepted {
    /// The item.
    item: Item,
    /// The room for it, in bytes.
    room: usize,
}

/// A push definition.
#[derive(Debug, PartialEq, Eq)]
pub struct PushDef {
    position: usize,
    op: AbstractOp,
}

impl View for PushDef {
    type V = (OpModel, nat);

    /// The push, and its position.
    closed spec fn view(&self) -> (OpModel, nat) {
        (self.op@, self.position as nat)
    }
}

impl PushDef {
    /// Create a new `PushDef`.
    pub fn new(op: AbstractOp, position: usize) -> (def: Self)
        ensures
            def@ == (op@, position as nat),
    {
        Self { op, position }
    }

    /// Get the position of the push.
    pub fn position(&self) -> (position: usize)
        ensures
            position == self@.1,
    {
        self.position
    }

    /// Get the op from the push.
    pub fn op(&self) -> (op: &AbstractOp)
        ensures
            op@ == self@.0,
    {
        &self.op
    }
}

impl Clone for PushDef {
    fn clone(&self) -> (copy: Self)
        ensures
            copy@ == self@,
    {
        PushDef { position: self.position, op: self.op.clone() }
    }
}

/// A push that refers to a label, where the output goes into a GIF file.
#[derive(Debug)]
struct EvmGifPushRef {
    /// The index of the push among the items.
    item: usize,
    /// Whether the assembler chooses the size of the push.
    resizable: bool,
    /// The offset of the opcode in the program.
    unchunked_op_pos: usize,
    /// The width of the immediate.
    imm_size: usize,
    /// The expression whose value is pushed.
    expr: Expression,
}

impl View for EvmGifPushRef {
    type V = PushRefModel;

    closed spec fn view(&self) -> PushRefModel {
        PushRefModel {
            item: self.item as nat,
            resizable: self.resizable,
            unchunked_op_pos: self.unchunked_op_pos as nat,
            imm_size: self.imm_size as nat,
            expr: self.expr@,
        }
    }
}

/// Assembles a series of [`RawOp`] into raw bytes, tracking and resolving macros and labels,
/// and handling variable-sized pushes.
///
/// ```rust
/// use etk_asm::assembler::Assembler;
/// use etk_asm::ops::{AbstractOp, Op, RawOp};
///
/// let mut assembler = Assembler::new();
/// let pc = Op::new(0x58).unwrap();
/// let code = vec![RawOp::from(AbstractOp::new(pc))];
/// assert_eq!(assembler.assemble(&code), Ok(vec![0x58]));
/// ```
#[derive(Debug)]
pub struct Assembler {
    /// What was accepted so far.
    ready: Vec<Accepted>,
    /// The position of the first item of `ready`.
    origin: usize,
    /// The position behind the last item of `ready`.
    concrete_len: usize,
    /// The declared labels.
    declared_labels: IndexMap<String, Option<LabelDef>>,
    /// Where the labels of the program stand: the index of each one in `declared_labels`, and the
    /// number of items in front of it.
    marks: Vec<(usize, usize)>,
    /// The defined macros.
    declared_macros: Vec<MacroDefinition>,
    /// The labels that have been referred to and not declared.
    undeclared_labels: Vec<String>,
    /// The pushes that are variable-sized and need to be backpatched, each with its position among
    /// the items.
    variable_sized_push: Vec<PushDef>,
    /// Where the output starts in a GIF file, if it goes into one.
    evmgif_offset: Option<u64>,
}

spec fn items_of(items: Seq<Accepted>) -> Seq<ItemModel> {
    Seq::new(items.len(), |i: int| items[i].item@)
}

spec fn sizes_of(items: Seq<Accepted>) -> Seq<nat> {
    Seq::new(items.len(), |i: int| items[i].room as nat)
}

spec fn marks_of(marks: Seq<(usize, usize)>) -> Seq<(nat, nat)> {
    Seq::new(marks.len(), |i: int| (marks[i].0 as nat, marks[i].1 as nat))
}

spec fn pushes_of(pushes: Seq<PushDef>) -> Seq<(OpModel, nat)> {
    Seq::new(pushes.len(), |i: int| pushes[i]@)
}

spec fn refs_of(pushes: Seq<EvmGifPushRef>) -> Seq<PushRefModel> {
    Seq::new(pushes.len(), |i: int| pushes[i]@)
}

impl View for Assembler {
    type V = State;

    closed spec fn view(&self) -> State {
        State {
            ready: items_of(self.ready@),
            sizes: sizes_of(self.ready@),
            origin: self.origin as nat,
            concrete_len: self.concrete_len as nat,
            labels: labels::label_entries(self.declared_labels),
            marks: marks_of(self.marks@),
            macros: ops::macro_models(self.declared_macros@),
            undeclared: ops::texts_of(self.undeclared_labels@),
            pushes: pushes_of(self.variable_sized_push@),
            offset: self.evmgif_offset,
        }
    }
}

/// What went wrong, if anything.
pub open spec fn failure_of<T>(result: Result<T, Failure>) -> Option<FailureModel> {
    match result {
        Ok(_) => None,
        Err(failure) => Some(failure@),
    }
}

/// The bytes that came out, or what went wrong.
pub open spec fn bytes_of(result: Result<Vec<u8>, Failure>) -> Result<Seq<u8>, FailureModel> {
    match result {
        Ok(bytes) => Ok(bytes@),
        Err(failure) => Err(failure@),
    }
}

/// Whether `label` is among `labels`.
fn contains_text(labels: &Vec<String>, label: &String) -> (found: bool)
    ensures
        found == ops::texts_of(labels@).contains(label@),
{
    let ghost texts = ops::texts_of(labels@);
    for i in 0..labels.len()
        invariant
            texts == ops::texts_of(labels@),
            forall|j: int| 0 <= j < i ==> texts[j] != label@,
    {
        if labels[i] == *label {
            assert(texts[i as int] == label@);
            return true;
        }
        assert(texts[i as int] != label@);
    }
    false
}

/// The labels but `label`.
fn remove_text(labels: &Vec<String>, label: &String) -> (rest: Vec<String>)
    ensures
        ops::texts_of(rest@) == state::without_label(ops::texts_of(labels@), label@),
{
    let ghost texts = ops::texts_of(labels@);
    let ghost keep = |other: Seq<char>| other != label@;
    let mut rest: Vec<String> = Vec::new();
    proof {
        reveal(Seq::filter);
    }
    assert(ops::texts_of(rest@) =~= texts.take(0).filter(keep));
    for i in 0..labels.len()
        invariant
            texts == ops::texts_of(labels@),
            keep == (|other: Seq<char>| other != label@),
            ops::texts_of(rest@) == texts.take(i as int).filter(keep),
    {
        proof {
            reveal(Seq::filter);
        }
        assert(texts.take(i + 1).drop_last() =~= texts.take(i as int));
        assert(texts.take(i + 1).last() == labels@[i as int]@);
        if labels[i] != *label {
            rest.push(labels[i].clone());
            assert(ops::texts_of(rest@) =~= texts.take(i as int).filter(keep).push(
                labels@[i as int]@,
            ));
        }
    }
    assert(texts.take(labels@.len() as int) =~= texts);
    rest
}

/// What it means that an instruction with the expression `expr` has no bytes.
fn failure_of_encoding(expr: &Expression, error: EncodeError, undeclared: &Vec<String>) -> (failure:
    Failure)
    ensures
        failure@ == state::encoding_failure(expr@, error@, ops::texts_of(undeclared@)),
{
    match error {
        EncodeError::TooLarge { value, spec } => Failure::Error(
            Error::ExpressionTooLarge { expr: expr.clone(), value, spec },
        ),
        EncodeError::Negative { value } => Failure::Error(
            Error::ExpressionNegative { expr: expr.clone(), value },
        ),
        EncodeError::NoValue(EvalError::UnknownLabel { .. }) => Failure::Error(
            Error::UndeclaredLabels { labels: copy_strings(undeclared) },
        ),
        EncodeError::NoValue(error) => failure_without_value(error),
    }
}

/// Once an instruction was refused, the others change nothing.
proof fn ops_pushed_stops(
    state: State,
    used: nat,
    ops: Seq<OpModel>,
    count: nat,
    total: nat,
    draws: Seq<u64>,
    depth: nat,
)
    requires
        count <= total,
        state::ops_pushed(state, used, ops, count, draws, depth).failure is Some,
    ensures
        state::ops_pushed(state, used, ops, total, draws, depth) == state::ops_pushed(
            state,
            used,
            ops,
            count,
            draws,
            depth,
        ),
    decreases total,
{
    if count < total {
        ops_pushed_stops(state, used, ops, count, (total - 1) as nat, draws, depth);
    }
}

/// Once an item was refused, the others change nothing.
proof fn raws_pushed_stops(
    state: State,
    used: nat,
    ops: Seq<RawModel>,
    count: nat,
    total: nat,
    draws: Seq<u64>,
)
    requires
        count <= total <= ops.len(),
        state::raws_pushed(state, used, ops, count, draws).failure is Some,
    ensures
        state::raws_pushed(state, used, ops, total, draws) == state::raws_pushed(
            state,
            used,
            ops,
            count,
            draws,
        ),
    decreases total,
{
    if count < total {
        raws_pushed_stops(state, used, ops, count, (total - 1) as nat, draws);
    }
}

/// Once a definition was refused, the others change nothing.
proof fn macros_declared_stops(state: State, ops: Seq<RawModel>, count: nat, total: nat)
    requires
        count <= total,
        state::macros_declared(state, ops, count).failure is Some,
    ensures
        state::macros_declared(state, ops, total) == state::macros_declared(state, ops, count),
    decreases total,
{
    if count < total {
        macros_declared_stops(state, ops, count, (total - 1) as nat);
    }
}

/// Once there was no room for a push, the others change nothing.
proof fn pushes_widened_stops(state: State, count: nat, total: nat)
    requires
        count <= total,
        state::pushes_widened(state, count).failure is Some,
    ensures
        state::pushes_widened(state, total) == state::pushes_widened(state, count),
    decreases total,
{
    if count < total {
        pushes_widened_stops(state, count, (total - 1) as nat);
    }
}

/// Once an item could not be emitted, the others change nothing.
proof fn emitted_stops(state: State, count: nat, total: nat)
    requires
        count <= total,
        state::emitted(state, count).1 is Err,
    ensures
        state::emitted(state, total) == state::emitted(state, count),
    decreases total,
{
    if count < total {
        emitted_stops(state, count, (total - 1) as nat);
    }
}

/// Once a label has no position in a GIF file, the others stay.
proof fn relocated_stops(
    state: State,
    count: nat,
    total: nat,
    map: Map<usize, usize>,
    offset: u64,
)
    requires
        count <= total,
        state::relocated(state, count, map, offset).1 is Some,
    ensures
        state::relocated(state, total, map, offset) == state::relocated(
            state,
            count,
            map,
            offset,
        ),
    decreases total,
{
    if count < total {
        relocated_stops(state, count, (total - 1) as nat, map, offset);
    }
}

/// Once a push could not be written anew, the others stay.
proof fn patched_stops(
    state: State,
    bytes: Seq<u8>,
    pushes: Seq<PushRefModel>,
    count: nat,
    total: nat,
    map: Map<usize, usize>,
)
    requires
        count <= total,
        state::patched(state, bytes, pushes, count, map) is Err,
    ensures
        state::patched(state, bytes, pushes, total, map) == state::patched(
            state,
            bytes,
            pushes,
            count,
            map,
        ),
    decreases total,
{
    if count < total {
        patched_stops(state, bytes, pushes, count, (total - 1) as nat, map);
    }
}

impl Assembler {
    /// Create a new `Assembler`.
    pub fn new() -> (assembler: Self)
        ensures
            assembler@ == state::new_state(None),
    {
        Self::with_offset(None)
    }

    /// Create a new `Assembler` whose output is carried by a GIF file, from the given offset on.
    ///
    /// The output is chunked with `<size> JUMPDEST POP` as the first header and `PUSH1 <size> POP`
    /// between subsequent chunks, and every label resolves to its position in the output plus
    /// `offset`. The first instruction must be `JUMPDEST`: it stands in the first header, and is
    /// the entry point at `offset + 10`.
    pub fn with_evmgif_offset(offset: u64) -> (assembler: Self)
        ensures
            assembler@ == state::new_state(Some(offset)),
    {
        Self::with_offset(Some(offset))
    }

    fn with_offset(evmgif_offset: Option<u64>) -> (assembler: Self)
        ensures
            assembler@ == state::new_state(evmgif_offset),
    {
        let assembler = Assembler {
            ready: Vec::new(),
            origin: 0,
            concrete_len: 0,
            declared_labels: new_labels(),
            marks: Vec::new(),
            declared_macros: Vec::new(),
            undeclared_labels: Vec::new(),
            variable_sized_push: Vec::new(),
            evmgif_offset,
        };
        assert(assembler@.ready =~= Seq::empty());
        assert(assembler@.macros =~= Seq::empty());
        assert(assembler@.undeclared =~= Seq::empty());
        assert(assembler@.pushes =~= Seq::empty());
        assert(assembler@.sizes =~= Seq::empty());
        assert(assembler@.marks =~= Seq::empty());
        assembler
    }

    /// What is known of `label`: `None` where it was never declared.
    pub fn declared_label(&self, label: &str) -> (def: Option<Option<LabelDef>>)
        ensures
            def == labels::label_lookup(self@.labels, label@),
    {
        get_label(&self.declared_labels, label)
    }

    /// The number of labels that were declared.
    pub fn declared_label_count(&self) -> (count: usize)
        ensures
            count == self@.labels.len(),
    {
        count_labels(&self.declared_labels)
    }

    /// Puts an item behind the others.
    fn accept(&mut self, item: Item, size: usize) -> (result: Result<(), Failure>)
        ensures
            state::accepted(old(self)@, item@, size as nat) == (Outcome {
                state: final(self)@,
                failure: failure_of(result),
            }),
    {
        if size > usize::MAX - self.concrete_len {
            return Err(Failure::Fault(Fault::OffsetOverflow));
        }
        self.concrete_len = self.concrete_len + size;
        if let Item::Instruction(Instruction::Push(imm)) = &item {
            let push = PushDef::new(AbstractOp::Push(imm.clone()), self.ready.len());
            self.variable_sized_push.push(push);
            assert(self@.pushes =~= old(self)@.pushes.push(push@));
        }
        self.ready.push(Accepted { item, room: size });
        assert(self@.ready =~= old(self)@.ready.push(item@));
        assert(self@.sizes =~= old(self)@.sizes.push(size as nat));
        Ok(())
    }

    /// Declares a label at the current position.
    fn declare_label(&mut self, label: &String) -> (result: Result<(), Failure>)
        ensures
            state::label_declared(old(self)@, label@) == (Outcome {
                state: final(self)@,
                failure: failure_of(result),
            }),
    {
        if contains_label(&self.declared_labels, label.as_str()) {
            return Err(Failure::Error(Error::DuplicateLabel { label: label.clone() }));
        }
        self.undeclared_labels = remove_text(&self.undeclared_labels, label);
        self.marks.push((count_labels(&self.declared_labels), self.ready.len()));
        assert(self@.marks =~= old(self)@.marks.push(
            (old(self)@.labels.len(), old(self)@.ready.len()),
        ));
        insert_label(
            &mut self.declared_labels,
            label.clone(),
            Some(LabelDef::new(self.concrete_len)),
        );
        Ok(())
    }

    /// Accepts the directive `.org`.
    fn accept_org(&mut self, offset: usize) -> (result: Result<(), Failure>)
        ensures
            state::org_accepted(old(self)@, offset as nat) == (Outcome {
                state: final(self)@,
                failure: failure_of(result),
            }),
    {
        if offset < self.concrete_len {
            return Err(
                Failure::Error(Error::OrgRewind { offset, position: self.concrete_len }),
            );
        }
        self.ready.push(Accepted { item: Item::Org(offset), room: 0 });
        self.concrete_len = offset;
        assert(self@.ready =~= old(self)@.ready.push(ItemModel::Org(offset as nat)));
        assert(self@.sizes =~= old(self)@.sizes.push(0));
        Ok(())
    }

    /// Adds to the undeclared labels those of `used_labels` that were never declared.
    fn note_undeclared(&mut self, used_labels: &Vec<String>)
        ensures
            final(self)@ == (State {
                undeclared: state::with_undeclared(
                    old(self)@.undeclared,
                    ops::texts_of(used_labels@),
                    used_labels@.len(),
                    old(self)@.labels,
                ),
                ..old(self)@
            }),
    {
        let ghost texts = ops::texts_of(used_labels@);
        for i in 0..used_labels.len()
            invariant
                texts == ops::texts_of(used_labels@),
                self@ == (State {
                    undeclared: state::with_undeclared(
                        old(self)@.undeclared,
                        texts,
                        i as nat,
                        old(self)@.labels,
                    ),
                    ..old(self)@
                }),
        {
            let label = &used_labels[i];
            let ghost before = self@.undeclared;
            if !contains_text(&self.undeclared_labels, label) && !contains_label(
                &self.declared_labels,
                label.as_str(),
            ) {
                self.undeclared_labels.push(label.clone());
                assert(self@.undeclared =~= before.push(label@));
            }
        }
    }

    /// Accepts an instruction that refers to a label without a position.
    fn defer_instruction(&mut self, instruction: Instruction, used_labels: Vec<String>) -> (result:
        Result<(), Failure>)
        requires
            instruction@ is Op || instruction@ is Push,
        ensures
            state::instruction_deferred(
                old(self)@,
                instruction@,
                ops::texts_of(used_labels@),
            ) == (Outcome { state: final(self)@, failure: failure_of(result) }),
    {
        let size = match &instruction {
            Instruction::Op(op) => op.size(),
            // The narrowest push, since the value is not known yet.
            Instruction::Push(_) => 2,
        };
        self.accept(Item::Instruction(instruction), size)?;
        self.note_undeclared(&used_labels);
        Ok(())
    }

    /// Accepts an instruction.
    fn accept_instruction(&mut self, instruction: Instruction) -> (result: Result<(), Failure>)
        requires
            instruction@ is Op || instruction@ is Push,
        ensures
            state::instruction_accepted(old(self)@, instruction@) == (Outcome {
                state: final(self)@,
                failure: failure_of(result),
            }),
    {
        match instruction.concretize(&self.declared_labels, &self.declared_macros) {
            Ok(bytes) => self.accept(Item::Instruction(instruction), bytes.len()),
            Err(EncodeError::NoValue(EvalError::UnknownLabel { .. })) => match instruction.expr() {
                Some(expr) => match labels_of(expr, &self.declared_macros, NESTING_LIMIT) {
                    Ok(used_labels) => self.defer_instruction(instruction, used_labels),
                    Err(error) => Err(failure_without_value(error)),
                },
                None => vstd::pervasive::unreached(),
            },
            Err(error) => match instruction.expr() {
                Some(expr) => Err(failure_of_encoding(expr, error, &self.undeclared_labels)),
                None => vstd::pervasive::unreached(),
            },
        }
    }

    /// Whether `name` is no instruction macro, or one that takes `count` arguments.
    fn takes_arguments(&self, name: &String, count: usize) -> (takes: bool)
        ensures
            takes == state::takes_arguments(self@.macros, name@, count as nat),
    {
        match get_macro(&self.declared_macros, name) {
            Some(MacroDefinition::Instruction(definition)) => definition.parameters.len() == count,
            _ => true,
        }
    }

    /// Expands the macro `name` with the given arguments, one for each parameter of the macro, and
    /// returns the position behind it. The labels that were declared before stay where they are.
    fn expand_macro(
        &mut self,
        name: &String,
        parameters: &Vec<Expression>,
        nonces: &mut Nonces,
        depth: u64,
    ) -> (result: Result<Option<usize>, Failure>)
        requires
            state::takes_arguments(old(self)@.macros, name@, parameters@.len()),
        ensures
            result is Ok ==> result->Ok_0 is Some && result->Ok_0->0 == final(self)@.concrete_len,
            old(self)@.labels.is_prefix_of(final(self)@.labels),
            old(nonces).leads_to(final(nonces)),
            forall|draws: Seq<u64>|
                #[trigger] final(nonces)@.is_prefix_of(draws) ==> state::macro_expanded(
                    old(self)@,
                    old(nonces)@.len(),
                    name@,
                    expression::terms_of(parameters@),
                    draws,
                    depth as nat,
                ) == (Step {
                    state: final(self)@,
                    used: final(nonces)@.len(),
                    failure: failure_of(result),
                }),
        decreases depth, 0nat,
    {
        let ghost first = *nonces;
        proof {
            nonces::nonces_lead_nowhere(first);
        }
        let definition = match get_macro(&self.declared_macros, name) {
            Some(MacroDefinition::Instruction(definition)) => definition,
            _ => {
                return Err(
                    Failure::Error(Error::UndeclaredInstructionMacro { name: name.clone() }),
                );
            },
        };
        // The labels of each expansion have names of their own.
        let (table, contents) = match freshen(name, &definition.contents, nonces) {
            Ok(fresh) => fresh,
            Err(label) => {
                return Err(Failure::Error(Error::DuplicateLabel { label }));
            },
        };
        let ghost second = *nonces;
        let expanded = match instantiate(
            &contents,
            &table,
            &definition.parameters,
            parameters,
            &self.declared_macros,
        ) {
            Ok(expanded) => expanded,
            Err(failure) => {
                return Err(failure);
            },
        };
        if depth == 0 {
            return Err(Failure::Fault(Fault::EndlessMacro));
        }
        let result = self.push_ops(&expanded, nonces, depth - 1);
        proof {
            nonces::nonces_lead_on(first, second, *nonces);
            assert forall|draws: Seq<u64>| #[trigger]
                nonces@.is_prefix_of(draws) implies second@.is_prefix_of(draws) by {}
            assert(nonces@.is_prefix_of(nonces@));
            progress::macro_continues(
                old(self)@,
                first@.len(),
                name@,
                expression::terms_of(parameters@),
                nonces@,
                depth as nat,
            );
        }
        match result {
            Ok(()) => Ok(Some(self.concrete_len)),
            Err(failure) => Err(failure),
        }
    }

    /// Feeds a list of instructions into the `Assembler`.
    fn push_ops(&mut self, ops: &Vec<AbstractOp>, nonces: &mut Nonces, depth: u64) -> (result:
        Result<(), Failure>)
        ensures
            old(nonces).leads_to(final(nonces)),
            forall|draws: Seq<u64>|
                #[trigger] final(nonces)@.is_prefix_of(draws) ==> state::ops_pushed(
                    old(self)@,
                    old(nonces)@.len(),
                    ops::op_models(ops@),
                    ops@.len(),
                    draws,
                    depth as nat,
                ) == (Step {
                    state: final(self)@,
                    used: final(nonces)@.len(),
                    failure: failure_of(result),
                }),
        decreases depth, ops@.len() + 1,
    {
        let ghost models = ops::op_models(ops@);
        let ghost first = *nonces;
        let ghost start = self@;
        proof {
            nonces::nonces_lead_nowhere(first);
        }
        for i in 0..ops.len()
            invariant
                models == ops::op_models(ops@),
                first == *old(nonces),
                start == old(self)@,
                first.leads_to(nonces),
                forall|draws: Seq<u64>|
                    #[trigger] nonces@.is_prefix_of(draws) ==> state::ops_pushed(
                        start,
                        first@.len(),
                        models,
                        i as nat,
                        draws,
                        depth as nat,
                    ) == (Step { state: self@, used: nonces@.len(), failure: None }),
        {
            let ghost before = *nonces;
            let ghost state_before = self@;
            let result = self.push_op(&ops[i], nonces, depth);
            proof {
                nonces::nonces_lead_on(first, before, *nonces);
                assert forall|draws: Seq<u64>| #[trigger]
                    nonces@.is_prefix_of(draws) implies state::ops_pushed(
                    start,
                    first@.len(),
                    models,
                    (i + 1) as nat,
                    draws,
                    depth as nat,
                ) == (Step {
                    state: self@,
                    used: nonces@.len(),
                    failure: failure_of(result),
                }) by {
                    assert(before@.is_prefix_of(draws));
                    assert(models[i as int] == ops@[i as int]@);
                }
            }
            if let Err(failure) = result {
                proof {
                    assert forall|draws: Seq<u64>| #[trigger]
                        nonces@.is_prefix_of(draws) implies state::ops_pushed(
                        start,
                        first@.len(),
                        models,
                        models.len(),
                        draws,
                        depth as nat,
                    ) == (Step {
                        state: self@,
                        used: nonces@.len(),
                        failure: Some(failure@),
                    }) by {
                        ops_pushed_stops(
                            start,
                            first@.len(),
                            models,
                            (i + 1) as nat,
                            models.len(),
                            draws,
                            depth as nat,
                        );
                    }
                }
                return Err(failure);
            }
        }
        Ok(())
    }

    /// Feeds a single instruction into the `Assembler`.
    fn push_op(&mut self, op: &AbstractOp, nonces: &mut Nonces, depth: u64) -> (result: Result<
        (),
        Failure,
    >)
        ensures
            old(nonces).leads_to(final(nonces)),
            forall|draws: Seq<u64>|
                #[trigger] final(nonces)@.is_prefix_of(draws) ==> state::op_pushed(
                    old(self)@,
                    old(nonces)@.len(),
                    op@,
                    draws,
                    depth as nat,
                ) == (Step {
                    state: final(self)@,
                    used: final(nonces)@.len(),
                    failure: failure_of(result),
                }),
        decreases depth, 1nat,
    {
        proof {
            nonces::nonces_lead_nowhere(*nonces);
        }
        match op {
            AbstractOp::Label(label) => self.declare_label(label),
            AbstractOp::MacroDefinition(_) => Ok(()),
            AbstractOp::Macro(invocation) => {
                if !self.takes_arguments(&invocation.name, invocation.parameters.len()) {
                    return Err(Failure::Fault(Fault::ArgumentCount));
                }
                self.expand_macro(&invocation.name, &invocation.parameters, nonces, depth)?;
                Ok(())
            },
            AbstractOp::Org(offset) => self.accept_org(*offset),
            AbstractOp::Op(op) => self.accept_instruction(Instruction::Op(op.clone())),
            AbstractOp::Push(imm) => self.accept_instruction(Instruction::Push(imm.clone())),
        }
    }

    /// Defines the macros among `ops`.
    ///
    /// A macro can be used before its definition, in the same scope.
    fn declare_macros(&mut self, ops: &[RawOp]) -> (result: Result<(), Failure>)
        ensures
            state::macros_declared(old(self)@, ops::raw_models(ops@), ops@.len()) == (Outcome {
                state: final(self)@,
                failure: failure_of(result),
            }),
    {
        let ghost models = ops::raw_models(ops@);
        let ghost start = self@;
        for i in 0..ops.len()
            invariant
                models == ops::raw_models(ops@),
                start == old(self)@,
                state::macros_declared(start, models, i as nat) == (Outcome {
                    state: self@,
                    failure: None,
                }),
        {
            assert(models[i as int] == ops@[i as int]@);
            if let RawOp::Op(AbstractOp::MacroDefinition(definition)) = &ops[i] {
                if let Some(_) = get_macro(&self.declared_macros, definition.name()) {
                    proof {
                        macros_declared_stops(start, models, (i + 1) as nat, models.len());
                    }
                    return Err(
                        Failure::Error(Error::DuplicateMacro { name: definition.name().clone() }),
                    );
                }
                let ghost before = self@;
                self.declared_macros.push(definition.clone());
                assert(self@.macros =~= before.macros.push(definition@));
            }
        }
        Ok(())
    }

    /// The position of each item, and behind the last one.
    fn positions(&self) -> (result: Option<Vec<usize>>)
        ensures
            match result {
                Some(positions) => {
                    &&& state::positions_fit(self@.origin, self@.ready, self@.sizes)
                    &&& positions@.len() == self@.ready.len() + 1
                    &&& forall|k: int|
                        0 <= k <= self@.ready.len() ==> #[trigger] positions@[k]
                            == state::position_at(self@.origin, self@.ready, self@.sizes, k)
                },
                None => !state::positions_fit(self@.origin, self@.ready, self@.sizes),
            },
    {
        let mut positions: Vec<usize> = Vec::new();
        let mut position: usize = self.origin;
        positions.push(position);
        for i in 0..self.ready.len()
            invariant
                positions@.len() == i + 1,
                position == positions@[i as int],
                forall|k: int|
                    0 <= k <= i ==> #[trigger] positions@[k] == state::position_at(
                        self@.origin,
                        self@.ready,
                        self@.sizes,
                        k,
                    ),
        {
            assert(self@.ready[i as int] == self.ready@[i as int].item@);
            assert(self@.sizes[i as int] == self.ready@[i as int].room);
            assert(positions@[i as int] == state::position_at(
                self@.origin,
                self@.ready,
                self@.sizes,
                i as int,
            ));
            match &self.ready[i].item {
                Item::Org(offset) => {
                    position = *offset;
                },
                _ => {
                    let room = self.ready[i].room;
                    if room > usize::MAX - position {
                        assert(state::position_at(
                            self@.origin,
                            self@.ready,
                            self@.sizes,
                            i + 1,
                        ) > usize::MAX);
                        return None;
                    }
                    position = position + room;
                },
            }
            positions.push(position);
        }
        assert forall|k: int| 0 <= k <= self@.ready.len() implies #[trigger] state::position_at(
            self@.origin,
            self@.ready,
            self@.sizes,
            k,
        ) <= usize::MAX by {
            assert(positions@[k] == state::position_at(
                self@.origin,
                self@.ready,
                self@.sizes,
                k,
            ));
        }
        Some(positions)
    }

    /// Moves the labels of the program to where they stand.
    fn place_labels(&mut self) -> (result: Result<(), Failure>)
        ensures
            state::placed(old(self)@) == (Outcome {
                state: final(self)@,
                failure: failure_of(result),
            }),
            final(self).variable_sized_push == old(self).variable_sized_push,
            final(self).ready == old(self).ready,
    {
        let positions = match self.positions() {
            Some(positions) => positions,
            None => {
                return Err(Failure::Fault(Fault::OffsetOverflow));
            },
        };
        let ghost start = self@;
        let count = self.marks.len();
        for m in 0..count
            invariant
                start == old(self)@,
                count == self.marks@.len(),
                self.marks == old(self).marks,
                self.variable_sized_push == old(self).variable_sized_push,
                self.ready == old(self).ready,
                positions@.len() == start.ready.len() + 1,
                forall|k: int|
                    0 <= k <= start.ready.len() ==> #[trigger] positions@[k] == state::position_at(
                        start.origin,
                        start.ready,
                        start.sizes,
                        k,
                    ),
                self@ == (State { labels: state::labels_placed(start, m as nat), ..start }),
        {
            let (i, mark) = self.marks[m];
            assert(start.marks[m as int] == (i as nat, mark as nat));
            if i < count_labels(&self.declared_labels) && mark < positions.len() {
                let position = positions[mark];
                assert(positions@[mark as int] == position);
                let def = match label_def_at(&self.declared_labels, i) {
                    Some(def) => if def.position == position {
                        def
                    } else {
                        LabelDef { position, updated: true }
                    },
                    None => LabelDef { position, updated: true },
                };
                set_label_def_at(&mut self.declared_labels, i, Some(def));
            }
        }
        self.concrete_len = positions[positions.len() - 1];
        assert(positions@[start.ready.len() as int] == state::position_at(
            start.origin,
            start.ready,
            start.sizes,
            start.ready.len() as int,
        ));
        Ok(())
    }

    /// Gives the item at index `i` other room.
    fn set_room(&mut self, i: usize, room: usize)
        requires
            i < old(self)@.ready.len(),
        ensures
            final(self)@ == (State {
                sizes: old(self)@.sizes.update(i as int, room as nat),
                ..old(self)@
            }),
            final(self).variable_sized_push == old(self).variable_sized_push,
    {
        self.ready[i].room = room;
        assert(self@.ready =~= old(self)@.ready);
        assert(self@.sizes =~= old(self)@.sizes.update(i as int, room as nat));
    }

    /// Gives each push without a size of its own the room that it needs, one after the other, and
    /// moves the labels behind it. Says whether there was one that needed more.
    fn widen_pushes(&mut self) -> (result: Result<bool, Failure>)
        ensures
            state::pushes_widened(old(self)@, old(self)@.pushes.len()) == (Outcome {
                state: final(self)@,
                failure: match result {
                    Ok(_) => None,
                    Err(failure) => Some(failure@),
                },
            }),
            match result {
                Ok(changed) => changed == (final(self)@.sizes != old(self)@.sizes),
                Err(_) => true,
            },
    {
        let ghost start = self@;
        let mut changed = false;
        let count = self.variable_sized_push.len();
        for i in 0..count
            invariant
                start == old(self)@,
                count == old(self).variable_sized_push@.len(),
                self.variable_sized_push == old(self).variable_sized_push,
                state::pushes_widened(start, i as nat) == (Outcome { state: self@, failure: None }),
                changed == (self@.sizes != start.sizes),
        {
            let ghost before = self@;
            proof {
                state::widening_grows(start, i as nat);
            }
            assert(start.pushes[i as int] == self.variable_sized_push@[i as int]@);
            let item = self.variable_sized_push[i].position;
            let value = match &self.variable_sized_push[i].op {
                AbstractOp::Push(imm) => match evaluate(
                    &imm.tree,
                    &self.declared_labels,
                    &self.declared_macros,
                ) {
                    Ok(value) => Some(value),
                    Err(EvalError::TooDeep) => {
                        proof {
                            pushes_widened_stops(start, (i + 1) as nat, start.pushes.len());
                        }
                        return Err(Failure::Fault(Fault::EndlessMacro));
                    },
                    Err(_) => None,
                },
                _ => None,
            };
            if let Some(value) = value {
                let room = 1 + measure_width(&value);
                if item < self.ready.len() && self.ready[item].room < room {
                    assert(before.sizes[item as int] == self.ready@[item as int].room);
                    self.set_room(item, room);
                    let result = self.place_labels();
                    if let Err(failure) = result {
                        proof {
                            pushes_widened_stops(start, (i + 1) as nat, start.pushes.len());
                        }
                        return Err(failure);
                    }
                    changed = true;
                    proof {
                        let larger = before.sizes.update(item as int, room as nat);
                        assert(larger[item as int] != start.sizes[item as int]);
                    }
                }
            }
        }
        Ok(changed)
    }

    /// Makes room for the pushes without a size of their own, until sizes and labels agree.
    fn backpatch_labels(&mut self) -> (result: Result<(), Failure>)
        ensures
            state::backpatched(old(self)@) == (Outcome {
                state: final(self)@,
                failure: failure_of(result),
            }),
    {
        let ghost start = self@;
        loop
            invariant
                start == old(self)@,
                state::backpatched(self@) == state::backpatched(start),
            decreases state::slack(self@.sizes),
        {
            let ghost before = self@;
            proof {
                state::widening_grows(before, before.pushes.len());
            }
            let changed = self.widen_pushes()?;
            if !changed {
                return Ok(());
            }
            proof {
                state::growing_takes_slack(before.sizes, self@.sizes);
            }
        }
    }

    /// The bytes of the items, and the pushes among them that refer to labels, where the output
    /// goes into a GIF file.
    fn emit_bytecode(&self) -> (result: Result<(Vec<EvmGifPushRef>, Vec<u8>), Failure>)
        ensures
            match result {
                Ok((pushes, bytes)) => state::emitted(self@, self@.ready.len()) == (
                    refs_of(pushes@),
                    Ok::<Seq<u8>, FailureModel>(bytes@),
                ),
                Err(failure) => state::emitted(self@, self@.ready.len()).1 == Err::<
                    Seq<u8>,
                    FailureModel,
                >(failure@),
            },
    {
        let mut pushes: Vec<EvmGifPushRef> = Vec::new();
        let mut output: Vec<u8> = Vec::new();
        assert(refs_of(pushes@) =~= Seq::empty());
        assert(output@ =~= Seq::empty());
        for i in 0..self.ready.len()
            invariant
                state::emitted(self@, i as nat) == (
                    refs_of(pushes@),
                    Ok::<Seq<u8>, FailureModel>(output@),
                ),
        {
            assert(self@.ready[i as int] == self.ready@[i as int].item@);
            assert(self@.sizes[i as int] == self.ready@[i as int].room);
            let ghost pushes_before = refs_of(pushes@);
            let ghost output_before = output@;
            let failed = match &self.ready[i].item {
                Item::Raw(bytes) => {
                    output.extend_from_slice(bytes.as_slice());
                    assert(output@ =~= output_before + bytes@);
                    None
                },
                Item::Org(offset) => self.emit_org(*offset, &mut output),
                Item::Instruction(instruction) => self.emit_instruction(
                    i,
                    instruction,
                    &mut pushes,
                    &mut output,
                ),
            };
            assert(state::emitted(self@, (i + 1) as nat) == state::item_emitted(
                self@,
                i as nat,
                pushes_before,
                output_before,
            ));
            if let Some(failure) = failed {
                proof {
                    emitted_stops(self@, (i + 1) as nat, self@.ready.len());
                }
                return Err(failure);
            }
        }
        Ok((pushes, output))
    }

    /// Fills the output with zeros up to `offset`.
    fn emit_org(&self, offset: usize, output: &mut Vec<u8>) -> (failed: Option<Failure>)
        ensures
            ({
                let position = self@.origin + old(output)@.len();
                match failed {
                    Some(failure) => failure@ == if position > usize::MAX {
                        FailureModel::Fault(Fault::OffsetOverflow)
                    } else {
                        FailureModel::Error(
                            ErrorModel::OrgRewind { offset: offset as nat, position },
                        )
                    } && (position > usize::MAX || offset < position),
                    None => position <= offset && final(output)@ == old(output)@ + Seq::new(
                        (offset - position) as nat,
                        |i: int| 0u8,
                    ),
                }
            }),
    {
        if output.len() > usize::MAX - self.origin {
            return Some(Failure::Fault(Fault::OffsetOverflow));
        }
        let position = self.origin + output.len();
        if offset < position {
            return Some(Failure::Error(Error::OrgRewind { offset, position }));
        }
        let ghost before = output@;
        for i in 0..offset - position
            invariant
                output@ == before + Seq::new(i as nat, |i: int| 0u8),
        {
            output.push(0);
            assert(output@ =~= before + Seq::new((i + 1) as nat, |i: int| 0u8));
        }
        None
    }

    /// Puts the bytes of the instruction at index `item` behind the output.
    fn emit_instruction(
        &self,
        item: usize,
        instruction: &Instruction,
        pushes: &mut Vec<EvmGifPushRef>,
        output: &mut Vec<u8>,
    ) -> (failed: Option<Failure>)
        requires
            instruction@ is Op || instruction@ is Push,
            item < self@.ready.len(),
            self@.ready[item as int] == ItemModel::Instruction(instruction@),
        ensures
            state::item_emitted(
                self@,
                item as nat,
                refs_of(old(pushes)@),
                old(output)@,
            ) == (
                refs_of(final(pushes)@),
                match failed {
                    Some(failure) => Err::<Seq<u8>, FailureModel>(failure@),
                    None => Ok::<Seq<u8>, FailureModel>(final(output)@),
                },
            ),
    {
        let mut label_push: Option<Expression> = None;
        if self.evmgif_offset.is_some() {
            if let Some(expr) = instruction.expr() {
                match labels_of(expr, &self.declared_macros, NESTING_LIMIT) {
                    Ok(used_labels) => if used_labels.len() > 0 {
                        label_push = Some(expr.clone());
                    },
                    Err(EvalError::TooDeep) => {
                        return Some(Failure::Fault(Fault::EndlessMacro));
                    },
                    Err(_) => {},
                }
            }
        }
        assert(self@.sizes[item as int] == self.ready@[item as int].room);
        let mut bytes = match instruction.concretize_in(
            self.ready[item].room,
            &self.declared_labels,
            &self.declared_macros,
        ) {
            Ok(bytes) => bytes,
            Err(error) => match instruction.expr() {
                Some(expr) => {
                    return Some(failure_of_encoding(expr, error, &self.undeclared_labels));
                },
                None => vstd::pervasive::unreached(),
            },
        };
        if let Some(expr) = label_push {
            let ghost before = refs_of(pushes@);
            let resizable = match instruction {
                Instruction::Push(_) => true,
                Instruction::Op(_) => false,
            };
            let push = EvmGifPushRef {
                item,
                resizable,
                unchunked_op_pos: output.len(),
                imm_size: bytes.len() - 1,
                expr,
            };
            pushes.push(push);
            assert(refs_of(pushes@) =~= before.push(push@));
        }
        output.append(&mut bytes);
        None
    }

    /// Moves the labels of the program to their positions in a GIF file.
    fn relocate_labels(&mut self, position_map: &HashMap<usize, usize>, offset: u64) -> (failed:
        Option<Fault>)
        ensures
            ({
                let (entries, fault) = state::relocated(
                    old(self)@,
                    old(self)@.marks.len(),
                    position_map@,
                    offset,
                );
                &&& fault == failed
                &&& final(self)@ == (State { labels: entries, ..old(self)@ })
            }),
    {
        broadcast use vstd::std_specs::hash::group_hash_axioms;

        let count = self.marks.len();
        let ghost start = self@;
        let ghost map = position_map@;
        for m in 0..count
            invariant
                start == old(self)@,
                map == position_map@,
                count == self.marks@.len(),
                self.marks == old(self).marks,
                state::relocated(start, m as nat, map, offset) == (self@.labels, None::<Fault>),
                self@ == (State { labels: self@.labels, ..start }),
        {
            let (i, mark) = self.marks[m];
            assert(start.marks[m as int] == (i as nat, mark as nat));
            if i < count_labels(&self.declared_labels) {
                if let Some(def) = label_def_at(&self.declared_labels, i) {
                    if def.position < self.origin {
                        proof {
                            relocated_stops(start, (m + 1) as nat, count as nat, map, offset);
                        }
                        return Some(Fault::LabelInsideInstruction);
                    }
                    let at = def.position - self.origin;
                    let position = match position_map.get(&at) {
                        Some(position) => *position,
                        None => {
                            proof {
                                relocated_stops(start, (m + 1) as nat, count as nat, map, offset);
                            }
                            return Some(Fault::LabelInsideInstruction);
                        },
                    };
                    if offset > (usize::MAX - position) as u64 {
                        proof {
                            relocated_stops(start, (m + 1) as nat, count as nat, map, offset);
                        }
                        return Some(Fault::OffsetOverflow);
                    }
                    set_label_def_at(
                        &mut self.declared_labels,
                        i,
                        Some(LabelDef { position: position + offset as usize, updated: true }),
                    );
                }
            }
        }
        None
    }

    /// The room that the items need, where those of `pushes` whose size the assembler chooses have
    /// the values of labels in a GIF file. Gives it to them, and says whether it is more.
    fn widen_for_gif(&mut self, pushes: &Vec<EvmGifPushRef>) -> (changed: bool)
        ensures
            final(self)@ == (State {
                sizes: state::sizes_widened(old(self)@, refs_of(pushes@), pushes@.len()),
                ..old(self)@
            }),
            changed == (final(self)@.sizes != old(self)@.sizes),
    {
        let ghost start = self@;
        let ghost models = refs_of(pushes@);
        let mut changed = false;
        for i in 0..pushes.len()
            invariant
                start == old(self)@,
                models == refs_of(pushes@),
                self@ == (State {
                    sizes: state::sizes_widened(start, models, i as nat),
                    ..start
                }),
                changed == (self@.sizes != start.sizes),
        {
            let ghost before = self@;
            proof {
                state::widening_for_gif_grows(start, models, i as nat);
            }
            assert(models[i as int] == pushes@[i as int]@);
            let push = &pushes[i];
            match evaluate(&push.expr, &self.declared_labels, &self.declared_macros) {
                Ok(value) => {
                    let room = 1 + measure_width(&value);
                    if push.resizable && push.item < self.ready.len() && self.ready[push.item].room
                        < room {
                        assert(before.sizes[push.item as int]
                            == self.ready@[push.item as int].room);
                        self.set_room(push.item, room);
                        changed = true;
                        assert(self@.sizes[push.item as int] != start.sizes[push.item as int]);
                    }
                },
                Err(_) => {},
            }
        }
        changed
    }

    /// Writes the immediate of a push anew, now that the labels have their positions in a GIF
    /// file.
    fn patch_push(
        &self,
        push: &EvmGifPushRef,
        position_map: &HashMap<usize, usize>,
        chunked: &mut Vec<u8>,
    ) -> (failed: Option<Failure>)
        ensures
            state::push_patched(
                self@,
                old(chunked)@,
                push@,
                position_map@,
            ) == match failed {
                Some(failure) => Err::<Seq<u8>, FailureModel>(failure@),
                None => Ok::<Seq<u8>, FailureModel>(final(chunked)@),
            },
    {
        broadcast use vstd::std_specs::hash::group_hash_axioms;

        let value = match evaluate(&push.expr, &self.declared_labels, &self.declared_macros) {
            Ok(value) => value,
            Err(error) => {
                return Some(
                    failure_of_encoding(
                        &push.expr,
                        EncodeError::NoValue(error),
                        &self.undeclared_labels,
                    ),
                );
            },
        };
        let (negative, digits) = value.to_bytes_be();
        if negative {
            return Some(
                failure_of_encoding(
                    &push.expr,
                    EncodeError::Negative { value },
                    &self.undeclared_labels,
                ),
            );
        }
        if digits.len() > push.imm_size {
            return Some(
                Failure::Error(
                    Error::EvmGifPushOverflow {
                        expr: push.expr.clone(),
                        value,
                        push_size: push.imm_size,
                    },
                ),
            );
        }
        let op_pos = match position_map.get(&push.unchunked_op_pos) {
            Some(position) => *position,
            None => {
                return Some(Failure::Fault(Fault::PushInsideInstruction));
            },
        };
        if op_pos >= chunked.len() || push.imm_size > chunked.len() - op_pos - 1 {
            return Some(Failure::Fault(Fault::PushInsideInstruction));
        }
        let ghost before = chunked@;
        let ghost immediate = encode::padded(digits@, push.imm_size as nat);
        let pad = push.imm_size - digits.len();
        for i in 0..push.imm_size
            invariant
                pad == push.imm_size - digits@.len(),
                digits@.len() <= push.imm_size,
                immediate == encode::padded(digits@, push.imm_size as nat),
                op_pos + 1 + push.imm_size <= before.len() <= usize::MAX,
                chunked@.len() == before.len(),
                forall|j: int|
                    0 <= j < before.len() ==> #[trigger] chunked@[j] == if op_pos < j <= op_pos + i {
                        immediate[j - op_pos - 1]
                    } else {
                        before[j]
                    },
        {
            let byte = if i < pad {
                0
            } else {
                digits[i - pad]
            };
            chunked[op_pos + 1 + i] = byte;
        }
        assert(chunked@ =~= state::spliced(before, op_pos + 1, immediate));
        None
    }

    /// Puts the program `unchunked` into the layout that a GIF file carries, at `offset`. Where a
    /// push whose size the assembler chooses needs more room there, gives it that room and returns
    /// nothing: the program is then to be emitted again.
    fn evmgif_chunkify(
        &mut self,
        unchunked: Vec<u8>,
        pushes: Vec<EvmGifPushRef>,
        offset: u64,
    ) -> (result: Result<Option<Vec<u8>>, Failure>)
        ensures
            ({
                let models = refs_of(pushes@);
                let in_gif = state::moved_to_gif(old(self)@, unchunked@, offset);
                let sizes = state::sizes_widened(in_gif.state, models, models.len());
                if in_gif.failure is Some || sizes == in_gif.state.sizes {
                    &&& state::chunkified(old(self)@, unchunked@, models, offset) == (Emission {
                        state: final(self)@,
                        result: match result {
                            Ok(Some(bytes)) => Ok(bytes@),
                            Ok(None) => Ok(Seq::empty()),
                            Err(failure) => Err(failure@),
                        },
                    })
                    &&& !(result matches Ok(None))
                } else {
                    &&& state::resized(in_gif.state, sizes) == (Outcome {
                        state: final(self)@,
                        failure: match result {
                            Ok(_) => None,
                            Err(failure) => Some(failure@),
                        },
                    })
                    &&& !(result matches Ok(Some(_)))
                }
            }),
    {
        // The entry point is the only JUMPDEST that has a place in the first header, so the
        // program must start with one.
        if unchunked.len() == 0 {
            return Err(Failure::Error(Error::EvmGifFirstNotJumpdest { actual: None }));
        }
        if unchunked[0] != JUMPDEST {
            return Err(
                Failure::Error(Error::EvmGifFirstNotJumpdest { actual: Some(unchunked[0]) }),
            );
        }
        let instr_starts = decode_instruction_starts(unchunked.as_slice());
        proof {
            evmgif::instructions_ascend(unchunked@);
            evmgif::headers_ascend(instr_starts@, unchunked@.len() as int);
        }
        let boundaries = plan_chunks(instr_starts.as_slice(), unchunked.len());
        let headers = boundaries.header_at.len();
        if headers > (usize::MAX - 11) / 3 || unchunked.len() > usize::MAX - 11 - 3 * headers {
            return Err(Failure::Fault(Fault::OffsetOverflow));
        }
        let position_map = build_position_map(instr_starts.as_slice(), &boundaries);
        if let Some(fault) = self.relocate_labels(&position_map, offset) {
            return Err(Failure::Fault(fault));
        }
        if self.widen_for_gif(&pushes) {
            self.place_labels()?;
            return Ok(None);
        }
        let mut chunked = assemble_chunked(unchunked.as_slice(), &boundaries);
        let ghost models = refs_of(pushes@);
        let ghost plain = chunked@;
        let ghost map = position_map@;
        let ghost in_gif = self@;
        assert(in_gif == state::moved_to_gif(old(self)@, unchunked@, offset).state);
        for i in 0..pushes.len()
            invariant
                models == refs_of(pushes@),
                map == position_map@,
                in_gif == self@,
                in_gif == state::moved_to_gif(old(self)@, unchunked@, offset).state,
                state::moved_to_gif(old(self)@, unchunked@, offset).failure is None,
                plain == evmgif::packed(unchunked@),
                map == evmgif::map_of(unchunked@),
                state::sizes_widened(in_gif, models, models.len()) == in_gif.sizes,
                state::patched(in_gif, plain, models, i as nat, map) == Ok::<
                    Seq<u8>,
                    FailureModel,
                >(chunked@),
        {
            assert(models[i as int] == pushes@[i as int]@);
            if let Some(failure) = self.patch_push(&pushes[i], &position_map, &mut chunked) {
                proof {
                    patched_stops(in_gif, plain, models, (i + 1) as nat, models.len(), map);
                }
                return Err(failure);
            }
        }
        Ok(Some(chunked))
    }

    /// Makes room for the pushes without a size of their own, and emits the program.
    fn backpatch_and_emit(&mut self) -> (result: Result<Vec<u8>, Failure>)
        ensures
            state::finished(old(self)@) == (Emission {
                state: final(self)@,
                result: bytes_of(result),
            }),
    {
        if self.undeclared_labels.len() > 0 {
            return Err(
                Failure::Error(
                    Error::UndeclaredLabels { labels: copy_strings(&self.undeclared_labels) },
                ),
            );
        }
        let ghost start = self@;
        loop
            invariant
                start == old(self)@,
                start.undeclared.len() == 0,
                state::laid_out(self@) == state::laid_out(start),
            decreases state::slack(self@.sizes),
        {
            let ghost before = self@;
            proof {
                state::backpatching_grows(before);
                state::growing_takes_slack(
                    before.sizes,
                    state::backpatched(before).state.sizes,
                );
            }
            self.backpatch_labels()?;
            let ghost plain = self@;
            let (pushes, output) = self.emit_bytecode()?;
            let offset = match self.evmgif_offset {
                Some(offset) => offset,
                None => {
                    return Ok(output);
                },
            };
            proof {
                let models = refs_of(pushes@);
                let in_gif = state::moved_to_gif(plain, output@, offset);
                state::widening_for_gif_grows(in_gif.state, models, models.len());
                state::growing_takes_slack(
                    in_gif.state.sizes,
                    state::sizes_widened(in_gif.state, models, models.len()),
                );
            }
            let result = self.evmgif_chunkify(output, pushes, offset)?;
            if let Some(bytes) = result {
                return Ok(bytes);
            }
        }
    }

    /// Feeds a single item into the `Assembler`, and returns the position behind it.
    fn push(&mut self, rop: &RawOp, nonces: &mut Nonces) -> (result: Result<usize, Failure>)
        ensures
            result is Ok ==> result->Ok_0 == final(self)@.concrete_len,
            old(nonces).leads_to(final(nonces)),
            forall|draws: Seq<u64>|
                #[trigger] final(nonces)@.is_prefix_of(draws) ==> state::raw_pushed(
                    old(self)@,
                    old(nonces)@.len(),
                    rop@,
                    draws,
                ) == (Step {
                    state: final(self)@,
                    used: final(nonces)@.len(),
                    failure: failure_of(result),
                }),
        decreases rop, 0nat,
    {
        proof {
            nonces::nonces_lead_nowhere(*nonces);
        }
        match rop {
            RawOp::Op(op) => self.push_op(op, nonces, NESTING_LIMIT)?,
            RawOp::Raw(raw) => {
                let mut bytes: Vec<u8> = Vec::new();
                bytes.extend_from_slice(raw.as_slice());
                assert(bytes@ =~= raw@);
                self.accept(Item::Raw(bytes), raw.len())?
            },
            RawOp::Scope(scope) => {
                let mut inner = Assembler::new();
                let bytes = inner.assemble_with(scope.as_slice(), nonces)?;
                let size = bytes.len();
                self.accept(Item::Raw(bytes), size)?
            },
        }
        Ok(self.concrete_len)
    }

    /// Feeds a list of items into the `Assembler`.
    fn push_all(&mut self, ops: &[RawOp], nonces: &mut Nonces) -> (result: Result<(), Failure>)
        ensures
            old(nonces).leads_to(final(nonces)),
            forall|draws: Seq<u64>|
                #[trigger] final(nonces)@.is_prefix_of(draws) ==> state::raws_pushed(
                    old(self)@,
                    old(nonces)@.len(),
                    ops::raw_models(ops@),
                    ops@.len(),
                    draws,
                ) == (Step {
                    state: final(self)@,
                    used: final(nonces)@.len(),
                    failure: failure_of(result),
                }),
        decreases ops@, 0nat,
    {
        let ghost models = ops::raw_models(ops@);
        let ghost first = *nonces;
        let ghost start = self@;
        proof {
            nonces::nonces_lead_nowhere(first);
        }
        for i in 0..ops.len()
            invariant
                models == ops::raw_models(ops@),
                first == *old(nonces),
                start == old(self)@,
                first.leads_to(nonces),
                forall|draws: Seq<u64>|
                    #[trigger] nonces@.is_prefix_of(draws) ==> state::raws_pushed(
                        start,
                        first@.len(),
                        models,
                        i as nat,
                        draws,
                    ) == (Step { state: self@, used: nonces@.len(), failure: None }),
        {
            let ghost before = *nonces;
            let result = self.push(&ops[i], nonces);
            proof {
                nonces::nonces_lead_on(first, before, *nonces);
                assert forall|draws: Seq<u64>| #[trigger]
                    nonces@.is_prefix_of(draws) implies state::raws_pushed(
                    start,
                    first@.len(),
                    models,
                    (i + 1) as nat,
                    draws,
                ) == (Step {
                    state: self@,
                    used: nonces@.len(),
                    failure: failure_of(result),
                }) by {
                    assert(before@.is_prefix_of(draws));
                    assert(models[i as int] == ops@[i as int]@);
                }
            }
            if let Err(failure) = result {
                proof {
                    assert forall|draws: Seq<u64>| #[trigger]
                        nonces@.is_prefix_of(draws) implies state::raws_pushed(
                        start,
                        first@.len(),
                        models,
                        models.len(),
                        draws,
                    ) == (Step {
                        state: self@,
                        used: nonces@.len(),
                        failure: Some(failure@),
                    }) by {
                        raws_pushed_stops(
                            start,
                            first@.len(),
                            models,
                            (i + 1) as nat,
                            models.len(),
                            draws,
                        );
                    }
                }
                return Err(failure);
            }
        }
        Ok(())
    }

    /// Feeds instructions into the `Assembler`, where the names of local labels are made from the
    /// given numbers.
    ///
    /// Returns the code of the assembled program. Where the program is unfit for the assembler, it
    /// says so in a [`Failure::Fault`].
    pub fn assemble_with(&mut self, ops: &[RawOp], nonces: &mut Nonces) -> (result: Result<
        Vec<u8>,
        Failure,
    >)
        ensures
            old(nonces).leads_to(final(nonces)),
            forall|draws: Seq<u64>|
                #[trigger] final(nonces)@.is_prefix_of(draws) ==> state::assembled(
                    old(self)@,
                    old(nonces)@.len(),
                    ops::raw_models(ops@),
                    draws,
                ) == (Assembly {
                    state: final(self)@,
                    used: final(nonces)@.len(),
                    result: bytes_of(result),
                }),
        decreases ops@, 1nat,
    {
        proof {
            nonces::nonces_lead_nowhere(*nonces);
        }
        self.declare_macros(ops)?;
        self.push_all(ops, nonces)?;
        let output = self.backpatch_and_emit()?;
        self.ready.clear();
        self.marks.clear();
        self.variable_sized_push.clear();
        self.origin = self.concrete_len;
        assert(self@.ready =~= Seq::empty());
        assert(self@.sizes =~= Seq::empty());
        assert(self@.marks =~= Seq::empty());
        assert(self@.pushes =~= Seq::empty());
        Ok(output)
    }

    /// Feed instructions into the `Assembler`.
    ///
    /// Returns the code of the assembled program. The names of local labels are made from random
    /// numbers.
    pub fn assemble(&mut self, ops: &[RawOp]) -> (result: Result<Vec<u8>, Error>)
        requires
            forall|draws: Seq<u64>|
                !state::is_fault(
                    (#[trigger] state::assembled(
                        old(self)@,
                        0,
                        ops::raw_models(ops@),
                        draws,
                    )).result,
                ),
        ensures
            exists|draws: Seq<u64>|
                {
                    let assembly = #[trigger] state::assembled(
                        old(self)@,
                        0,
                        ops::raw_models(ops@),
                        draws,
                    );
                    &&& final(self)@ == assembly.state
                    &&& assembly.result == match result {
                        Ok(bytes) => Ok::<Seq<u8>, FailureModel>(bytes@),
                        Err(error) => Err::<Seq<u8>, FailureModel>(FailureModel::Error(error@)),
                    }
                },
    {
        let mut nonces = Nonces::random();
        let result = self.assemble_with(ops, &mut nonces);
        assert(nonces@.is_prefix_of(nonces@));
        let ghost assembly = state::assembled(old(self)@, 0, ops::raw_models(ops@), nonces@);
        match result {
            Ok(bytes) => Ok(bytes),
            Err(Failure::Error(error)) => Err(error),
            Err(Failure::Fault(_)) => vstd::pervasive::unreached(),
        }
    }
}

impl Default for Assembler {
    fn default() -> (assembler: Self)
        ensures
            assembler@ == state::new_state(None),
    {
        Assembler::new()
    }
}

} // verus!
