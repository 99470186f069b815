//! The instructions, labels, directives and macros that a program is made of.

use vstd::prelude::*;

use crate::expression;
use crate::expression::{
    copy_expressions, Expression, ExpressionMacroInvocation, Term, Terminal,
};
use crate::opcode;

verus! {

/// The immediate argument of a push.
#[derive(Debug, PartialEq, Eq)]
pub struct Imm {
    /// The expression whose value is pushed.
    pub tree: Expression,
}

/// An instruction of the Ethereum virtual machine.
#[derive(Debug, PartialEq, Eq)]
pub struct Op {
    code: u8,
    immediate: Option<Imm>,
}

/// The definition of a macro that stands for a list of instructions.
#[derive(Debug, PartialEq, Eq)]
pub struct InstructionMacroDefinition {
    /// The name of the macro.
    pub name: String,
    /// The names of the parameters.
    pub parameters: Vec<String>,
    /// What an invocation expands to.
    pub contents: Vec<AbstractOp>,
}

/// The definition of a macro that stands for an expression.
#[derive(Debug, PartialEq, Eq)]
pub struct ExpressionMacroDefinition {
    /// The name of the macro.
    pub name: String,
    /// The names of the parameters.
    pub parameters: Vec<String>,
    /// The expression whose value an invocation has.
    pub content: Imm,
}

/// The definition of a macro.
#[derive(Debug, PartialEq, Eq)]
pub enum MacroDefinition {
    /// A macro that stands for a list of instructions.
    Instruction(InstructionMacroDefinition),
    /// A macro that stands for an expression.
    Expression(ExpressionMacroDefinition),
}

/// The use of an instruction macro.
#[derive(Debug, PartialEq, Eq)]
pub struct InstructionMacroInvocation {
    /// The name of the macro.
    pub name: String,
    /// The arguments, one for each parameter of the macro.
    pub parameters: Vec<Expression>,
}

/// An instruction, or something that takes the place of one in a program.
#[derive(Debug, PartialEq, Eq)]
pub enum AbstractOp {
    /// A real instruction.
    Op(Op),
    /// The declaration of a label.
    Label(String),
    /// A push without a size of its own: the assembler makes it as wide as its value needs.
    ///
    /// Where it refers to labels, its value can change while other pushes get wider and labels
    /// move. A push never gets narrower again: it stays wider than its last value needs, with zeros
    /// in front of the value, where that value takes up fewer bytes than an earlier one did.
    Push(Imm),
    /// The definition of a macro.
    MacroDefinition(MacroDefinition),
    /// The use of an instruction macro.
    Macro(InstructionMacroInvocation),
    /// The directive `.org`: the code behind it starts at the given offset.
    Org(usize),
}

/// An item to be assembled, which can be either an [`AbstractOp`],
/// the inclusion of a new scope or a raw byte sequence.
#[derive(Debug, PartialEq, Eq)]
pub enum RawOp {
    /// An instruction to be assembled.
    Op(AbstractOp),
    /// A new scope to be created with its corresponding list of operations.
    Scope(Vec<RawOp>),
    /// Raw bytes to be placed verbatim in the output.
    Raw(Vec<u8>),
}

/// An [`AbstractOp`] as a mathematical value.
pub enum OpModel {
    Op { code: u8, immediate: Option<Term> },
    Label(Seq<char>),
    Push(Term),
    MacroDefinition(MacroModel),
    Macro(Seq<char>, Seq<Term>),
    Org(nat),
}

/// A [`MacroDefinition`] as a mathematical value.
pub enum MacroModel {
    Instruction { name: Seq<char>, parameters: Seq<Seq<char>>, contents: Seq<OpModel> },
    Expression { name: Seq<char>, parameters: Seq<Seq<char>>, content: Term },
}

/// A [`RawOp`] as a mathematical value.
pub enum RawModel {
    Op(OpModel),
    Scope(Seq<RawModel>),
    Raw(Seq<u8>),
}

impl MacroModel {
    /// The name of the macro.
    pub open spec fn macro_name(self) -> Seq<char> {
        match self {
            MacroModel::Instruction { name, .. } => name,
            MacroModel::Expression { name, .. } => name,
        }
    }
}

/// The texts of `strings`.
pub open spec fn texts_of(strings: Seq<String>) -> Seq<Seq<char>> {
    Seq::new(strings.len(), |i: int| strings[i]@)
}

impl View for Imm {
    type V = Term;

    open spec fn view(&self) -> Term {
        self.tree@
    }
}

/// The immediate of an instruction, as a term.
pub open spec fn immediate_model(immediate: Option<Imm>) -> Option<Term> {
    match immediate {
        Some(imm) => Some(imm@),
        None => None,
    }
}

/// The model of `op`.
pub open spec fn op_model(op: AbstractOp) -> OpModel
    decreases op,
{
    match op {
        AbstractOp::Op(op) => op@,
        AbstractOp::Label(label) => OpModel::Label(label@),
        AbstractOp::Push(imm) => OpModel::Push(imm@),
        AbstractOp::MacroDefinition(definition) => OpModel::MacroDefinition(
            macro_model(definition),
        ),
        AbstractOp::Macro(invocation) => OpModel::Macro(
            invocation.name@,
            expression::terms_of(invocation.parameters@),
        ),
        AbstractOp::Org(offset) => OpModel::Org(offset as nat),
    }
}

/// The models of `ops`.
pub open spec fn op_models(ops: Seq<AbstractOp>) -> Seq<OpModel>
    decreases ops,
{
    Seq::new(
        ops.len(),
        |i: int|
            if 0 <= i < ops.len() {
                op_model(ops[i])
            } else {
                arbitrary()
            },
    )
}

/// The model of `definition`.
pub open spec fn macro_model(definition: MacroDefinition) -> MacroModel
    decreases definition,
{
    match definition {
        MacroDefinition::Instruction(definition) => MacroModel::Instruction {
            name: definition.name@,
            parameters: texts_of(definition.parameters@),
            contents: op_models(definition.contents@),
        },
        MacroDefinition::Expression(definition) => MacroModel::Expression {
            name: definition.name@,
            parameters: texts_of(definition.parameters@),
            content: definition.content@,
        },
    }
}

/// The models of `definitions`.
pub open spec fn macro_models(definitions: Seq<MacroDefinition>) -> Seq<MacroModel> {
    Seq::new(definitions.len(), |i: int| macro_model(definitions[i]))
}

/// The model of `op`.
pub open spec fn raw_model(op: RawOp) -> RawModel
    decreases op,
{
    match op {
        RawOp::Op(op) => RawModel::Op(op_model(op)),
        RawOp::Scope(ops) => RawModel::Scope(raw_models(ops@)),
        RawOp::Raw(bytes) => RawModel::Raw(bytes@),
    }
}

/// The models of `ops`.
pub open spec fn raw_models(ops: Seq<RawOp>) -> Seq<RawModel>
    decreases ops,
{
    Seq::new(
        ops.len(),
        |i: int|
            if 0 <= i < ops.len() {
                raw_model(ops[i])
            } else {
                arbitrary()
            },
    )
}

impl View for Op {
    type V = OpModel;

    open spec fn view(&self) -> OpModel {
        OpModel::Op { code: self.opcode(), immediate: self.operand() }
    }
}

impl View for AbstractOp {
    type V = OpModel;

    open spec fn view(&self) -> OpModel {
        op_model(*self)
    }
}

impl View for MacroDefinition {
    type V = MacroModel;

    open spec fn view(&self) -> MacroModel {
        macro_model(*self)
    }
}

impl View for RawOp {
    type V = RawModel;

    open spec fn view(&self) -> RawModel {
        raw_model(*self)
    }
}

impl Imm {
    /// The immediate whose value is the offset of `label`.
    pub fn with_label(label: &str) -> (imm: Self)
        ensures
            imm@ == Term::Label(label@),
    {
        Imm { tree: Expression::Terminal(Terminal::Label(label.to_owned())) }
    }

    /// The immediate whose value is that of the variable `name`.
    pub fn with_variable(name: &str) -> (imm: Self)
        ensures
            imm@ == Term::Variable(name@),
    {
        Imm { tree: Expression::Terminal(Terminal::Variable(name.to_owned())) }
    }

    /// The immediate whose value is that of `tree`.
    pub fn with_expression(tree: Expression) -> (imm: Self)
        ensures
            imm@ == tree@,
    {
        Imm { tree }
    }

    /// The immediate whose value is that of an expression macro.
    pub fn with_macro(invocation: ExpressionMacroInvocation) -> (imm: Self)
        ensures
            imm@ == Term::Macro(invocation.name@, expression::terms_of(invocation.parameters@)),
    {
        Imm { tree: Expression::Macro(invocation) }
    }
}

impl Clone for Imm {
    fn clone(&self) -> (copy: Self)
        ensures
            copy@ == self@,
    {
        Imm { tree: self.tree.clone() }
    }
}

impl Op {
    /// The opcode.
    pub closed spec fn opcode(&self) -> u8 {
        self.code
    }

    /// The immediate.
    pub closed spec fn operand(&self) -> Option<Term> {
        immediate_model(self.immediate)
    }

    #[verifier::type_invariant]
    spec fn inv(self) -> bool {
        self.immediate is Some <==> opcode::immediate_len(self.code) > 0
    }

    /// The instruction with this opcode, where it takes no immediate.
    pub fn new(code: u8) -> (op: Option<Self>)
        ensures
            match op {
                Some(op) => opcode::immediate_len(code) == 0 && op@ == (OpModel::Op {
                    code,
                    immediate: None,
                }),
                None => opcode::immediate_len(code) > 0,
            },
    {
        if opcode::size_of_instruction(code) == 1 {
            Some(Op { code, immediate: None })
        } else {
            None
        }
    }

    /// The instruction with this opcode and immediate, where it takes one.
    pub fn with_immediate(code: u8, imm: Imm) -> (op: Option<Self>)
        ensures
            match op {
                Some(op) => opcode::immediate_len(code) > 0 && op@ == (OpModel::Op {
                    code,
                    immediate: Some(imm@),
                }),
                None => opcode::immediate_len(code) == 0,
            },
    {
        if opcode::size_of_instruction(code) > 1 {
            Some(Op { code, immediate: Some(imm) })
        } else {
            None
        }
    }

    /// The opcode.
    pub fn code(&self) -> (code: u8)
        ensures
            code == self.opcode(),
    {
        self.code
    }

    /// The immediate, which the pushes have and the other instructions do not.
    pub fn immediate(&self) -> (imm: Option<&Imm>)
        ensures
            match imm {
                Some(imm) => self.operand() == Some(imm@),
                None => self.operand() is None,
            },
            imm is Some <==> opcode::immediate_len(self.opcode()) > 0,
    {
        proof {
            use_type_invariant(self);
        }
        self.immediate.as_ref()
    }

    /// The same push of another immediate.
    pub(crate) fn push_instead(&self, imm: Imm) -> (op: Self)
        requires
            self.operand() is Some,
        ensures
            op@ == (OpModel::Op { code: self.opcode(), immediate: Some(imm@) }),
    {
        proof {
            use_type_invariant(self);
        }
        Op { code: self.code, immediate: Some(imm) }
    }

    /// The encoded size of the instruction.
    pub fn size(&self) -> (size: usize)
        ensures
            size == opcode::instruction_size(self.opcode()),
    {
        opcode::size_of_instruction(self.code)
    }
}

impl Clone for Op {
    fn clone(&self) -> (copy: Self)
        ensures
            copy@ == self@,
    {
        proof {
            use_type_invariant(self);
        }
        let immediate = match &self.immediate {
            Some(imm) => Some(imm.clone()),
            None => None,
        };
        Op { code: self.code, immediate }
    }
}

/// A copy of each of `strings`.
pub(crate) fn copy_strings(strings: &Vec<String>) -> (copies: Vec<String>)
    ensures
        texts_of(copies@) == texts_of(strings@),
{
    let mut copies: Vec<String> = Vec::new();
    for i in 0..strings.len()
        invariant
            copies@.len() == i,
            texts_of(copies@) == texts_of(strings@).take(i as int),
    {
        copies.push(strings[i].clone());
        assert(texts_of(copies@) =~= texts_of(strings@).take(i + 1));
    }
    assert(texts_of(strings@).take(strings@.len() as int) =~= texts_of(strings@));
    copies
}

fn copy_op(op: &AbstractOp) -> (copy: AbstractOp)
    ensures
        copy@ == op@,
    decreases op,
{
    match op {
        AbstractOp::Op(op) => AbstractOp::Op(op.clone()),
        AbstractOp::Label(label) => AbstractOp::Label(label.clone()),
        AbstractOp::Push(imm) => AbstractOp::Push(imm.clone()),
        AbstractOp::MacroDefinition(definition) => AbstractOp::MacroDefinition(
            copy_macro(definition),
        ),
        AbstractOp::Macro(invocation) => AbstractOp::Macro(invocation.clone()),
        AbstractOp::Org(offset) => AbstractOp::Org(*offset),
    }
}

fn copy_macro(definition: &MacroDefinition) -> (copy: MacroDefinition)
    ensures
        copy@ == definition@,
    decreases definition,
{
    match definition {
        MacroDefinition::Instruction(definition) => {
            let contents = copy_ops(&definition.contents);
            MacroDefinition::Instruction(
                InstructionMacroDefinition {
                    name: definition.name.clone(),
                    parameters: copy_strings(&definition.parameters),
                    contents,
                },
            )
        },
        MacroDefinition::Expression(definition) => MacroDefinition::Expression(
            ExpressionMacroDefinition {
                name: definition.name.clone(),
                parameters: copy_strings(&definition.parameters),
                content: definition.content.clone(),
            },
        ),
    }
}

fn copy_ops(ops: &Vec<AbstractOp>) -> (copies: Vec<AbstractOp>)
    ensures
        op_models(copies@) == op_models(ops@),
    decreases ops@,
{
    let mut copies: Vec<AbstractOp> = Vec::new();
    for i in 0..ops.len()
        invariant
            copies@.len() == i,
            op_models(copies@) == op_models(ops@).take(i as int),
    {
        let copy = copy_op(&ops[i]);
        copies.push(copy);
        assert(op_models(copies@) =~= op_models(ops@).take(i + 1));
    }
    assert(op_models(ops@).take(ops@.len() as int) =~= op_models(ops@));
    copies
}

impl Clone for InstructionMacroInvocation {
    fn clone(&self) -> (copy: Self)
        ensures
            copy.name@ == self.name@,
            expression::terms_of(copy.parameters@) == expression::terms_of(self.parameters@),
    {
        InstructionMacroInvocation {
            name: self.name.clone(),
            parameters: copy_expressions(&self.parameters),
        }
    }
}

impl Clone for AbstractOp {
    fn clone(&self) -> (copy: Self)
        ensures
            copy@ == self@,
    {
        copy_op(self)
    }
}

impl Clone for MacroDefinition {
    fn clone(&self) -> (copy: Self)
        ensures
            copy@ == self@,
    {
        copy_macro(self)
    }
}

fn copy_raw(op: &RawOp) -> (copy: RawOp)
    ensures
        copy@ == op@,
    decreases op,
{
    match op {
        RawOp::Op(op) => RawOp::Op(op.clone()),
        RawOp::Scope(ops) => RawOp::Scope(copy_raws(ops)),
        RawOp::Raw(bytes) => {
            let mut copy: Vec<u8> = Vec::new();
            copy.extend_from_slice(bytes.as_slice());
            assert(copy@ =~= bytes@);
            RawOp::Raw(copy)
        },
    }
}

fn copy_raws(ops: &Vec<RawOp>) -> (copies: Vec<RawOp>)
    ensures
        raw_models(copies@) == raw_models(ops@),
    decreases ops@,
{
    let mut copies: Vec<RawOp> = Vec::new();
    for i in 0..ops.len()
        invariant
            copies@.len() == i,
            raw_models(copies@) == raw_models(ops@).take(i as int),
    {
        let copy = copy_raw(&ops[i]);
        copies.push(copy);
        assert(raw_models(copies@) =~= raw_models(ops@).take(i + 1));
    }
    assert(raw_models(ops@).take(ops@.len() as int) =~= raw_models(ops@));
    copies
}

impl Clone for RawOp {
    fn clone(&self) -> (copy: Self)
        ensures
            copy@ == self@,
    {
        copy_raw(self)
    }
}

impl vstd::std_specs::convert::FromSpecImpl<AbstractOp> for RawOp {
    open spec fn obeys_from_spec() -> bool {
        true
    }

    open spec fn from_spec(op: AbstractOp) -> RawOp {
        RawOp::Op(op)
    }
}

impl From<AbstractOp> for RawOp {
    fn from(op: AbstractOp) -> (raw: Self) {
        Self::Op(op)
    }
}

impl vstd::std_specs::convert::FromSpecImpl<Vec<u8>> for RawOp {
    open spec fn obeys_from_spec() -> bool {
        true
    }

    open spec fn from_spec(bytes: Vec<u8>) -> RawOp {
        RawOp::Raw(bytes)
    }
}

impl From<Vec<u8>> for RawOp {
    fn from(bytes: Vec<u8>) -> (raw: Self) {
        Self::Raw(bytes)
    }
}

impl vstd::std_specs::convert::FromSpecImpl<&AbstractOp> for RawOp {
    open spec fn obeys_from_spec() -> bool {
        false
    }

    open spec fn from_spec(op: &AbstractOp) -> RawOp {
        RawOp::Op(*op)
    }
}

impl From<&AbstractOp> for RawOp {
    fn from(op: &AbstractOp) -> (raw: Self)
        ensures
            raw@ == RawModel::Op(op@),
    {
        Self::Op(op.clone())
    }
}

impl vstd::std_specs::convert::FromSpecImpl<InstructionMacroDefinition> for AbstractOp {
    open spec fn obeys_from_spec() -> bool {
        true
    }

    open spec fn from_spec(definition: InstructionMacroDefinition) -> AbstractOp {
        AbstractOp::MacroDefinition(MacroDefinition::Instruction(definition))
    }
}

impl From<InstructionMacroDefinition> for AbstractOp {
    fn from(definition: InstructionMacroDefinition) -> (op: Self) {
        AbstractOp::MacroDefinition(MacroDefinition::Instruction(definition))
    }
}

impl vstd::std_specs::convert::FromSpecImpl<ExpressionMacroDefinition> for AbstractOp {
    open spec fn obeys_from_spec() -> bool {
        true
    }

    open spec fn from_spec(definition: ExpressionMacroDefinition) -> AbstractOp {
        AbstractOp::MacroDefinition(MacroDefinition::Expression(definition))
    }
}

impl From<ExpressionMacroDefinition> for AbstractOp {
    fn from(definition: ExpressionMacroDefinition) -> (op: Self) {
        AbstractOp::MacroDefinition(MacroDefinition::Expression(definition))
    }
}

impl InstructionMacroInvocation {
    /// The use of a macro without parameters.
    pub fn with_zero_parameters(name: String) -> (invocation: Self)
        ensures
            invocation.name@ == name@,
            invocation.parameters@.len() == 0,
    {
        InstructionMacroInvocation { name, parameters: Vec::new() }
    }
}

impl MacroDefinition {
    /// The name of the macro.
    pub fn name(&self) -> (name: &String)
        ensures
            name@ == self@.macro_name(),
    {
        match self {
            MacroDefinition::Instruction(definition) => &definition.name,
            MacroDefinition::Expression(definition) => &definition.name,
        }
    }
}

impl AbstractOp {
    /// The given instruction.
    pub fn new(op: Op) -> (result: Self)
        ensures
            result == AbstractOp::Op(op),
            result@ == op@,
    {
        AbstractOp::Op(op)
    }
}

} // verus!
