//! The bytes of an instruction, once its expression has a value.

use indexmap::IndexMap;
use vstd::prelude::*;

use crate::context;
use crate::context::{eval_with_context, EvalError, EvalErrorModel, NESTING_LIMIT};
use crate::expression::{Expression, Term};
use crate::integer;
use crate::integer::Integer;
use crate::labels;
use crate::labels::LabelDef;
use crate::opcode;
use crate::opcode::{PUSH1, PUSH32};
use crate::ops;
use crate::ops::{Imm, MacroDefinition, MacroModel, Op, OpModel};

verus! {

/// What becomes bytes of its own: a real instruction, or a push without a size of its own.
#[derive(Debug)]
pub enum Instruction {
    /// A real instruction.
    Op(Op),
    /// A push without a size of its own.
    Push(Imm),
}

impl View for Instruction {
    type V = OpModel;

    open spec fn view(&self) -> OpModel {
        match *self {
            Instruction::Op(op) => op@,
            Instruction::Push(imm) => OpModel::Push(imm@),
        }
    }
}

impl Clone for Instruction {
    fn clone(&self) -> (copy: Self)
        ensures
            copy@ == self@,
    {
        match self {
            Instruction::Op(op) => Instruction::Op(op.clone()),
            Instruction::Push(imm) => Instruction::Push(imm.clone()),
        }
    }
}

/// Why an instruction has no bytes.
#[derive(Debug)]
pub enum EncodeError {
    /// The expression has no value.
    NoValue(EvalError),
    /// The value is negative.
    Negative {
        /// The value.
        value: Integer,
    },
    /// The value does not fit in the instruction.
    TooLarge {
        /// The value.
        value: Integer,
        /// The opcode of the instruction.
        spec: u8,
    },
}

/// An [`EncodeError`] as a mathematical value.
pub enum EncodeErrorModel {
    NoValue(EvalErrorModel),
    Negative(int),
    TooLarge(int, u8),
}

impl View for EncodeError {
    type V = EncodeErrorModel;

    open spec fn view(&self) -> EncodeErrorModel {
        match *self {
            EncodeError::NoValue(error) => EncodeErrorModel::NoValue(error@),
            EncodeError::Negative { value } => EncodeErrorModel::Negative(value@),
            EncodeError::TooLarge { value, spec } => EncodeErrorModel::TooLarge(value@, spec),
        }
    }
}

/// `bytes` with zeros in front, `width` bytes in all.
pub open spec fn padded(bytes: Seq<u8>, width: nat) -> Seq<u8> {
    Seq::new((width - bytes.len()) as nat, |i: int| 0u8) + bytes
}

/// The bytes of the push `code` of `value`: the opcode, and the value right-justified behind it.
pub open spec fn fixed_push(code: u8, value: int) -> Result<Seq<u8>, EncodeErrorModel> {
    if value < 0 {
        Err(EncodeErrorModel::Negative(value))
    } else if integer::be_bytes(value as nat).len() > opcode::immediate_len(code) {
        Err(EncodeErrorModel::TooLarge(value, code))
    } else {
        Ok(
            seq![code] + padded(integer::be_bytes(value as nat), opcode::immediate_len(code)),
        )
    }
}

/// The bytes of the narrowest push of `value`.
pub open spec fn narrow_push(value: int) -> Result<Seq<u8>, EncodeErrorModel> {
    if value < 0 {
        Err(EncodeErrorModel::Negative(value))
    } else if integer::be_bytes(value as nat).len() > 32 {
        Err(EncodeErrorModel::TooLarge(value, PUSH32))
    } else {
        Ok(
            seq![(PUSH1 - 1 + integer::be_bytes(value as nat).len()) as u8] + integer::be_bytes(
                value as nat,
            ),
        )
    }
}

/// The number of bytes that a push of `value` needs, as far as there is a push that wide.
pub open spec fn width_needed(value: int) -> nat {
    if value < 0 {
        1
    } else if integer::be_bytes(value as nat).len() > 32 {
        32
    } else {
        integer::be_bytes(value as nat).len()
    }
}

/// The bytes of a push of `value` that takes up `room` bytes.
pub open spec fn roomy_push(value: int, room: nat) -> Result<Seq<u8>, EncodeErrorModel> {
    if 2 <= room <= 33 {
        fixed_push((PUSH1 + room - 2) as u8, value)
    } else {
        narrow_push(value)
    }
}

/// The expression in an instruction.
pub open spec fn expression_in(op: OpModel) -> Option<Term> {
    match op {
        OpModel::Op { immediate, .. } => immediate,
        OpModel::Push(term) => Some(term),
        _ => None,
    }
}

/// The value of `term` outside of expression macros.
pub open spec fn value_of(
    term: Term,
    labels: Seq<(Seq<char>, Option<LabelDef>)>,
    macros: Seq<MacroModel>,
) -> Result<int, EvalErrorModel> {
    context::eval(term, context::top_context(labels, macros), NESTING_LIMIT as nat)
}

/// The bytes of the instruction `op`, where labels and macros are the given ones.
pub open spec fn encoding(
    op: OpModel,
    labels: Seq<(Seq<char>, Option<LabelDef>)>,
    macros: Seq<MacroModel>,
) -> Result<Seq<u8>, EncodeErrorModel> {
    match op {
        OpModel::Op { code, immediate: Some(term) } => match value_of(term, labels, macros) {
            Ok(value) => fixed_push(code, value),
            Err(error) => Err(EncodeErrorModel::NoValue(error)),
        },
        OpModel::Op { code, immediate: None } => Ok(seq![code]),
        OpModel::Push(term) => match value_of(term, labels, macros) {
            Ok(value) => narrow_push(value),
            Err(error) => Err(EncodeErrorModel::NoValue(error)),
        },
        _ => Ok(Seq::empty()),
    }
}

/// The bytes of the instruction `op`, where a push that has no size of its own takes up `room`
/// bytes.
pub open spec fn encoding_in(
    op: OpModel,
    room: nat,
    labels: Seq<(Seq<char>, Option<LabelDef>)>,
    macros: Seq<MacroModel>,
) -> Result<Seq<u8>, EncodeErrorModel> {
    match op {
        OpModel::Push(term) => match value_of(term, labels, macros) {
            Ok(value) => roomy_push(value, room),
            Err(error) => Err(EncodeErrorModel::NoValue(error)),
        },
        _ => encoding(op, labels, macros),
    }
}

/// Evaluates an expression outside of expression macros.
pub(crate) fn evaluate(
    expression: &Expression,
    labels: &IndexMap<String, Option<LabelDef>>,
    macros: &Vec<MacroDefinition>,
) -> (result: Result<Integer, EvalError>)
    ensures
        match result {
            Ok(value) => value_of(
                expression@,
                labels::label_entries(*labels),
                ops::macro_models(macros@),
            ) == Ok::<int, EvalErrorModel>(value@),
            Err(error) => value_of(
                expression@,
                labels::label_entries(*labels),
                ops::macro_models(macros@),
            ) == Err::<int, EvalErrorModel>(error@),
        },
{
    let names: Vec<String> = Vec::new();
    let values: Vec<Integer> = Vec::new();
    assert(ops::texts_of(names@) =~= Seq::empty());
    assert(context::values_of(values@) =~= Seq::empty());
    eval_with_context(expression, labels, macros, &names, &values, NESTING_LIMIT)
}

impl Instruction {
    /// The expression in the instruction.
    pub fn expr(&self) -> (expr: Option<&Expression>)
        ensures
            match expr {
                Some(expr) => expression_in(self@) == Some(expr@),
                None => expression_in(self@) is None,
            },
    {
        match self {
            Instruction::Op(op) => match op.immediate() {
                Some(imm) => Some(&imm.tree),
                None => None,
            },
            Instruction::Push(imm) => Some(&imm.tree),
        }
    }

    /// The bytes of the instruction.
    pub(crate) fn concretize(
        &self,
        labels: &IndexMap<String, Option<LabelDef>>,
        macros: &Vec<MacroDefinition>,
    ) -> (result: Result<Vec<u8>, EncodeError>)
        ensures
            match result {
                Ok(bytes) => encoding(
                    self@,
                    labels::label_entries(*labels),
                    ops::macro_models(macros@),
                ) == Ok::<Seq<u8>, EncodeErrorModel>(bytes@),
                Err(error) => encoding(
                    self@,
                    labels::label_entries(*labels),
                    ops::macro_models(macros@),
                ) == Err::<Seq<u8>, EncodeErrorModel>(error@),
            },
    {
        match self {
            Instruction::Op(op) => match op.immediate() {
                Some(imm) => match evaluate(&imm.tree, labels, macros) {
                    Ok(value) => encode_fixed(op.code(), value),
                    Err(error) => Err(EncodeError::NoValue(error)),
                },
                None => {
                    let mut bytes: Vec<u8> = Vec::new();
                    bytes.push(op.code());
                    assert(bytes@ =~= seq![op.opcode()]);
                    Ok(bytes)
                },
            },
            Instruction::Push(imm) => match evaluate(&imm.tree, labels, macros) {
                Ok(value) => encode_narrow(value),
                Err(error) => Err(EncodeError::NoValue(error)),
            },
        }
    }

    /// The bytes of the instruction, where a push that has no size of its own takes up `room`
    /// bytes.
    pub(crate) fn concretize_in(
        &self,
        room: usize,
        labels: &IndexMap<String, Option<LabelDef>>,
        macros: &Vec<MacroDefinition>,
    ) -> (result: Result<Vec<u8>, EncodeError>)
        ensures
            match result {
                Ok(bytes) => encoding_in(
                    self@,
                    room as nat,
                    labels::label_entries(*labels),
                    ops::macro_models(macros@),
                ) == Ok::<Seq<u8>, EncodeErrorModel>(bytes@),
                Err(error) => encoding_in(
                    self@,
                    room as nat,
                    labels::label_entries(*labels),
                    ops::macro_models(macros@),
                ) == Err::<Seq<u8>, EncodeErrorModel>(error@),
            },
    {
        match self {
            Instruction::Push(imm) => match evaluate(&imm.tree, labels, macros) {
                Ok(value) => if 2 <= room && room <= 33 {
                    encode_fixed(PUSH1 + (room - 2) as u8, value)
                } else {
                    encode_narrow(value)
                },
                Err(error) => Err(EncodeError::NoValue(error)),
            },
            Instruction::Op(_) => self.concretize(labels, macros),
        }
    }
}

fn encode_fixed(code: u8, value: Integer) -> (result: Result<Vec<u8>, EncodeError>)
    ensures
        match result {
            Ok(bytes) => fixed_push(code, value@) == Ok::<Seq<u8>, EncodeErrorModel>(bytes@),
            Err(error) => fixed_push(code, value@) == Err::<Seq<u8>, EncodeErrorModel>(error@),
        },
{
    let (negative, mut digits) = value.to_bytes_be();
    if negative {
        return Err(EncodeError::Negative { value });
    }
    let width = opcode::size_of_instruction(code) - 1;
    if digits.len() > width {
        return Err(EncodeError::TooLarge { value, spec: code });
    }
    let pad = width - digits.len();
    let mut bytes: Vec<u8> = Vec::new();
    bytes.push(code);
    for i in 0..pad
        invariant
            bytes@ == seq![code] + Seq::new(i as nat, |i: int| 0u8),
    {
        bytes.push(0);
        assert(bytes@ =~= seq![code] + Seq::new((i + 1) as nat, |i: int| 0u8));
    }
    bytes.append(&mut digits);
    assert(bytes@ =~= seq![code] + padded(
        integer::be_bytes(value@ as nat),
        opcode::immediate_len(code),
    ));
    Ok(bytes)
}

fn encode_narrow(value: Integer) -> (result: Result<Vec<u8>, EncodeError>)
    ensures
        match result {
            Ok(bytes) => narrow_push(value@) == Ok::<Seq<u8>, EncodeErrorModel>(bytes@),
            Err(error) => narrow_push(value@) == Err::<Seq<u8>, EncodeErrorModel>(error@),
        },
{
    let (negative, mut digits) = value.to_bytes_be();
    if negative {
        return Err(EncodeError::Negative { value });
    }
    if digits.len() > 32 {
        return Err(EncodeError::TooLarge { value, spec: PUSH32 });
    }
    let mut bytes: Vec<u8> = Vec::new();
    bytes.push(PUSH1 - 1 + digits.len() as u8);
    bytes.append(&mut digits);
    assert(bytes@ =~= narrow_push(value@)->Ok_0);
    Ok(bytes)
}

/// The number of bytes that a push of `value` needs, as far as there is a push that wide.
pub(crate) fn measure_width(value: &Integer) -> (width: usize)
    ensures
        width == width_needed(value@),
{
    let (negative, digits) = value.to_bytes_be();
    if negative {
        1
    } else if digits.len() > 32 {
        32
    } else {
        digits.len()
    }
}

} // verus!
