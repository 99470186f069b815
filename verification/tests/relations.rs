//! How programs and their outputs are related to one another.

use etk_asm::assembler::Assembler;
use etk_asm::error::{Error, Failure};
use etk_asm::evmgif::{
    assemble_chunked, build_position_map, decode_instruction_starts, plan_chunks,
};
use etk_asm::expression::{Expression, Terminal};
use etk_asm::integer::Integer;
use etk_asm::nonces::Nonces;
use etk_asm::ops::{
    AbstractOp, ExpressionMacroDefinition, Imm, InstructionMacroDefinition,
    InstructionMacroInvocation, Op, RawOp,
};

const JUMPDEST: u8 = 0x5b;
const PC: u8 = 0x58;

fn plain(code: u8) -> RawOp {
    RawOp::Op(AbstractOp::new(Op::new(code).unwrap()))
}

fn fixed(width: u8, tree: Expression) -> AbstractOp {
    AbstractOp::new(Op::with_immediate(0x5f + width, Imm::with_expression(tree)).unwrap())
}

fn push(tree: Expression) -> RawOp {
    RawOp::Op(AbstractOp::Push(Imm::with_expression(tree)))
}

fn here(name: &str) -> RawOp {
    RawOp::Op(AbstractOp::Label(name.to_string()))
}

fn number(value: i128) -> Expression {
    Expression::Terminal(Terminal::Number(Integer::from_i128(value)))
}

fn label(name: &str) -> Expression {
    Expression::Terminal(Terminal::Label(name.to_string()))
}

fn plus(left: Expression, right: Expression) -> Expression {
    Expression::Plus(Box::new(left), Box::new(right))
}

fn define(name: &str, contents: Vec<AbstractOp>) -> RawOp {
    RawOp::from(AbstractOp::from(InstructionMacroDefinition {
        name: name.to_string(),
        parameters: vec![],
        contents,
    }))
}

fn define_expression(name: &str, content: Expression) -> RawOp {
    RawOp::from(AbstractOp::from(ExpressionMacroDefinition {
        name: name.to_string(),
        parameters: vec![],
        content: Imm::with_expression(content),
    }))
}

fn expand(name: &str) -> RawOp {
    RawOp::Op(AbstractOp::Macro(InstructionMacroInvocation {
        name: name.to_string(),
        parameters: vec![],
    }))
}

fn assemble(ops: &[RawOp]) -> Result<Vec<u8>, Failure> {
    Assembler::new().assemble_with(ops, &mut Nonces::random())
}

/// A macro with a loop back to a label of its own.
fn endless_loop() -> RawOp {
    define(
        "forever",
        vec![
            AbstractOp::Label("again".to_string()),
            AbstractOp::new(Op::new(JUMPDEST).unwrap()),
            AbstractOp::Push(Imm::with_label("again")),
        ],
    )
}

#[test]
fn numbers_for_local_labels_do_not_matter() {
    let ops = vec![
        endless_loop(),
        expand("forever"),
        RawOp::Scope(vec![endless_loop(), plain(PC), expand("forever")]),
        expand("forever"),
    ];
    let expected = [0x5b, 0x60, 0, 0x58, 0x5b, 0x60, 1, 0x5b, 0x60, 7];
    for supply in [vec![1, 2, 3], vec![3, 1, 2], vec![18446744073709551615, 0, 10]] {
        let mut nonces = Nonces::starting_with(supply);
        assert_eq!(Assembler::new().assemble_with(&ops, &mut nonces).unwrap(), expected);
    }
    assert_eq!(assemble(&ops).unwrap(), expected);
}

#[test]
fn label_of_the_program_can_clash_with_a_drawn_number() {
    let ops = vec![endless_loop(), here("forever_again_5"), expand("forever")];
    let mut clash = Nonces::starting_with(vec![5]);
    assert_eq!(
        Assembler::new().assemble_with(&ops, &mut clash),
        Err(Failure::Error(Error::DuplicateLabel { label: "forever_again_5".to_string() }))
    );
    let mut other = Nonces::starting_with(vec![6]);
    assert_eq!(Assembler::new().assemble_with(&ops, &mut other).unwrap(), [0x5b, 0x60, 0]);
}

#[test]
fn definitions_may_stand_anywhere() {
    let items = vec![
        define_expression("width", plus(label("end"), number(2))),
        endless_loop(),
        expand("forever"),
        push(Expression::Macro(etk_asm::expression::ExpressionMacroInvocation {
            name: "width".to_string(),
            parameters: vec![],
        })),
        here("end"),
    ];
    let expected = [0x5b, 0x60, 0, 0x60, 7];
    for from in 0..2 {
        for to in 0..items.len() {
            let mut moved = items.clone();
            let definition = moved.remove(from);
            moved.insert(to, definition);
            assert_eq!(assemble(&moved).unwrap(), expected);
        }
    }
}

#[test]
fn refused_item_leaves_the_assembler_as_it_was() {
    for refused in [
        here("a"),
        RawOp::Op(AbstractOp::Org(0)),
        RawOp::Op(fixed(1, number(256))),
        push(number(-1)),
        expand("nowhere"),
        RawOp::Scope(vec![plain(PC), here("b"), here("b")]),
    ] {
        let mut assembler = Assembler::new();
        let mut nonces = Nonces::random();
        assert!(assembler
            .assemble_with(&[plain(PC), here("a"), refused], &mut nonces)
            .is_err());
        assert_eq!(assembler.declared_label_count(), 1);
        assert_eq!(
            assembler.assemble_with(&[push(label("a")), here("b"), push(label("b"))], &mut nonces),
            Ok(vec![0x58, 0x60, 1, 0x60, 3])
        );
    }
}

#[test]
fn pushes_hold_what_fits_in_their_bytes() {
    for (width, largest) in [(1, 0xff), (2, 0xffff), (3, 0xff_ffff), (8, u64::MAX as i128)] {
        assert!(assemble(&[RawOp::Op(fixed(width, number(0)))]).is_ok());
        assert!(assemble(&[RawOp::Op(fixed(width, number(largest)))]).is_ok());
        assert_eq!(
            assemble(&[RawOp::Op(fixed(width, number(largest + 1)))]),
            Err(Failure::Error(Error::ExpressionTooLarge {
                expr: number(largest + 1),
                value: Integer::from_i128(largest + 1),
                spec: 0x5f + width,
            }))
        );
        assert_eq!(
            assemble(&[RawOp::Op(fixed(width, number(-1)))]),
            Err(Failure::Error(Error::ExpressionNegative {
                expr: number(-1),
                value: Integer::from_i128(-1),
            }))
        );
    }
}

#[test]
fn file_carries_the_output_without_it() {
    let mut ops = vec![plain(JUMPDEST)];
    for i in 0..300 {
        ops.push(RawOp::Op(fixed(2, number(i))));
    }
    let program = assemble(&ops).unwrap();
    let starts = decode_instruction_starts(&program);
    let expected = assemble_chunked(&program, &plan_chunks(&starts, program.len()));
    // Without labels, it does not matter where the program stands in the file.
    for offset in [0, 1000] {
        let out = Assembler::with_evmgif_offset(offset)
            .assemble_with(&ops, &mut Nonces::random())
            .unwrap();
        assert_eq!(out, expected);
    }
}

#[test]
fn only_the_values_of_labels_differ_in_the_file() {
    let mut ops = vec![plain(JUMPDEST)];
    for i in 0..300 {
        ops.push(RawOp::Op(fixed(2, number(i))));
    }
    ops.push(here("end"));
    ops.push(plain(JUMPDEST));
    ops.push(RawOp::Op(fixed(2, label("end"))));
    let program = assemble(&ops).unwrap();
    let starts = decode_instruction_starts(&program);
    let boundaries = plan_chunks(&starts, program.len());
    let map = build_position_map(&starts, &boundaries);
    let unchanged = assemble_chunked(&program, &boundaries);
    let out = Assembler::with_evmgif_offset(7)
        .assemble_with(&ops, &mut Nonces::random())
        .unwrap();
    let at = map[&(program.len() - 3)];
    assert_eq!(out.len(), unchanged.len());
    assert_eq!(out[..at + 1], unchanged[..at + 1]);
    assert_eq!(out[at + 1] as usize * 256 + out[at + 2] as usize, map[&901] + 7);
    assert_eq!(program[902..], [0x61, 3, 0x85]);
}

#[test]
fn pushes_without_labels_are_narrow_beside_wide_ones() {
    let mut ops = vec![
        push(plus(number(254), number(1))),
        push(label("end")),
        push(Expression::Minus(Box::new(number(70000)), Box::new(number(4464)))),
    ];
    ops.push(RawOp::Raw(vec![0; 300]));
    ops.push(here("end"));
    let output = assemble(&ops).unwrap();
    assert_eq!(output[..9], [0x60, 0xff, 0x61, 0x01, 0x35, 0x62, 0x01, 0x00, 0x00][..]);
    assert_eq!(output.len(), 0x135);
}

#[test]
fn pushes_of_sums_of_labels_are_narrow() {
    for filling in 240..270 {
        let ops = vec![
            push(label("a")),
            push(plus(label("a"), label("b"))),
            push(Expression::Minus(Box::new(label("b")), Box::new(number(1)))),
            RawOp::Raw(vec![0; filling]),
            here("a"),
            RawOp::Raw(vec![0; 3]),
            here("b"),
        ];
        let mut assembler = Assembler::new();
        let output = assembler.assemble_with(&ops, &mut Nonces::random()).unwrap();
        let a = assembler.declared_label("a").unwrap().unwrap().position();
        let b = assembler.declared_label("b").unwrap().unwrap().position();
        let mut expected = Vec::new();
        for value in [a, a + b, b - 1] {
            if value < 256 {
                expected.extend([0x60, value as u8]);
            } else {
                expected.extend([0x61, (value / 256) as u8, (value % 256) as u8]);
            }
        }
        assert_eq!(expected.len() + filling, a);
        assert_eq!(a + 3, b);
        assert_eq!(output[..expected.len()], expected[..]);
    }
}

#[test]
fn scope_is_worth_its_bytes() {
    let scope = vec![here("a"), plain(PC), push(label("a"))];
    let bytes = assemble(&scope).unwrap();
    for item in [RawOp::Scope(scope), RawOp::Raw(bytes)] {
        let mut assembler = Assembler::new();
        let ops = vec![plain(PC), here("a"), item, here("end"), push(label("end"))];
        assert_eq!(
            assembler.assemble_with(&ops, &mut Nonces::random()).unwrap(),
            [0x58, 0x58, 0x60, 0, 0x60, 4]
        );
        assert_eq!(assembler.declared_label_count(), 2);
    }
}

#[test]
fn several_definitions_may_move_while_other_numbers_are_drawn() {
    let first = vec![
        endless_loop(),
        define("twice", vec![fixed(1, number(2)), fixed(1, number(2))]),
        expand("twice"),
        expand("forever"),
    ];
    let second = vec![first[2].clone(), first[1].clone(), first[3].clone(), first[0].clone()];
    let expected = [0x60, 2, 0x60, 2, 0x5b, 0x60, 4];
    for (ops, number) in [(first, 3), (second, 8)] {
        let mut nonces = Nonces::starting_with(vec![number]);
        assert_eq!(Assembler::new().assemble_with(&ops, &mut nonces).unwrap(), expected);
    }
}
