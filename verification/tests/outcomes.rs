//! Errors, faults and the directive `.org`.

use etk_asm::assembler::{Assembler, PushDef};
use etk_asm::error::{Error, Failure, Fault};
use etk_asm::expression::{Expression, ExpressionMacroInvocation, Terminal};
use etk_asm::integer::Integer;
use etk_asm::labels::LabelDef;
use etk_asm::nonces::Nonces;
use etk_asm::ops::{
    AbstractOp, ExpressionMacroDefinition, Imm, InstructionMacroDefinition,
    InstructionMacroInvocation, MacroDefinition, Op, RawOp,
};

const JUMPDEST: u8 = 0x5b;
const PC: u8 = 0x58;

fn plain(code: u8) -> RawOp {
    RawOp::Op(AbstractOp::new(Op::new(code).unwrap()))
}

fn fixed(width: u8, tree: Expression) -> AbstractOp {
    AbstractOp::new(Op::with_immediate(0x5f + width, Imm::with_expression(tree)).unwrap())
}

fn push_fixed(width: u8, tree: Expression) -> RawOp {
    RawOp::Op(fixed(width, tree))
}

fn push(tree: Expression) -> RawOp {
    RawOp::Op(AbstractOp::Push(Imm::with_expression(tree)))
}

fn here(name: &str) -> RawOp {
    RawOp::Op(AbstractOp::Label(name.to_string()))
}

fn org(offset: usize) -> RawOp {
    RawOp::Op(AbstractOp::Org(offset))
}

fn number(value: i128) -> Expression {
    Expression::Terminal(Terminal::Number(Integer::from_i128(value)))
}

fn label(name: &str) -> Expression {
    Expression::Terminal(Terminal::Label(name.to_string()))
}

fn variable(name: &str) -> Expression {
    Expression::Terminal(Terminal::Variable(name.to_string()))
}

fn sum(left: Expression, right: Expression) -> Expression {
    Expression::Plus(Box::new(left), Box::new(right))
}

fn difference(left: Expression, right: Expression) -> Expression {
    Expression::Minus(Box::new(left), Box::new(right))
}

fn call(name: &str, parameters: Vec<Expression>) -> Expression {
    Expression::Macro(ExpressionMacroInvocation { name: name.to_string(), parameters })
}

fn define_expression(name: &str, parameters: &[&str], content: Expression) -> RawOp {
    RawOp::from(AbstractOp::from(ExpressionMacroDefinition {
        name: name.to_string(),
        parameters: parameters.iter().map(|p| p.to_string()).collect(),
        content: Imm::with_expression(content),
    }))
}

fn define(name: &str, parameters: &[&str], contents: Vec<AbstractOp>) -> RawOp {
    RawOp::from(AbstractOp::from(InstructionMacroDefinition {
        name: name.to_string(),
        parameters: parameters.iter().map(|p| p.to_string()).collect(),
        contents,
    }))
}

fn expand(name: &str, parameters: Vec<Expression>) -> RawOp {
    RawOp::Op(AbstractOp::Macro(InstructionMacroInvocation {
        name: name.to_string(),
        parameters,
    }))
}

fn assemble(ops: &[RawOp]) -> Result<Vec<u8>, Failure> {
    Assembler::new().assemble_with(ops, &mut Nonces::random())
}

fn fault_of(ops: &[RawOp]) -> Fault {
    match assemble(ops) {
        Err(Failure::Fault(fault)) => fault,
        other => panic!("expected a fault, got {:?}", other),
    }
}

fn error_of(ops: &[RawOp]) -> Error {
    match assemble(ops) {
        Err(Failure::Error(error)) => error,
        other => panic!("expected an error, got {:?}", other),
    }
}

#[test]
fn org_pads_with_zeros_up_to_its_offset() {
    let ops = vec![push_fixed(1, number(1)), org(0x10), here("lbl"), plain(JUMPDEST)];
    let mut assembler = Assembler::new();
    let output = assembler.assemble(&ops).unwrap();
    assert_eq!(output.len(), 0x11);
    assert_eq!(output[0], 0x60);
    assert_eq!(output[1], 0x01);
    assert_eq!(&output[2..0x10], &[0; 14]);
    assert_eq!(output[0x10], 0x5b);
    assert_eq!(assembler.declared_label("lbl"), Some(Some(LabelDef::new(0x10))));
}

#[test]
fn org_can_be_given_several_times() {
    let ops = vec![
        org(2),
        plain(PC),
        org(3),
        here("a"),
        plain(PC),
        org(6),
        plain(PC),
        here("b"),
        push(sum(label("a"), label("b"))),
    ];
    let output = assemble(&ops).unwrap();
    assert_eq!(output, [0, 0, 0x58, 0x58, 0, 0, 0x58, 0x60, 3 + 7]);
}

#[test]
fn org_refuses_to_go_back() {
    let ops = vec![plain(PC), plain(PC), org(1)];
    assert_eq!(error_of(&ops), Error::OrgRewind { offset: 1, position: 2 });
}

#[test]
fn org_stops_labels_from_moving() {
    // The push turns out one byte wider; the label behind the directive stays.
    let ops = vec![push(label("far")), here("near"), plain(PC), org(0x200), here("far"), plain(PC)];
    let mut assembler = Assembler::new();
    let output = assembler.assemble(&ops).unwrap();
    assert_eq!(output.len(), 0x201);
    assert_eq!(&output[..4], &[0x61, 0x02, 0x00, 0x58]);
    assert_eq!(assembler.declared_label("near").unwrap().unwrap().position(), 3);
    assert_eq!(assembler.declared_label("far").unwrap().unwrap().position(), 0x200);
}

#[test]
fn org_is_overrun_by_a_widened_push() {
    let ops = vec![push(sum(label("end"), number(0x100))), org(2), here("end")];
    assert_eq!(error_of(&ops), Error::OrgRewind { offset: 2, position: 3 });
}

#[test]
fn duplicate_label_is_refused() {
    let ops = vec![here("a"), here("a")];
    assert_eq!(error_of(&ops), Error::DuplicateLabel { label: "a".to_string() });
}

#[test]
fn duplicate_macro_is_refused_whatever_its_kind() {
    let ops = vec![define("m", &[], vec![]), define_expression("m", &[], number(1))];
    assert_eq!(error_of(&ops), Error::DuplicateMacro { name: "m".to_string() });
}

#[test]
fn too_large_value_names_the_push() {
    let ops = vec![push_fixed(1, number(256))];
    assert_eq!(
        error_of(&ops),
        Error::ExpressionTooLarge {
            expr: number(256),
            value: Integer::from_i128(256),
            spec: 0x60,
        }
    );
}

#[test]
fn widest_values_fit() {
    let ops = vec![push(Expression::Terminal(Terminal::Number(
        Integer::from_signed_bytes_be(&[0, 0xff, 0xff, 0xff]),
    )))];
    assert_eq!(assemble(&ops).unwrap(), [0x62, 0xff, 0xff, 0xff]);
    let mut digits = vec![0];
    digits.extend_from_slice(&[0xee; 32]);
    let ops = vec![push(Expression::Terminal(Terminal::Number(
        Integer::from_signed_bytes_be(&digits),
    )))];
    let mut expected = vec![0x7f];
    expected.extend_from_slice(&[0xee; 32]);
    assert_eq!(assemble(&ops).unwrap(), expected);
}

#[test]
fn fixed_push_is_right_justified() {
    let ops = vec![push_fixed(4, number(0x1234))];
    assert_eq!(assemble(&ops).unwrap(), [0x63, 0, 0, 0x12, 0x34]);
}

#[test]
fn negative_value_is_refused() {
    let ops = vec![push_fixed(2, difference(number(3), number(5)))];
    assert_eq!(
        error_of(&ops),
        Error::ExpressionNegative {
            expr: difference(number(3), number(5)),
            value: Integer::from_i128(-2),
        }
    );
}

#[test]
fn undeclared_labels_are_listed_once() {
    let ops = vec![
        here("known"),
        push(sum(label("known"), label("x"))),
        push_fixed(2, sum(label("y"), label("x"))),
    ];
    assert_eq!(
        error_of(&ops),
        Error::UndeclaredLabels { labels: vec!["x".to_string(), "y".to_string()] }
    );
}

#[test]
fn declared_label_beside_a_later_one_is_not_undeclared() {
    let ops = vec![here("a"), plain(PC), push(sum(label("a"), label("b"))), here("b")];
    assert_eq!(assemble(&ops).unwrap(), [0x58, 0x60, 0x03]);
}

#[test]
fn undeclared_expression_macro_is_refused() {
    let ops = vec![push(call("f", vec![]))];
    assert_eq!(error_of(&ops), Error::UndeclaredExpressionMacro { name: "f".to_string() });
}

#[test]
fn instruction_macro_is_no_expression_macro() {
    let ops = vec![define("f", &[], vec![]), push(call("f", vec![]))];
    assert_eq!(error_of(&ops), Error::UndeclaredExpressionMacro { name: "f".to_string() });
    let ops = vec![define_expression("f", &[], number(1)), expand("f", vec![])];
    assert_eq!(error_of(&ops), Error::UndeclaredInstructionMacro { name: "f".to_string() });
}

#[test]
fn variable_outside_of_a_macro_is_refused() {
    let ops = vec![push(variable("v"))];
    assert_eq!(error_of(&ops), Error::UndeclaredVariableMacro { var: "v".to_string() });
}

#[test]
fn expression_macro_takes_arguments() {
    let ops = vec![
        define_expression("f", &["x", "y"], difference(variable("x"), variable("y"))),
        push(call("f", vec![number(10), call("f", vec![number(9), number(5)])])),
    ];
    assert_eq!(assemble(&ops).unwrap(), [0x60, 6]);
}

#[test]
fn scope_keeps_its_labels_and_macros() {
    let inner = vec![
        define("m", &[], vec![AbstractOp::new(Op::new(PC).unwrap())]),
        here("a"),
        expand("m", vec![]),
        push(label("a")),
    ];
    let ops = vec![plain(JUMPDEST), here("a"), RawOp::Scope(inner.clone()), push(label("a"))];
    assert_eq!(assemble(&ops).unwrap(), [0x5b, 0x58, 0x60, 0, 0x60, 1]);
    let ops = vec![RawOp::Scope(inner), expand("m", vec![])];
    assert_eq!(error_of(&ops), Error::UndeclaredInstructionMacro { name: "m".to_string() });
}

#[test]
fn scope_cannot_see_outer_labels() {
    let ops = vec![here("a"), RawOp::Scope(vec![push(label("a"))])];
    assert_eq!(error_of(&ops), Error::UndeclaredLabels { labels: vec!["a".to_string()] });
}

#[test]
fn raw_bytes_are_placed_verbatim() {
    let ops = vec![RawOp::from(vec![1, 2, 3]), here("a"), push(label("a"))];
    assert_eq!(assemble(&ops).unwrap(), [1, 2, 3, 0x60, 3]);
}

#[test]
fn local_labels_are_named_after_the_numbers_drawn() {
    let body = vec![AbstractOp::Label("a".to_string()), fixed(1, label("a"))];
    let ops = vec![define("m", &[], body), expand("m", vec![]), expand("m", vec![])];
    let mut assembler = Assembler::new();
    let mut nonces = Nonces::starting_with(vec![7, 18446744073709551615]);
    assert_eq!(assembler.assemble_with(&ops, &mut nonces).unwrap(), [0x60, 0, 0x60, 2]);
    assert_eq!(assembler.declared_label("m_a_7"), Some(Some(LabelDef::new(0))));
    assert_eq!(
        assembler.declared_label("m_a_18446744073709551615"),
        Some(Some(LabelDef::new(2)))
    );
    assert_eq!(assembler.declared_label("a"), None);
}

#[test]
fn the_same_number_twice_is_a_duplicate() {
    let body = vec![AbstractOp::Label("a".to_string())];
    let ops = vec![define("m", &[], body), expand("m", vec![]), expand("m", vec![])];
    let mut nonces = Nonces::starting_with(vec![7, 7]);
    assert_eq!(
        Assembler::new().assemble_with(&ops, &mut nonces),
        Err(Failure::Error(Error::DuplicateLabel { label: "m_a_7".to_string() }))
    );
}

#[test]
fn random_numbers_differ() {
    let body = vec![AbstractOp::Label("a".to_string())];
    let mut ops = vec![define("m", &[], body)];
    for _ in 0..100 {
        ops.push(expand("m", vec![]));
    }
    let mut assembler = Assembler::new();
    assert_eq!(assembler.assemble(&ops).unwrap(), Vec::<u8>::new());
    assert_eq!(assembler.declared_label_count(), 100);
}

#[test]
fn macros_can_use_macros() {
    let ops = vec![
        define(
            "outer",
            &["x"],
            vec![
                AbstractOp::Macro(InstructionMacroInvocation {
                    name: "inner".to_string(),
                    parameters: vec![number(4)],
                }),
                fixed(1, variable("x")),
            ],
        ),
        define("inner", &["y"], vec![fixed(1, variable("y"))]),
        expand("outer", vec![number(5)]),
    ];
    assert_eq!(assemble(&ops).unwrap(), [0x60, 4, 0x60, 5]);
}

#[test]
fn wrong_number_of_arguments_is_a_fault() {
    let ops = vec![define("m", &["x"], vec![]), expand("m", vec![])];
    assert_eq!(fault_of(&ops), Fault::ArgumentCount);
}

#[test]
fn unknown_expression_macro_beside_an_unknown_label_is_refused() {
    let ops = vec![push(sum(label("later"), call("f", vec![]))), here("later")];
    assert_eq!(error_of(&ops), Error::UndeclaredExpressionMacro { name: "f".to_string() });
}

#[test]
fn unknown_expression_macro_in_an_instruction_macro_is_refused() {
    let ops = vec![define("m", &[], vec![fixed(1, call("f", vec![]))]), expand("m", vec![])];
    assert_eq!(error_of(&ops), Error::UndeclaredExpressionMacro { name: "f".to_string() });
}

#[test]
fn forward_push_that_turns_out_too_large_is_refused() {
    let mut ops = vec![push_fixed(1, label("a"))];
    ops.extend((0..254).map(|_| plain(PC)));
    ops.push(here("a"));
    ops.push(plain(JUMPDEST));
    assert_eq!(
        error_of(&ops),
        Error::ExpressionTooLarge {
            expr: label("a"),
            value: Integer::from_i128(256),
            spec: 0x60,
        }
    );
}

#[test]
fn forward_push_that_turns_out_negative_is_refused() {
    let ops = vec![push(difference(label("later"), number(300))), here("later")];
    assert_eq!(
        error_of(&ops),
        Error::ExpressionNegative {
            expr: difference(label("later"), number(300)),
            value: Integer::from_i128(-298),
        }
    );
}

#[test]
fn forward_push_that_is_too_large_for_any_is_refused() {
    let mut digits = vec![0x7f];
    digits.extend_from_slice(&[0xff; 32]);
    let huge = Integer::from_signed_bytes_be(&digits);
    let tree = sum(label("later"), Expression::Terminal(Terminal::Number(huge)));
    let ops = vec![push(tree), here("later")];
    assert!(matches!(error_of(&ops), Error::ExpressionTooLarge { spec: 0x7f, .. }));
}

#[test]
fn label_in_front_of_a_push_does_not_move_with_it() {
    let ops = vec![
        push(sum(label("a"), number(65536))),
        here("x"),
        push(sum(label("b"), number(256))),
        here("a"),
        here("b"),
    ];
    let mut assembler = Assembler::new();
    assert_eq!(assembler.assemble(&ops).unwrap(), [0x62, 1, 0, 7, 0x61, 1, 7]);
    assert_eq!(assembler.declared_label("x").unwrap().unwrap().position(), 4);
    assert_eq!(assembler.declared_label("a").unwrap().unwrap().position(), 7);
    assert_eq!(assembler.declared_label("b").unwrap().unwrap().position(), 7);
}

#[test]
fn label_behind_org_does_not_move_with_a_push_behind_it() {
    let ops = vec![
        org(0x10),
        push(sum(label("a"), number(65536))),
        here("x"),
        push(sum(label("b"), number(256))),
        here("a"),
        here("b"),
    ];
    let mut assembler = Assembler::new();
    assembler.assemble(&ops).unwrap();
    assert_eq!(assembler.declared_label("x").unwrap().unwrap().position(), 0x14);
}

#[test]
fn pushes_carry_the_final_positions() {
    let mut ops = vec![push(label("a")), push(label("b"))];
    ops.extend((0..251).map(|_| plain(PC)));
    ops.extend([here("a"), plain(JUMPDEST), here("b"), plain(JUMPDEST)]);
    let mut expected = vec![0x61, 0x01, 0x01, 0x61, 0x01, 0x02];
    expected.extend_from_slice(&[PC; 251]);
    expected.extend_from_slice(&[JUMPDEST, JUMPDEST]);
    assert_eq!(assemble(&ops).unwrap(), expected);
}

#[test]
fn push_backwards_is_widened_when_its_label_moves() {
    // The label `a` is at 255 until the push in front of it is widened.
    let mut ops = vec![push(label("end"))];
    ops.extend((0..253).map(|_| plain(PC)));
    ops.extend([here("a"), push(label("a")), here("end"), plain(JUMPDEST)]);
    let output = assemble(&ops).unwrap();
    assert_eq!(&output[..3], &[0x61, 0x01, 0x03]);
    assert_eq!(&output[256..], &[0x61, 0x01, 0x00, JUMPDEST]);
}

#[test]
fn push_that_cannot_shrink_again_is_filled_with_zeros() {
    // With one byte for the value, `a` is at 2 and the value 256; with two bytes it is 255.
    let ops = vec![push(difference(number(258), label("a"))), here("a")];
    assert_eq!(assemble(&ops).unwrap(), [0x61, 0x00, 0xff]);
}

#[test]
fn room_is_made_once_for_each_push() {
    let ops = vec![
        push(sum(label("foo"), number(256))),
        push_fixed(2, label("foo1")),
        here("foo"),
        here("foo1"),
    ];
    let mut assembler = Assembler::new();
    assert_eq!(assembler.assemble(&ops).unwrap(), [0x61, 1, 6, 0x61, 0, 6]);
    // The next program starts at 6, and makes no room for the first one again.
    assert_eq!(
        assembler.assemble(&[plain(PC), here("next"), org(10), push(label("next"))]).unwrap(),
        [PC, 0, 0, 0, 0x60, 7]
    );
    assert_eq!(assembler.declared_label("foo").unwrap().unwrap().position(), 6);
}

#[test]
fn position_beyond_the_last_one_is_a_fault() {
    let ops = vec![org(usize::MAX), plain(PC)];
    assert_eq!(fault_of(&ops), Fault::OffsetOverflow);
}

#[test]
fn refused_program_can_be_continued() {
    let mut assembler = Assembler::new();
    let mut nonces = Nonces::random();
    let ops = vec![plain(PC), push(label("a"))];
    assert_eq!(
        assembler.assemble_with(&ops, &mut nonces),
        Err(Failure::Error(Error::UndeclaredLabels { labels: vec!["a".to_string()] }))
    );
    assert_eq!(
        assembler.assemble_with(&[here("a")], &mut nonces).unwrap(),
        [0x58, 0x60, 3]
    );
}

#[test]
fn positions_go_on_in_the_next_program() {
    let mut assembler = Assembler::default();
    assert_eq!(assembler.assemble(&[plain(PC), here("a")]).unwrap(), [0x58]);
    assert_eq!(
        assembler.assemble(&[plain(PC), here("b"), push(label("b")), push(label("a"))]).unwrap(),
        [0x58, 0x60, 2, 0x60, 1]
    );
}

#[test]
fn label_moves_when_a_push_in_front_is_widened() {
    let mut ops = vec![push(label("end")), here("a"), plain(PC)];
    ops.push(RawOp::Raw(vec![0; 300]));
    ops.push(here("end"));
    let mut assembler = Assembler::new();
    let output = assembler.assemble(&ops).unwrap();
    assert_eq!(&output[..4], &[0x61, 0x01, 0x30, 0x58]);
    assert_eq!(
        assembler.declared_label("a"),
        Some(Some(LabelDef { position: 3, updated: true }))
    );
    assert_eq!(assembler.declared_label("end").unwrap().unwrap().position(), 0x130);
    assert_eq!(output.len(), 0x130);
}

#[test]
fn push_definition_keeps_what_it_is_given() {
    let def = PushDef::new(AbstractOp::Push(Imm::with_label("a")), 9);
    assert_eq!(def.position(), 9);
    assert_eq!(def.op(), &AbstractOp::Push(Imm::with_label("a")));
    assert_eq!(def.clone(), def);
}

#[test]
fn operations_say_what_they_are() {
    assert_eq!(Op::new(0x60), None);
    assert_eq!(Op::with_immediate(0x5b, Imm::with_label("a")), None);
    let op = Op::with_immediate(0x61, Imm::with_variable("v")).unwrap();
    assert_eq!(op.code(), 0x61);
    assert_eq!(op.size(), 3);
    assert_eq!(op.immediate(), Some(&Imm::with_variable("v")));
    assert_eq!(Op::new(0x5f).unwrap().size(), 1);
    let definition = MacroDefinition::Expression(ExpressionMacroDefinition {
        name: "f".to_string(),
        parameters: vec![],
        content: Imm::with_macro(ExpressionMacroInvocation {
            name: "g".to_string(),
            parameters: vec![],
        }),
    });
    assert_eq!(definition.name(), "f");
    assert_eq!(definition.clone(), definition);
}

#[test]
fn program_without_local_labels_is_always_assembled_alike() {
    let ops = vec![
        define("m", &["x"], vec![fixed(1, variable("x"))]),
        here("a"),
        expand("m", vec![number(3)]),
        push(label("a")),
    ];
    for supply in [vec![], vec![1, 2], vec![9]] {
        let mut nonces = Nonces::starting_with(supply);
        assert_eq!(
            Assembler::new().assemble_with(&ops, &mut nonces).unwrap(),
            [0x60, 3, 0x60, 0]
        );
    }
}

#[test]
fn unsized_push_is_as_narrow_as_its_value() {
    for (value, expected) in [
        (0, vec![0x60, 0]),
        (255, vec![0x60, 255]),
        (256, vec![0x61, 1, 0]),
        (65535, vec![0x61, 255, 255]),
        (65536, vec![0x62, 1, 0, 0]),
    ] {
        assert_eq!(assemble(&[push(number(value))]).unwrap(), expected);
    }
}
