//! Whole programs, and the bytes or the errors that they lead to.

use etk_asm::assembler::Assembler;
use etk_asm::error::Error;
use etk_asm::evmgif::EVMGIF_MAGIC;
use etk_asm::expression::{Expression, ExpressionMacroInvocation, Terminal};
use etk_asm::integer::Integer;
use etk_asm::labels::LabelDef;
use etk_asm::opcode::{JUMPDEST, POP, PUSH1};
use etk_asm::ops::{
    AbstractOp, ExpressionMacroDefinition, Imm, InstructionMacroDefinition,
    InstructionMacroInvocation, Op, RawOp,
};

const STOP: u8 = 0x00;
const CALLER: u8 = 0x33;
const JUMP: u8 = 0x56;
const PC: u8 = 0x58;
const GAS: u8 = 0x5a;

fn plain(code: u8) -> AbstractOp {
    AbstractOp::new(Op::new(code).unwrap())
}

fn push_fixed(width: u8, imm: Imm) -> AbstractOp {
    AbstractOp::new(Op::with_immediate(0x5f + width, imm).unwrap())
}

fn integer(value: i128) -> Box<Expression> {
    Box::new(Expression::Terminal(Terminal::Number(Integer::from_i128(value))))
}

fn label(name: &str) -> Box<Expression> {
    Box::new(Expression::Terminal(Terminal::Label(name.to_string())))
}

fn number(value: i128) -> Imm {
    Imm::with_expression(*integer(value))
}

fn raws(ops: &[AbstractOp]) -> Vec<RawOp> {
    ops.iter().map(RawOp::from).collect()
}

#[test]
fn assemble_variable_push_const_while_pending() -> Result<(), Error> {
    let mut assembler = Assembler::new();
    let code = vec![
        push_fixed(1, Imm::with_label("label1")),
        AbstractOp::Push(number(0xaabb)),
        AbstractOp::Label("label1".into()),
    ];
    let result = assembler.assemble(&raws(&code))?;
    assert_eq!(result, [0x60, 0x05, 0x61, 0xaa, 0xbb]);
    Ok(())
}

#[test]
fn assemble_variable_pushes_abab() -> Result<(), Error> {
    let mut assembler = Assembler::new();
    let code = vec![
        plain(JUMPDEST),
        AbstractOp::Push(Imm::with_label("label1")),
        AbstractOp::Push(Imm::with_label("label2")),
        AbstractOp::Label("label1".into()),
        plain(PC),
        AbstractOp::Label("label2".into()),
        plain(PC),
    ];
    let result = assembler.assemble(&raws(&code))?;
    assert_eq!(result, [0x5b, 0x60, 0x05, 0x60, 0x06, 0x58, 0x58]);
    Ok(())
}

#[test]
fn assemble_variable_pushes_abba() -> Result<(), Error> {
    let mut assembler = Assembler::new();
    let code = vec![
        plain(JUMPDEST),
        AbstractOp::Push(Imm::with_label("label1")),
        AbstractOp::Push(Imm::with_label("label2")),
        AbstractOp::Label("label2".into()),
        plain(PC),
        AbstractOp::Label("label1".into()),
        plain(PC),
    ];
    let result = assembler.assemble(&raws(&code))?;
    assert_eq!(result, [0x5b, 0x60, 0x06, 0x60, 0x05, 0x58, 0x58]);
    Ok(())
}

#[test]
fn assemble_variable_push1_multiple() -> Result<(), Error> {
    let mut assembler = Assembler::new();
    let code = vec![
        plain(JUMPDEST),
        AbstractOp::Push(Imm::with_label("auto")),
        AbstractOp::Push(Imm::with_label("auto")),
        AbstractOp::Label("auto".into()),
    ];
    let result = assembler.assemble(&raws(&code))?;
    assert_eq!(result, [0x5b, 0x60, 0x05, 0x60, 0x05]);
    Ok(())
}

#[test]
fn assemble_variable_push_const() -> Result<(), Error> {
    let mut assembler = Assembler::new();
    let code = vec![AbstractOp::Push(
        number(0x00aaaaaaaaaaaaaaaaaaaaaaaa),
    )];
    let result = assembler.assemble(&raws(&code))?;
    assert_eq!(result, [0x6b, 0xaa, 0xaa, 0xaa, 0xaa, 0xaa, 0xaa, 0xaa, 0xaa, 0xaa, 0xaa, 0xaa, 0xaa]);
    Ok(())
}

#[test]
fn assemble_variable_push_too_large() {
    let v = Integer::from_signed_bytes_be(&[1u8; 33]);

    let mut assembler = Assembler::new();
    let code = vec![AbstractOp::Push(Imm::with_expression(Expression::Terminal(Terminal::Number(v))))];
    let err = assembler.assemble(&raws(&code)).unwrap_err();

    assert!(matches!(err, Error::ExpressionTooLarge { .. }));
}

#[test]
fn assemble_variable_push_negative() {
    let mut assembler = Assembler::new();
    let code = vec![AbstractOp::Push(number(-1))];
    let err = assembler.assemble(&raws(&code)).unwrap_err();

    assert!(matches!(err, Error::ExpressionNegative { .. }));
}

#[test]
fn assemble_variable_push_const0() -> Result<(), Error> {
    let mut assembler = Assembler::new();
    let code = vec![AbstractOp::Push(
        number(0x00),
    )];
    let result = assembler.assemble(&raws(&code))?;
    assert_eq!(result, [0x60, 0x00]);
    Ok(())
}

#[test]
fn assemble_variable_push1_known() -> Result<(), Error> {
    let mut assembler = Assembler::new();
    let code = vec![
        plain(JUMPDEST),
        AbstractOp::Label("auto".into()),
        AbstractOp::Push(Imm::with_label("auto")),
    ];
    let result = assembler.assemble(&raws(&code))?;
    assert_eq!(result, [0x5b, 0x60, 0x01]);
    Ok(())
}

#[test]
fn assemble_variable_push1() -> Result<(), Error> {
    let mut assembler = Assembler::new();
    let code = vec![
        AbstractOp::Push(Imm::with_label("auto")),
        AbstractOp::Label("auto".into()),
        plain(JUMPDEST),
    ];
    let result = assembler.assemble(&raws(&code))?;
    assert_eq!(result, [0x60, 0x02, 0x5b]);
    Ok(())
}

#[test]
fn assemble_variable_push1_reuse() -> Result<(), Error> {
    let mut assembler = Assembler::new();
    let code = vec![
        AbstractOp::Push(Imm::with_label("auto")),
        AbstractOp::Label("auto".into()),
        plain(JUMPDEST),
        push_fixed(1, Imm::with_label("auto")),
    ];
    let result = assembler.assemble(&raws(&code))?;
    assert_eq!(result, [0x60, 0x02, 0x5b, 0x60, 0x02]);
    Ok(())
}

#[test]
fn assemble_variable_push2() -> Result<(), Error> {
    let mut code = vec![];
    code.push(AbstractOp::Push(Imm::with_label("auto")));
    for _ in 0..255 {
        code.push(plain(PC));
    }

    code.push(AbstractOp::Label("auto".into()));
    code.push(plain(JUMPDEST));

    let mut assembler = Assembler::new();
    let result = assembler.assemble(&raws(&code))?;

    let mut expected = vec![0x61, 0x01, 0x02];
    expected.extend_from_slice(&[0x58; 255]);
    expected.push(0x5b);
    assert_eq!(result, expected);

    Ok(())
}

#[test]
fn assemble_variable_push3() -> Result<(), Error> {
    let mut code = vec![];
    code.push(AbstractOp::Push(Imm::with_label("auto")));
    for _ in 0..65537 {
        code.push(plain(PC));
    }

    code.push(AbstractOp::Label("auto".into()));
    code.push(plain(JUMPDEST));

    let mut assembler = Assembler::new();
    let result = assembler.assemble(&raws(&code))?;

    let mut expected = vec![0x62, 0x01, 0x00, 0x05];
    expected.extend_from_slice(&[0x58; 65537]);
    expected.push(0x5b);

    assert_eq!(result, expected);

    Ok(())
}

#[test]
fn assemble_undeclared_label() -> Result<(), Error> {
    let mut assembler = Assembler::new();
    let code = vec![push_fixed(1, Imm::with_label("hi"))];
    let err = assembler.assemble(&raws(&code)).unwrap_err();
    assert!(matches!(err, Error::UndeclaredLabels { labels, .. } if labels == vec!["hi"]));
    Ok(())
}

#[test]
fn assemble_jumpdest_no_label() -> Result<(), Error> {
    let mut assembler = Assembler::new();
    let code = vec![plain(JUMPDEST)];
    let result = assembler.assemble(&raws(&code))?;
    assert_eq!(assembler.declared_label_count(), 0);
    assert_eq!(result, [0x5b]);
    Ok(())
}

#[test]
fn assemble_jumpdest_with_label() -> Result<(), Error> {
    let mut assembler = Assembler::new();
    let ops = vec![AbstractOp::Label("lbl".into()), plain(JUMPDEST)];

    let result = assembler.assemble(&raws(&ops))?;
    assert_eq!(assembler.declared_label_count(), 1);
    assert_eq!(
        assembler.declared_label("lbl"),
        Some(Some(LabelDef {
            position: 0,
            updated: false
        }))
    );
    assert_eq!(result, [0x5b]);
    Ok(())
}

#[test]
fn assemble_jumpdest_jump_with_label() -> Result<(), Error> {
    let ops = vec![
        AbstractOp::Label("lbl".into()),
        plain(JUMPDEST),
        push_fixed(1, Imm::with_label("lbl")),
    ];

    let mut assembler = Assembler::new();
    let result = assembler.assemble(&raws(&ops))?;
    assert_eq!(result, [0x5b, 0x60, 0x00]);

    Ok(())
}

#[test]
fn assemble_labeled_pc() -> Result<(), Error> {
    let ops = vec![
        push_fixed(1, Imm::with_label("lbl")),
        AbstractOp::Label("lbl".into()),
        plain(PC),
    ];

    let mut assembler = Assembler::new();
    let result = assembler.assemble(&raws(&ops))?;
    assert_eq!(result, [0x60, 0x02, 0x58]);

    Ok(())
}

#[test]
fn assemble_jump_jumpdest_with_label() -> Result<(), Error> {
    let ops = vec![
        push_fixed(1, Imm::with_label("lbl")),
        AbstractOp::Label("lbl".into()),
        plain(JUMPDEST),
    ];

    let mut assembler = Assembler::new();
    let result = assembler.assemble(&raws(&ops))?;
    assert_eq!(result, [0x60, 0x02, 0x5b]);

    Ok(())
}

#[test]
fn assemble_label_too_large() {
    let mut ops: Vec<_> = vec![plain(PC); 255];
    ops.push(AbstractOp::Label("b".into()));
    ops.push(plain(JUMPDEST));
    ops.push(AbstractOp::Label("a".into()));
    ops.push(plain(JUMPDEST));
    ops.push(push_fixed(1, Imm::with_label("a")));
    let mut assembler = Assembler::new();
    let err = assembler.assemble(&raws(&ops)).unwrap_err();
    assert!(matches!(err, Error::ExpressionTooLarge { expr: Expression::Terminal(Terminal::Label(label)), .. } if label == "a"));
}

#[test]
fn assemble_label_just_right() -> Result<(), Error> {
    let mut ops: Vec<_> = vec![plain(PC); 255];
    ops.push(AbstractOp::Label("b".into()));
    ops.push(plain(JUMPDEST));
    ops.push(AbstractOp::Label("a".into()));
    ops.push(plain(JUMPDEST));
    ops.push(push_fixed(1, Imm::with_label("b")));
    let mut assembler = Assembler::new();
    let result = assembler.assemble(&raws(&ops))?;

    let mut expected = vec![0x58; 255];
    expected.push(0x5b);
    expected.push(0x5b);
    expected.push(0x60);
    expected.push(0xff);

    assert_eq!(result, expected);

    Ok(())
}

#[test]
fn assemble_instruction_macro_label_underscore() -> Result<(), Error> {
    let ops = vec![
        InstructionMacroDefinition {
            name: "my_macro".into(),
            parameters: vec![],
            contents: vec![AbstractOp::Label("a".into())],
        }
        .into(),
        InstructionMacroDefinition {
            name: "my".into(),
            parameters: vec![],
            contents: vec![AbstractOp::Label("macro_a".into())],
        }
        .into(),
        AbstractOp::Macro(InstructionMacroInvocation {
            name: "my_macro".into(),
            parameters: vec![],
        }),
        AbstractOp::Macro(InstructionMacroInvocation {
            name: "my".into(),
            parameters: vec![],
        }),
    ];

    let mut assembler = Assembler::new();
    let result = assembler.assemble(&raws(&ops))?;
    assert_eq!(result, Vec::<u8>::new());

    Ok(())
}

#[test]
fn assemble_instruction_macro_twice() -> Result<(), Error> {
    let ops = vec![
        InstructionMacroDefinition {
            name: "my_macro".into(),
            parameters: vec![],
            contents: vec![
                AbstractOp::Label("a".into()),
                plain(JUMPDEST),
                push_fixed(1, Imm::with_label("a")),
                push_fixed(1, Imm::with_label("b")),
            ],
        }
        .into(),
        AbstractOp::Label("b".into()),
        plain(JUMPDEST),
        push_fixed(1, Imm::with_label("b")),
        AbstractOp::Macro(InstructionMacroInvocation {
            name: "my_macro".into(),
            parameters: vec![],
        }),
        AbstractOp::Macro(InstructionMacroInvocation {
            name: "my_macro".into(),
            parameters: vec![],
        }),
    ];

    let mut assembler = Assembler::new();
    let result = assembler.assemble(&raws(&ops))?;
    assert_eq!(result, [0x5b, 0x60, 0x00, 0x5b, 0x60, 0x03, 0x60, 0x00, 0x5b, 0x60, 0x08, 0x60, 0x00]);

    Ok(())
}

#[test]
fn assemble_instruction_macro() -> Result<(), Error> {
    let ops = vec![
        InstructionMacroDefinition {
            name: "my_macro".into(),
            parameters: vec![],
            contents: vec![
                AbstractOp::Label("a".into()),
                plain(JUMPDEST),
                push_fixed(1, Imm::with_label("a")),
                push_fixed(1, Imm::with_label("b")),
            ],
        }
        .into(),
        AbstractOp::Label("b".into()),
        plain(JUMPDEST),
        push_fixed(1, Imm::with_label("b")),
        AbstractOp::Macro(InstructionMacroInvocation {
            name: "my_macro".into(),
            parameters: vec![],
        }),
    ];

    let mut assembler = Assembler::new();
    let result = assembler.assemble(&raws(&ops))?;
    assert_eq!(result, [0x5b, 0x60, 0x00, 0x5b, 0x60, 0x03, 0x60, 0x00]);

    Ok(())
}

#[test]
fn assemble_instruction_macro_delayed_definition() -> Result<(), Error> {
    let ops = vec![
        AbstractOp::Label("b".into()),
        plain(JUMPDEST),
        push_fixed(1, Imm::with_label("b")),
        AbstractOp::Macro(InstructionMacroInvocation {
            name: "my_macro".into(),
            parameters: vec![],
        }),
        InstructionMacroDefinition {
            name: "my_macro".into(),
            parameters: vec![],
            contents: vec![
                AbstractOp::Label("a".into()),
                plain(JUMPDEST),
                push_fixed(1, Imm::with_label("a")),
                push_fixed(1, Imm::with_label("b")),
            ],
        }
        .into(),
    ];

    let mut assembler = Assembler::new();
    let result = assembler.assemble(&raws(&ops))?;
    assert_eq!(result, [0x5b, 0x60, 0x00, 0x5b, 0x60, 0x03, 0x60, 0x00]);

    Ok(())
}

#[test]
fn assemble_instruction_macro_with_variable_push() -> Result<(), Error> {
    let ops = vec![
        AbstractOp::Macro(InstructionMacroInvocation {
            name: "my_macro".into(),
            parameters: vec![],
        }),
        InstructionMacroDefinition {
            name: "my_macro".into(),
            parameters: vec![],
            contents: vec![
                plain(JUMPDEST),
                AbstractOp::Push(Imm::with_label("label1")),
                AbstractOp::Push(Imm::with_label("label2")),
                AbstractOp::Label("label1".into()),
                plain(PC),
                AbstractOp::Label("label2".into()),
                plain(PC),
            ],
        }
        .into(),
    ];

    let mut assembler = Assembler::new();
    let result = assembler.assemble(&raws(&ops))?;
    assert_eq!(result, [0x5b, 0x60, 0x05, 0x60, 0x06, 0x58, 0x58]);

    Ok(())
}

#[test]
fn assemble_undeclared_instruction_macro() -> Result<(), Error> {
    let ops = vec![AbstractOp::Macro(
        InstructionMacroInvocation::with_zero_parameters("my_macro".into()),
    )];
    let mut assembler = Assembler::new();
    let err = assembler.assemble(&raws(&ops)).unwrap_err();
    assert!(matches!(err, Error::UndeclaredInstructionMacro { name, .. } if name == "my_macro"));

    Ok(())
}

#[test]
fn assemble_duplicate_instruction_macro() -> Result<(), Error> {
    let ops: Vec<AbstractOp> = vec![
        InstructionMacroDefinition {
            name: "my_macro".into(),
            parameters: vec![],
            contents: vec![plain(CALLER)],
        }
        .into(),
        InstructionMacroDefinition {
            name: "my_macro".into(),
            parameters: vec![],
            contents: vec![plain(CALLER)],
        }
        .into(),
    ];
    let mut assembler = Assembler::new();
    let err = assembler.assemble(&raws(&ops)).unwrap_err();
    assert!(matches!(err, Error::DuplicateMacro { name, .. } if name == "my_macro"));

    Ok(())
}

#[test]
fn assemble_duplicate_labels_in_instruction_macro() -> Result<(), Error> {
    let ops = vec![
        InstructionMacroDefinition {
            name: "my_macro".into(),
            parameters: vec![],
            contents: vec![AbstractOp::Label("a".into()), AbstractOp::Label("a".into())],
        }
        .into(),
        AbstractOp::Macro(InstructionMacroInvocation::with_zero_parameters(
            "my_macro".into(),
        )),
    ];
    let mut assembler = Assembler::new();
    let err = assembler.assemble(&raws(&ops)).unwrap_err();
    assert!(matches!(err, Error::DuplicateLabel { label, .. } if label == "a"));

    Ok(())
}

#[test]
fn assemble_conflicting_labels_in_instruction_macro() -> Result<(), Error> {
    let ops = vec![
        AbstractOp::Label("a".into()),
        plain(CALLER),
        InstructionMacroDefinition {
            name: "my_macro()".into(),
            parameters: vec![],
            contents: vec![
                AbstractOp::Label("a".into()),
                push_fixed(1, Imm::with_label("a")),
            ],
        }
        .into(),
        AbstractOp::Macro(InstructionMacroInvocation::with_zero_parameters(
            "my_macro()".into(),
        )),
        push_fixed(1, Imm::with_label("a")),
    ];
    let mut assembler = Assembler::new();
    let result = assembler.assemble(&raws(&ops))?;

    assert_eq!(result, [0x33, 0x60, 0x01, 0x60, 0x00]);

    Ok(())
}

#[test]
fn assemble_instruction_macro_with_parameters() -> Result<(), Error> {
    let ops = vec![
        InstructionMacroDefinition {
            name: "my_macro".into(),
            parameters: vec!["foo".into(), "bar".into()],
            contents: vec![
                push_fixed(1, Imm::with_variable("foo")),
                push_fixed(1, Imm::with_variable("bar")),
            ],
        }
        .into(),
        AbstractOp::Label("b".into()),
        plain(JUMPDEST),
        push_fixed(1, Imm::with_label("b")),
        AbstractOp::Macro(InstructionMacroInvocation {
            name: "my_macro".into(),
            parameters: vec![
                *integer(0x42),
                *label("b"),
            ],
        }),
    ];

    let mut assembler = Assembler::new();
    let result = assembler.assemble(&raws(&ops))?;
    assert_eq!(result, [0x5b, 0x60, 0x00, 0x60, 0x42, 0x60, 0x00]);

    Ok(())
}

#[test]
fn assemble_expression_push() -> Result<(), Error> {
    let ops = vec![push_fixed(1, Imm::with_expression(
        Expression::Plus(integer(1), integer(1)),
    ))];

    let mut assembler = Assembler::new();
    let result = assembler.assemble(&raws(&ops))?;
    assert_eq!(result, [0x60, 0x02]);

    Ok(())
}

#[test]
fn assemble_expression_negative() -> Result<(), Error> {
    let ops = vec![push_fixed(1, Imm::with_expression(
        *integer(-1),
    ))];
    let mut assembler = Assembler::new();
    let err = assembler.assemble(&raws(&ops)).unwrap_err();
    assert!(matches!(err, Error::ExpressionNegative { value, .. } if value == Integer::from_i128(-1)));

    Ok(())
}

#[test]
fn assemble_expression_undeclared_label() -> Result<(), Error> {
    let mut assembler = Assembler::new();
    let ops = vec![push_fixed(1, Imm::with_expression(
        *label("hi"),
    ))];
    let err = assembler.assemble(&raws(&ops)).unwrap_err();
    assert!(matches!(err, Error::UndeclaredLabels { labels, .. } if labels == vec!["hi"]));
    Ok(())
}

#[test]
fn assemble_variable_push_before_push2() -> Result<(), Error> {
    let mut assembler = Assembler::new();
    let ops = vec![
        AbstractOp::Push(Imm::with_expression(Expression::Plus(
            label("foo"),
            integer(256),
        ))),
        push_fixed(2, Imm::with_label("foo1")),
        AbstractOp::Label("foo".into()),
        AbstractOp::Label("foo1".into()),
    ];
    let result = assembler.assemble(&raws(&ops))?;
    assert_eq!(result, [0x61, 0x01, 0x06, 0x61, 0x00, 0x06]);
    Ok(())
}

#[test]
fn assemble_variable_push_before_push2_inverted() -> Result<(), Error> {
    let mut assembler = Assembler::new();
    let ops = vec![
        AbstractOp::Push(Imm::with_expression(Expression::Plus(
            label("z"),
            integer(256),
        ))),
        push_fixed(2, Imm::with_label("a")),
        AbstractOp::Label("z".into()),
        AbstractOp::Label("a".into()),
    ];
    let result = assembler.assemble(&raws(&ops))?;
    assert_eq!(result, [0x61, 0x01, 0x06, 0x61, 0x00, 0x06]);
    Ok(())
}

#[test]
fn assemble_variable_push_mixed_labels() -> Result<(), Error> {
    let mut assembler = Assembler::new();
    let ops = vec![
        AbstractOp::Push(Imm::with_expression(Expression::Plus(
            label("foo"),
            integer(256),
        ))),
        push_fixed(2, Imm::with_label("foo")),
        AbstractOp::Push(Imm::with_expression(Expression::Plus(
            label("bar"),
            integer(256),
        ))),
        plain(GAS),
        AbstractOp::Label("foo".into()),
        plain(GAS),
        AbstractOp::Label("bar".into()),
    ];
    let result = assembler.assemble(&raws(&ops))?;

    assert_eq!(result, [0x61, 0x01, 0x0a, 0x61, 0x00, 0x0a, 0x61, 0x01, 0x0b, 0x5a, 0x5a]);
    Ok(())
}

#[test]
fn assemble_double_update_variable_push() -> Result<(), Error> {
    let mut assembler = Assembler::new();
    let ops = vec![
        AbstractOp::Push(Imm::with_expression(Expression::Plus(
            label("foo"),
            integer(256),
        ))),
        push_fixed(2, Imm::with_label("foo1")),
        AbstractOp::Push(Imm::with_expression(Expression::Plus(
            label("foo"),
            integer(256),
        ))),
        AbstractOp::Label("foo".into()),
        AbstractOp::Label("foo1".into()),
    ];
    let result = assembler.assemble(&raws(&ops))?;
    assert_eq!(result, [0x61, 0x01, 0x09, 0x61, 0x00, 0x09, 0x61, 0x01, 0x09]);
    Ok(())
}

#[test]
fn assemble_double_update_variable_push2() -> Result<(), Error> {
    let mut assembler = Assembler::new();
    let ops = vec![
        AbstractOp::Push(Imm::with_expression(Expression::Plus(
            label("foo"),
            integer(256),
        ))),
        push_fixed(2, Imm::with_label("foo1")),
        AbstractOp::Push(Imm::with_expression(Expression::Plus(
            label("foo"),
            integer(256),
        ))),
        push_fixed(2, Imm::with_label("foo1")),
        AbstractOp::Label("foo".into()),
        AbstractOp::Label("foo1".into()),
    ];
    let result = assembler.assemble(&raws(&ops))?;
    assert_eq!(result, [0x61, 0x01, 0x0c, 0x61, 0x00, 0x0c, 0x61, 0x01, 0x0c, 0x61, 0x00, 0x0c]);
    Ok(())
}

#[test]
fn assemble_variable_push_expression_with_undeclared_labels() -> Result<(), Error> {
    let mut assembler = Assembler::new();
    let ops = vec![
        plain(JUMPDEST),
        AbstractOp::Push(Imm::with_expression(Expression::Plus(
            label("foo"),
            label("bar"),
        ))),
        plain(GAS),
    ];
    let err = assembler.assemble(&raws(&ops)).unwrap_err();
    // The expressions have short-circuit evaluation, so only the first label is caught in the error.
    assert!(matches!(err, Error::UndeclaredLabels { labels, .. } if (labels.contains(&"foo".to_string()))));
    Ok(())
}

#[test]
fn assemble_variable_push2_comparison_with_undeclared_labels() -> Result<(), Error> {
    let mut assembler = Assembler::new();

    // %push(lbl1 - lbl2)
    // push2 lbl1 + lbl2
    // pc # repeat 126 times.
    // lbl1:
    // lbl2:
    let mut ops = vec![plain(PC); 130];
    ops[0] = AbstractOp::Push(Imm::with_expression(Expression::Minus(
        label("lbl1"),
        label("lbl2"),
    )));
    ops[1] = push_fixed(
        2,
        Imm::with_expression(Expression::Plus(label("lbl1"), label("lbl2"))),
    );
    ops[128] = AbstractOp::Label("lbl1".into());
    ops[129] = AbstractOp::Label("lbl2".into());

    let expected = assembler.assemble(&raws(&ops))?;

    let mut assembler = Assembler::new();

    // %push(lbl1 - lbl2)
    // %push(lbl1 + lbl2)
    // pc # repeat 126 times.
    // lbl1:
    // lbl2:
    ops[1] = AbstractOp::Push(Imm::with_expression(Expression::Plus(
        label("lbl1"),
        label("lbl2"),
    )));
    let result = assembler.assemble(&raws(&ops))?;

    // Sanity check the expected result: should use push1 then push2.
    assert_eq!(expected[0], 0x60);
    assert_eq!(expected[2], 0x61);

    // Assert that the two results are identical.
    assert_eq!(expected, result);
    Ok(())
}

#[test]
fn assemble_variable_push1_expression() -> Result<(), Error> {
    let mut assembler = Assembler::new();
    let ops = vec![
        plain(JUMPDEST),
        AbstractOp::Label("auto".into()),
        AbstractOp::Push(Imm::with_expression(Expression::Plus(
            integer(1),
            label("auto"),
        ))),
    ];
    let result = assembler.assemble(&raws(&ops))?;
    assert_eq!(result, [0x5b, 0x60, 0x02]);
    Ok(())
}

#[test]
fn assemble_expression_with_labels() -> Result<(), Error> {
    let mut assembler = Assembler::new();
    let ops = vec![
        plain(JUMPDEST),
        AbstractOp::Push(Imm::with_expression(Expression::Plus(
            label("foo"),
            label("bar"),
        ))),
        plain(GAS),
        AbstractOp::Label("foo".into()),
        AbstractOp::Label("bar".into()),
    ];
    let result = assembler.assemble(&raws(&ops))?;
    assert_eq!(result, [0x5b, 0x60, 0x08, 0x5a]);
    Ok(())
}

#[test]
fn assemble_expression_macro_push() -> Result<(), Error> {
    let ops = vec![
        ExpressionMacroDefinition {
            name: "foo".into(),
            parameters: vec![],
            content: Imm::with_expression(Expression::Plus(integer(1), integer(1))),
        }
        .into(),
        push_fixed(1, Imm::with_macro(ExpressionMacroInvocation {
            name: "foo".into(),
            parameters: vec![],
        })),
    ];

    let mut assembler = Assembler::new();
    let result = assembler.assemble(&raws(&ops))?;
    assert_eq!(result, [0x60, 0x02]);

    Ok(())
}

#[test]
fn assemble_instruction_macro_with_undeclared_variables() {
    let ops = vec![
        InstructionMacroDefinition {
            name: "my_macro".into(),
            parameters: vec!["foo".into()],
            contents: vec![push_fixed(1, Imm::with_variable("bar"))],
        }
        .into(),
        AbstractOp::Label("b".into()),
        plain(JUMPDEST),
        push_fixed(1, Imm::with_label("b")),
        AbstractOp::Macro(InstructionMacroInvocation {
            name: "my_macro".into(),
            parameters: vec![*integer(0x42)],
        }),
    ];

    let mut assembler = Assembler::new();
    let err = assembler.assemble(&raws(&ops)).unwrap_err();

    assert!(matches!(err, Error::UndeclaredVariableMacro { var, .. } if var == "bar"));
}

#[test]
fn assemble_instruction_macro_two_delayed_definitions_mirrored() -> Result<(), Error> {
    let ops = vec![
        plain(PC),
        AbstractOp::Macro(InstructionMacroInvocation {
            name: "macro1".into(),
            parameters: vec![],
        }),
        AbstractOp::Macro(InstructionMacroInvocation {
            name: "macro0".into(),
            parameters: vec![],
        }),
        InstructionMacroDefinition {
            name: "macro0".into(),
            parameters: vec![],
            contents: vec![plain(JUMPDEST)],
        }
        .into(),
        InstructionMacroDefinition {
            name: "macro1".into(),
            parameters: vec![],
            contents: vec![plain(CALLER)],
        }
        .into(),
    ];

    let mut assembler = Assembler::new();
    let result = assembler.assemble(&raws(&ops))?;
    assert_eq!(result, [0x58, 0x33, 0x5b]);

    Ok(())
}

#[test]
fn evmgif_rejects_non_jumpdest_start() {
    let mut assembler = Assembler::with_evmgif_offset(0);
    // First op is GetPc, not JumpDest -> should fail.
    let ops = vec![plain(PC), plain(JUMPDEST)];
    let err = assembler.assemble(&raws(&ops)).unwrap_err();
    assert!(matches!(err,
        Error::EvmGifFirstNotJumpdest { actual: Some(0x58), .. }));
}

#[test]
fn evmgif_rejects_empty_program() {
    let mut assembler = Assembler::with_evmgif_offset(0);
    let ops: Vec<AbstractOp> = vec![];
    let err = assembler.assemble(&raws(&ops)).unwrap_err();
    assert!(matches!(err, Error::EvmGifFirstNotJumpdest { actual: None, .. }));
}

#[test]
fn evmgif_smallest_program_just_jumpdest() -> Result<(), Error> {
    // The leading JUMPDEST is absorbed into the first header. With no
    // other instructions chunk 0 has zero content, so:
    //   size_0 = 2 (JUMPDEST + POP that follow it)
    let mut assembler = Assembler::with_evmgif_offset(0);
    let ops = vec![plain(JUMPDEST)];
    let result = assembler.assemble(&raws(&ops))?;
    // 9 magic bytes + <size_0=2> JUMPDEST POP
    assert_eq!(result, [0x21, 0xff, 0x06, 0x45, 0x56, 0x4d, 0x47, 0x49, 0x46, 0x02, 0x5b, 0x50]);
    Ok(())
}

#[test]
fn evmgif_short_program_offset_zero() -> Result<(), Error> {
    // Layout: MAGIC | <size_0=4> JUMPDEST POP GAS STOP
    // size_0 counts JUMPDEST + POP + GAS + STOP = 4 bytes.
    let mut assembler = Assembler::with_evmgif_offset(0);
    let ops = vec![
        plain(JUMPDEST),
        plain(GAS),
        plain(STOP),
    ];
    let result = assembler.assemble(&raws(&ops))?;
    assert_eq!(result, [0x21, 0xff, 0x06, 0x45, 0x56, 0x4d, 0x47, 0x49, 0x46, 0x04, 0x5b, 0x50, 0x5a, 0x00]);
    Ok(())
}

#[test]
fn evmgif_label_push_picks_up_offset() -> Result<(), Error> {
    // Layout (unchunked positions): the leading JUMPDEST is at 0, the
    // label `dest` is declared next and points at the *second*
    // JUMPDEST at unchunked pos 1. In the chunked output that lands at
    // EVMGIF_MAGIC.len() (9) + size byte (1) + POP (1) = 12, plus the
    // caller offset 0x10, giving 0x1c.
    let mut assembler = Assembler::with_evmgif_offset(0x10);
    let ops = vec![
        plain(JUMPDEST),
        AbstractOp::Label("dest".into()),
        plain(JUMPDEST),
        push_fixed(1, Imm::with_label("dest")),
        plain(JUMP),
    ];
    let result = assembler.assemble(&raws(&ops))?;
    // MAGIC | <size_0=6> JUMPDEST POP | JUMPDEST(dest) PUSH1 0x1c JUMP
    let mut expected = EVMGIF_MAGIC.to_vec();
    expected.extend_from_slice(&[0x06, 0x5b, 0x50]);
    expected.extend_from_slice(&[0x5b, 0x60, 0x1c, 0x56]);
    assert_eq!(result, expected);
    Ok(())
}

#[test]
fn evmgif_inserts_chunk_header_when_content_exceeds_limit() -> Result<(), Error> {
    // 1 JUMPDEST + 254 GAS ops in the unchunked stream. Chunk 0 can hold
    // at most 253 bytes of user content; instruction #254 spills into
    // chunk 1.
    let mut ops: Vec<AbstractOp> = Vec::with_capacity(255);
    ops.push(plain(JUMPDEST));
    for _ in 0..254 {
        ops.push(plain(GAS));
    }
    let mut assembler = Assembler::with_evmgif_offset(0);
    let result = assembler.assemble(&raws(&ops))?;

    // MAGIC (9) | <size_0 = 2 + 253 = 255> JUMPDEST POP (3)
    // Chunk 0 content: 253 GAS bytes.
    // PUSH1 <size_1 = 1 + 1 = 2> POP (3)
    // Chunk 1 content: 1 GAS byte.
    let mut expected = EVMGIF_MAGIC.to_vec();
    expected.extend_from_slice(&[255u8, JUMPDEST, POP]);
    expected.extend(std::iter::repeat(0x5a).take(253));
    expected.extend_from_slice(&[PUSH1, 0x02, POP]);
    expected.push(0x5a);
    assert_eq!(result, expected);
    Ok(())
}

#[test]
fn evmgif_label_in_second_chunk_picks_up_chunk_shift() -> Result<(), Error> {
    // The label lands inside the second chunk, so the pushed value
    // includes the 9-byte magic, the +2 prefix shift and the +3
    // second-chunk header. With offset 0, the chunked position of
    // `dest` is: unchunked_pos(dest) + 9 + 2 + 3 = (1 + 253) + 14 = 268.
    let mut ops: Vec<AbstractOp> = Vec::new();
    ops.push(plain(JUMPDEST));
    for _ in 0..253 {
        ops.push(plain(GAS));
    }
    ops.push(AbstractOp::Label("dest".into()));
    ops.push(plain(JUMPDEST));
    ops.push(push_fixed(2, Imm::with_label("dest")));

    let mut assembler = Assembler::with_evmgif_offset(0);
    let result = assembler.assemble(&raws(&ops))?;

    // PUSH2 sits at chunked offset (unchunked 255 + 9 + 2 + 3) = 269;
    // the immediate occupies bytes 270..272.
    // 268 == 0x010c.
    assert_eq!(result[270], 0x01);
    assert_eq!(result[271], 0x0c);

    // Sanity-check chunk 1 header sits in the right place: chunk 0
    // spans bytes 12..265 of output; header 1 at 265..268.
    assert_eq!(result[265], PUSH1);
    // size_1 = 1 (POP) + (final chunk content length)
    // chunk 1 content = JUMPDEST(dest) + PUSH2 + 2 bytes = 4
    assert_eq!(result[266], 0x05);
    assert_eq!(result[267], POP);

    // And the leading 9 bytes are the magic identifier.
    assert_eq!(&result[..9], &EVMGIF_MAGIC);
    Ok(())
}

#[test]
fn evmgif_push_overflow_when_value_outgrows_immediate() {
    // PUSH1 referencing a label whose chunked + offset position exceeds
    // 255 must fail with EvmGifPushOverflow rather than silently
    // truncating.
    let mut assembler = Assembler::with_evmgif_offset(0xff00);
    let ops = vec![
        plain(JUMPDEST),
        push_fixed(1, Imm::with_label("self_ref")),
        AbstractOp::Label("self_ref".into()),
        plain(JUMPDEST),
    ];
    let err = assembler.assemble(&raws(&ops)).unwrap_err();
    assert!(matches!(err, Error::EvmGifPushOverflow { push_size: 1, .. }));
}

#[test]
fn evmgif_prepends_magic_header() -> Result<(), Error> {
    // Regardless of program content, every evmgif payload starts with
    // the 9-byte magic header.
    let mut assembler = Assembler::with_evmgif_offset(0);
    let ops = vec![plain(JUMPDEST), plain(STOP)];
    let result = assembler.assemble(&raws(&ops))?;
    assert_eq!(&result[..9], &EVMGIF_MAGIC);
    Ok(())
}

#[test]
fn assemble_instruction_macro_two_delayed_definitions() -> Result<(), Error> {
    let ops = vec![
        plain(PC),
        AbstractOp::Macro(InstructionMacroInvocation {
            name: "macro0".into(),
            parameters: vec![],
        }),
        AbstractOp::Macro(InstructionMacroInvocation {
            name: "macro1".into(),
            parameters: vec![],
        }),
        InstructionMacroDefinition {
            name: "macro0".into(),
            parameters: vec![],
            contents: vec![plain(JUMPDEST)],
        }
        .into(),
        InstructionMacroDefinition {
            name: "macro1".into(),
            parameters: vec![],
            contents: vec![plain(CALLER)],
        }
        .into(),
    ];

    let mut assembler = Assembler::new();
    let result = assembler.assemble(&raws(&ops))?;
    assert_eq!(result, [0x58, 0x5b, 0x33]);

    Ok(())
}
