//! Programs that a GIF file carries.

use etk_asm::assembler::Assembler;
use etk_asm::error::{Error, Failure, Fault};
use etk_asm::evmgif::{
    assemble_chunked, build_position_map, decode_instruction_starts, plan_chunks, ChunkBoundaries,
    EVMGIF_MAGIC,
};
use etk_asm::expression::{Expression, Terminal};
use etk_asm::integer::Integer;
use etk_asm::labels::LabelDef;
use etk_asm::nonces::Nonces;
use etk_asm::offset::{parse_offset, OffsetError};
use etk_asm::ops::{AbstractOp, Imm, Op, RawOp};

const JUMPDEST: u8 = 0x5b;

fn plain(code: u8) -> RawOp {
    RawOp::Op(AbstractOp::new(Op::new(code).unwrap()))
}

fn push_fixed(width: u8, tree: Expression) -> RawOp {
    RawOp::Op(AbstractOp::new(
        Op::with_immediate(0x5f + width, Imm::with_expression(tree)).unwrap(),
    ))
}

fn here(name: &str) -> RawOp {
    RawOp::Op(AbstractOp::Label(name.to_string()))
}

fn label(name: &str) -> Expression {
    Expression::Terminal(Terminal::Label(name.to_string()))
}

fn number(value: i128) -> Expression {
    Expression::Terminal(Terminal::Number(Integer::from_i128(value)))
}

fn pack(offset: u64, ops: &[RawOp]) -> Result<Vec<u8>, Failure> {
    Assembler::with_evmgif_offset(offset).assemble_with(ops, &mut Nonces::random())
}

#[test]
fn instructions_are_found_one_after_the_other() {
    assert_eq!(decode_instruction_starts(&[]), Vec::<usize>::new());
    assert_eq!(
        decode_instruction_starts(&[0x5b, 0x60, 0x60, 0x62, 1, 2, 3, 0x0c, 0x7f, 0]),
        [0, 1, 3, 7, 8]
    );
}

#[test]
fn chunks_are_planned_greedily() {
    let starts: Vec<usize> = (0..600).collect();
    let boundaries = plan_chunks(&starts, 600);
    assert_eq!(boundaries.header_at, [1, 254, 507]);
    assert_eq!(boundaries.unchunked_len, 600);
    assert_eq!(plan_chunks(&[0], 1).header_at, [1]);
    // An instruction that does not fit any more moves to the next chunk as a whole.
    assert_eq!(plan_chunks(&[0, 1, 253, 286], 287).header_at, [1, 253]);
    // An instruction that fits in no chunk has one of its own.
    assert_eq!(plan_chunks(&[0, 1, 2, 300, 301], 302).header_at, [1, 2, 300]);
}

#[test]
fn positions_are_shifted_by_the_headers() {
    let boundaries = ChunkBoundaries { header_at: vec![1, 254], unchunked_len: 300 };
    let map = build_position_map(&[0, 1, 253, 254, 299], &boundaries);
    assert_eq!(map.len(), 6);
    assert_eq!(map[&0], 10);
    assert_eq!(map[&1], 12);
    assert_eq!(map[&253], 264);
    assert_eq!(map[&254], 268);
    assert_eq!(map[&299], 313);
    // The end of the program.
    assert_eq!(map[&300], 314);
}

#[test]
fn chunks_are_put_behind_their_headers() {
    let boundaries = ChunkBoundaries { header_at: vec![1, 3], unchunked_len: 4 };
    let mut expected = EVMGIF_MAGIC.to_vec();
    expected.extend_from_slice(&[4, 0x5b, 0x50, 7, 8, 0x60, 2, 0x50, 9]);
    assert_eq!(assemble_chunked(&[0x5b, 7, 8, 9], &boundaries), expected);
}

#[test]
fn every_size_leads_to_the_next_header() {
    let mut ops = vec![plain(JUMPDEST)];
    for _ in 0..200 {
        ops.push(push_fixed(4, number(0x01020304)));
    }
    let out = pack(0, &ops).unwrap();
    let mut at = 9;
    let mut next = at + 1 + out[at] as usize;
    let mut headers = 1;
    assert_eq!(&out[at + 1..at + 3], &[0x5b, 0x50]);
    while next < out.len() {
        assert!(next - at <= 256);
        at = next;
        assert_eq!(out[at], 0x60);
        assert_eq!(out[at + 2], 0x50);
        next = at + 2 + out[at + 1] as usize;
        headers += 1;
    }
    assert_eq!(next, out.len());
    assert_eq!(out.len(), 9 + 3 * headers + 1000);
    // Fifty pushes of five bytes fit in a chunk.
    assert_eq!(headers, 4);
}

#[test]
fn program_bytes_are_copied_in_order() {
    let mut program = vec![JUMPDEST];
    program.extend((0..1000u32).map(|i| (i % 0x50) as u8));
    let out = pack(0, &[RawOp::Raw(program.clone())]).unwrap();
    let starts = decode_instruction_starts(&program);
    let boundaries = plan_chunks(&starts, program.len());
    let map = build_position_map(&starts, &boundaries);
    for start in starts {
        assert_eq!(out[map[&start]], program[start]);
    }
}

#[test]
fn entry_point_is_ten_bytes_behind_the_offset() {
    let ops = vec![here("entry"), plain(JUMPDEST), push_fixed(2, label("entry"))];
    let mut assembler = Assembler::with_evmgif_offset(0x100);
    let out = assembler.assemble(&ops).unwrap();
    assert_eq!(out[10], JUMPDEST);
    assert_eq!(&out[12..], &[0x61, 0x01, 0x0a]);
    assert_eq!(
        assembler.declared_label("entry"),
        Some(Some(LabelDef { position: 0x10a, updated: true }))
    );
}

#[test]
fn several_pushes_are_written_anew() {
    let ops = vec![
        plain(JUMPDEST),
        push_fixed(3, label("a")),
        push_fixed(1, number(7)),
        here("a"),
        plain(JUMPDEST),
        push_fixed(2, Expression::Plus(Box::new(label("a")), Box::new(number(1)))),
    ];
    // The label is at 7 in the program.
    let out = pack(0x1000, &ops).unwrap();
    assert_eq!(
        &out[12..],
        &[0x62, 0x00, 0x10, 0x12, 0x60, 7, 0x5b, 0x61, 0x10, 0x13]
    );
}

#[test]
fn overflowing_push_is_refused() {
    let ops = vec![plain(JUMPDEST), here("a"), push_fixed(1, label("a"))];
    assert_eq!(
        pack(0x100, &ops),
        Err(Failure::Error(Error::EvmGifPushOverflow {
            expr: label("a"),
            value: Integer::from_i128(0x10c),
            push_size: 1,
        }))
    );
}

#[test]
fn label_that_points_at_no_instruction_is_a_fault() {
    let ops = vec![plain(JUMPDEST), RawOp::Raw(vec![0x61]), here("a"), RawOp::Raw(vec![1, 2])];
    assert_eq!(pack(0, &ops), Err(Failure::Fault(Fault::LabelInsideInstruction)));
}

#[test]
fn push_that_is_taken_for_an_immediate_is_a_fault() {
    let ops = vec![
        plain(JUMPDEST),
        here("a"),
        RawOp::Raw(vec![0x60]),
        push_fixed(1, label("a")),
    ];
    assert_eq!(pack(0, &ops), Err(Failure::Fault(Fault::PushInsideInstruction)));
}

#[test]
fn value_that_turns_negative_is_refused() {
    let tree = || Expression::Minus(Box::new(number(20)), Box::new(label("dest")));
    let ops = vec![plain(JUMPDEST), here("dest"), plain(JUMPDEST), push_fixed(1, tree())];
    assert_eq!(
        pack(0x10, &ops),
        Err(Failure::Error(Error::ExpressionNegative {
            expr: tree(),
            value: Integer::from_i128(-8),
        }))
    );
}

#[test]
fn label_at_the_end_points_behind_the_output() {
    let ops = vec![plain(JUMPDEST), push_fixed(1, label("end")), here("end")];
    let mut expected = EVMGIF_MAGIC.to_vec();
    expected.extend_from_slice(&[0x04, 0x5b, 0x50, 0x60, 0x0e]);
    assert_eq!(pack(0, &ops).unwrap(), expected);
    let mut assembler = Assembler::with_evmgif_offset(3);
    let out = assembler.assemble(&[plain(JUMPDEST), here("end")]).unwrap();
    assert_eq!(assembler.declared_label("end").unwrap().unwrap().position(), out.len() + 3);
}

#[test]
fn unsized_push_is_widened_for_its_value_in_the_file() {
    let ops = vec![
        plain(JUMPDEST),
        RawOp::Op(AbstractOp::Push(Imm::with_label("self_ref"))),
        here("self_ref"),
        plain(JUMPDEST),
    ];
    let mut expected = EVMGIF_MAGIC.to_vec();
    expected.extend_from_slice(&[0x06, 0x5b, 0x50, 0x61, 0xff, 0x0f, 0x5b]);
    assert_eq!(pack(0xff00, &ops).unwrap(), expected);
}

#[test]
fn next_program_for_a_gif_counts_from_its_own_start() {
    let mut assembler = Assembler::with_evmgif_offset(0);
    assembler.assemble(&[plain(JUMPDEST), plain(0x00)]).unwrap();
    let ops = [plain(JUMPDEST), here("a"), plain(JUMPDEST), push_fixed(1, label("a"))];
    let out = assembler.assemble(&ops).unwrap();
    assert_eq!(&out[12..], &[0x5b, 0x60, 12]);
}

#[test]
fn offset_beyond_the_last_position_is_a_fault() {
    let ops = vec![here("a"), plain(JUMPDEST)];
    assert_eq!(pack(u64::MAX, &ops), Err(Failure::Fault(Fault::OffsetOverflow)));
}

#[test]
fn offsets_are_decimal_or_hexadecimal() {
    assert_eq!(parse_offset("0"), Ok(0));
    assert_eq!(parse_offset("42"), Ok(42));
    assert_eq!(parse_offset("+42"), Ok(42));
    assert_eq!(parse_offset("0x2a"), Ok(42));
    assert_eq!(parse_offset("0X2A"), Ok(42));
    assert_eq!(parse_offset("0x+ff"), Ok(255));
    assert_eq!(parse_offset("18446744073709551615"), Ok(u64::MAX));
    assert_eq!(parse_offset("0xffffffffffffffff"), Ok(u64::MAX));
    assert_eq!(parse_offset("0000000000000000000000000007"), Ok(7));
}

#[test]
fn other_texts_are_no_offsets() {
    assert_eq!(parse_offset(""), Err(OffsetError::Empty));
    assert_eq!(parse_offset("0x"), Err(OffsetError::Empty));
    assert_eq!(parse_offset("+"), Err(OffsetError::InvalidDigit));
    assert_eq!(parse_offset("-"), Err(OffsetError::InvalidDigit));
    assert_eq!(parse_offset("-1"), Err(OffsetError::InvalidDigit));
    assert_eq!(parse_offset("2a"), Err(OffsetError::InvalidDigit));
    assert_eq!(parse_offset("0xg"), Err(OffsetError::InvalidDigit));
    assert_eq!(parse_offset("1 "), Err(OffsetError::InvalidDigit));
    assert_eq!(parse_offset("\u{664}"), Err(OffsetError::InvalidDigit));
    assert_eq!(parse_offset("18446744073709551616"), Err(OffsetError::PosOverflow));
    assert_eq!(parse_offset("0x10000000000000000"), Err(OffsetError::PosOverflow));
    assert_eq!(parse_offset("184467440737095516160x"), Err(OffsetError::PosOverflow));
    assert_eq!(parse_offset("1844674407370955161x"), Err(OffsetError::InvalidDigit));
}

#[test]
fn offsets_agree_with_the_standard_library() {
    for text in ["", "+", "-", "7", "+7", "-7", "a", "18446744073709551615", "18446744073709551616"] {
        assert_eq!(parse_offset(text).ok(), text.parse::<u64>().ok(), "{}", text);
        let hex = format!("0x{}", text);
        assert_eq!(parse_offset(&hex).ok(), u64::from_str_radix(text, 16).ok(), "{}", hex);
    }
}

#[test]
fn integers_keep_their_value() {
    assert_eq!(Integer::from_i128(0).to_bytes_be(), (false, vec![0]));
    assert_eq!(Integer::from_i128(256).to_bytes_be(), (false, vec![1, 0]));
    assert_eq!(Integer::from_i128(-256).to_bytes_be(), (true, vec![1, 0]));
    assert_eq!(Integer::from_signed_bytes_be(&[]).to_bytes_be(), (false, vec![0]));
    assert_eq!(Integer::from_signed_bytes_be(&[0x80]).to_bytes_be(), (true, vec![0x80]));
    assert_eq!(Integer::from_signed_bytes_be(&[0, 0x80]).to_bytes_be(), (false, vec![0x80]));
    assert_eq!(Integer::from_signed_bytes_be(&[0, 0, 5]), Integer::from_i128(5));
    assert_eq!(Integer::from_i128(5).clone(), Integer::from_i128(5));
}
