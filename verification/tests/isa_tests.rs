use transient::bytes::{parse_dec, u64_pad_be, u64_to_dec};
use transient::isa::{
    decode_instruction, encode_operation, gen_binary_instruction, resolve_operation_opcode,
    Operation,
};

#[test]
fn opcodes_match_the_table() {
    assert_eq!(resolve_operation_opcode(&Operation::Mov(1, 0, 0)), 0x01);
    assert_eq!(resolve_operation_opcode(&Operation::Add(1, 0, 0, 0)), 0x02);
    assert_eq!(resolve_operation_opcode(&Operation::Sub(1, 0, 0, 0)), 0x03);
    assert_eq!(resolve_operation_opcode(&Operation::Mul(1, 0, 0, 0)), 0x04);
    assert_eq!(resolve_operation_opcode(&Operation::DivT(1, 0, 0, 0)), 0x05);
    assert_eq!(resolve_operation_opcode(&Operation::DivR(1, 0, 0, 0)), 0x06);
    assert_eq!(resolve_operation_opcode(&Operation::Rem(1, 0, 0, 0)), 0x07);
    assert_eq!(resolve_operation_opcode(&Operation::Cgt(1, 0, 0, 0)), 0x08);
    assert_eq!(resolve_operation_opcode(&Operation::Clt(1, 0, 0, 0)), 0x09);
    assert_eq!(resolve_operation_opcode(&Operation::Jmp(0)), 0x0A);
    assert_eq!(resolve_operation_opcode(&Operation::Jie(1, 0, 0)), 0x0B);
    assert_eq!(resolve_operation_opcode(&Operation::Jne(1, 0, 0)), 0x0C);
    assert_eq!(resolve_operation_opcode(&Operation::PutI(1, 0)), 0x0D);
    assert_eq!(resolve_operation_opcode(&Operation::PutC(1, 0)), 0x0E);
    assert_eq!(resolve_operation_opcode(&Operation::Imz(1, 0)), 0x0F);
    assert_eq!(resolve_operation_opcode(&Operation::Equ(1, 0, 0, 0)), 0x10);
    assert_eq!(resolve_operation_opcode(&Operation::Hlt()), 0xFF);
}

#[test]
fn every_instruction_encodes_to_eight_bytes() {
    let ops = vec![
        Operation::Mov(1, 2, 3),
        Operation::Add(8, 10, 20, 30),
        Operation::Jmp(0x1234),
        Operation::Jie(2, 8, 16),
        Operation::PutI(4, 100),
        Operation::Imz(8, 40),
        Operation::Hlt(),
    ];
    for op in &ops {
        assert_eq!(encode_operation(op).len(), 8);
    }
}

#[test]
fn encoding_is_big_endian_with_zero_filled_slots() {
    assert_eq!(encode_operation(&Operation::Mov(1, 2, 3)), [0x01, 1, 0, 2, 0, 0, 0, 3]);
    assert_eq!(
        encode_operation(&Operation::Add(8, 0x1234, 0x0506, 0x0708)),
        [0x02, 8, 0x12, 0x34, 0x05, 0x06, 0x07, 0x08]
    );
    // `jmp` and `hlt` carry a zero size byte; `jmp`'s target sits in src1.
    assert_eq!(encode_operation(&Operation::Jmp(0x1234)), [0x0A, 0, 0x12, 0x34, 0, 0, 0, 0]);
    assert_eq!(encode_operation(&Operation::Hlt()), [0xFF, 0, 0, 0, 0, 0, 0, 0]);
    // `imz` has only a destination.
    assert_eq!(encode_operation(&Operation::Imz(8, 0x0102)), [0x0F, 8, 0, 0, 0, 0, 0x01, 0x02]);
}

#[test]
fn gen_binary_instruction_packs_the_record() {
    assert_eq!(
        gen_binary_instruction(0x0B, 4, 0xABCD, 0x00FF, 0x0001),
        [0x0B, 4, 0xAB, 0xCD, 0x00, 0xFF, 0x00, 0x01]
    );
}

#[test]
fn decode_inverts_encode() {
    let ops = vec![
        Operation::Mov(1, 2, 3),
        Operation::Add(8, 10, 20, 30),
        Operation::Sub(4, 1, 2, 3),
        Operation::Mul(2, 5, 6, 7),
        Operation::DivT(8, 1, 2, 3),
        Operation::DivR(8, 1, 2, 3),
        Operation::Rem(1, 9, 8, 7),
        Operation::Cgt(1, 1, 2, 3),
        Operation::Clt(1, 1, 2, 3),
        Operation::Jmp(0xFFFF),
        Operation::Jie(2, 8, 16),
        Operation::Jne(2, 8, 16),
        Operation::PutI(4, 100),
        Operation::PutC(1, 50),
        Operation::Imz(8, 40),
        Operation::Equ(8, 3, 2, 1),
        Operation::Hlt(),
    ];
    for op in &ops {
        assert_eq!(decode_instruction(&encode_operation(op)), Some(*op));
    }
}

#[test]
fn decode_rejects_unknown_opcodes() {
    assert_eq!(decode_instruction(&[0x00, 0, 0, 0, 0, 0, 0, 0]), None);
    assert_eq!(decode_instruction(&[0x11, 0, 0, 0, 0, 0, 0, 0]), None);
    assert_eq!(decode_instruction(&[0xFE, 0, 0, 0, 0, 0, 0, 0]), None);
}

#[test]
fn u64_pad_be_right_aligns() {
    assert_eq!(u64_pad_be(&[]), [0, 0, 0, 0, 0, 0, 0, 0]);
    assert_eq!(u64_pad_be(&[1, 2]), [0, 0, 0, 0, 0, 0, 1, 2]);
    assert_eq!(u64_pad_be(&[9, 8, 7, 6, 5, 4, 3, 2]), [9, 8, 7, 6, 5, 4, 3, 2]);
}

#[test]
fn decimal_rendering() {
    assert_eq!(u64_to_dec(0), b"0".to_vec());
    assert_eq!(u64_to_dec(5), b"5".to_vec());
    assert_eq!(u64_to_dec(1234567890), b"1234567890".to_vec());
    assert_eq!(u64_to_dec(u64::MAX), b"18446744073709551615".to_vec());
}

#[test]
fn decimal_parsing() {
    assert_eq!(parse_dec(&b"0".to_vec()), Some(0));
    assert_eq!(parse_dec(&b"65".to_vec()), Some(65));
    assert_eq!(parse_dec(&b"18446744073709551615".to_vec()), Some(u64::MAX));
    assert_eq!(parse_dec(&b"18446744073709551616".to_vec()), None);
    assert_eq!(parse_dec(&b"".to_vec()), None);
    assert_eq!(parse_dec(&b"12a".to_vec()), None);
    assert_eq!(parse_dec(&b"+5".to_vec()), None);
}
