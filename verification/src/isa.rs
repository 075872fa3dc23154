//! The Transient instruction-set architecture: the seventeen operations, the
//! mapping between operations and opcode bytes, and the fixed 8-byte binary
//! instruction encoding shared by the assembler and the virtual machine.
use vstd::prelude::*;

verus! {

pub const OP_MOV: u8 = 0x01;

pub const OP_ADD: u8 = 0x02;

pub const OP_SUB: u8 = 0x03;

pub const OP_MUL: u8 = 0x04;

pub const OP_DIVT: u8 = 0x05;

pub const OP_DIVR: u8 = 0x06;

pub const OP_REM: u8 = 0x07;

pub const OP_CGT: u8 = 0x08;

pub const OP_CLT: u8 = 0x09;

pub const OP_JMP: u8 = 0x0A;

pub const OP_JIE: u8 = 0x0B;

pub const OP_JNE: u8 = 0x0C;

pub const OP_PUTI: u8 = 0x0D;

pub const OP_PUTC: u8 = 0x0E;

pub const OP_IMZ: u8 = 0x0F;

pub const OP_EQU: u8 = 0x10;

pub const OP_HLT: u8 = 0xFF;

/// One Transient instruction: an opcode with its operand slots in declaration
/// order. A `size` slot is an operand width in bytes (1, 2, 4 or 8); the
/// other slots are memory addresses, except the jump targets of `Jmp`, `Jie`
/// and `Jne`, which are address literals resolved at assembly time.
#[derive(Debug, Hash, Eq, PartialEq, Structural, Clone, Copy)]
pub enum Operation {
    /// size, src1, dest
    Mov(usize, usize, usize),
    /// size, src1, src2, dest
    Add(usize, usize, usize, usize),
    /// size, src1, src2, dest
    Sub(usize, usize, usize, usize),
    /// size, src1, src2, dest
    Mul(usize, usize, usize, usize),
    /// size, src1, src2, dest
    DivT(usize, usize, usize, usize),
    /// size, src1, src2, dest
    DivR(usize, usize, usize, usize),
    /// size, src1, src2, dest
    Rem(usize, usize, usize, usize),
    /// size, src1, src2, dest
    Cgt(usize, usize, usize, usize),
    /// size, src1, src2, dest
    Clt(usize, usize, usize, usize),
    /// src1 (a jump target literal)
    Jmp(usize),
    /// size, src1 (target literal), src2 (condition address)
    Jie(usize, usize, usize),
    /// size, src1 (target literal), src2 (condition address)
    Jne(usize, usize, usize),
    /// size, src1
    PutI(usize, usize),
    /// size, src1
    PutC(usize, usize),
    /// size, dest
    Imz(usize, usize),
    /// size, src1, src2, dest
    Equ(usize, usize, usize, usize),
    Hlt(),
}

/// The opcode byte of each operation.
pub open spec fn opcode_of(operation: Operation) -> u8 {
    match operation {
        Operation::Mov(..) => OP_MOV,
        Operation::Add(..) => OP_ADD,
        Operation::Sub(..) => OP_SUB,
        Operation::Mul(..) => OP_MUL,
        Operation::DivT(..) => OP_DIVT,
        Operation::DivR(..) => OP_DIVR,
        Operation::Rem(..) => OP_REM,
        Operation::Cgt(..) => OP_CGT,
        Operation::Clt(..) => OP_CLT,
        Operation::Jmp(..) => OP_JMP,
        Operation::Jie(..) => OP_JIE,
        Operation::Jne(..) => OP_JNE,
        Operation::PutI(..) => OP_PUTI,
        Operation::PutC(..) => OP_PUTC,
        Operation::Imz(..) => OP_IMZ,
        Operation::Equ(..) => OP_EQU,
        Operation::Hlt(..) => OP_HLT,
    }
}

pub fn resolve_operation_opcode(operation: &Operation) -> (r: u8)
    ensures
        r == opcode_of(*operation),
{
    match operation {
        Operation::Mov(..) => OP_MOV,
        Operation::Add(..) => OP_ADD,
        Operation::Sub(..) => OP_SUB,
        Operation::Mul(..) => OP_MUL,
        Operation::DivT(..) => OP_DIVT,
        Operation::DivR(..) => OP_DIVR,
        Operation::Rem(..) => OP_REM,
        Operation::Cgt(..) => OP_CGT,
        Operation::Clt(..) => OP_CLT,
        Operation::Jmp(..) => OP_JMP,
        Operation::Jie(..) => OP_JIE,
        Operation::Jne(..) => OP_JNE,
        Operation::PutI(..) => OP_PUTI,
        Operation::PutC(..) => OP_PUTC,
        Operation::Imz(..) => OP_IMZ,
        Operation::Equ(..) => OP_EQU,
        Operation::Hlt(..) => OP_HLT,
    }
}

/// The 8-byte instruction record: opcode, size byte, then the three operand
/// slots as big-endian 16-bit fields. Oversized inputs are truncated to the
/// field widths.
pub open spec fn instr_bytes(opcode: u8, size: int, src1: int, src2: int, dest: int) -> Seq<u8> {
    seq![
        opcode,
        (size % 256) as u8,
        ((src1 % 65536) / 256) as u8,
        (src1 % 256) as u8,
        ((src2 % 65536) / 256) as u8,
        (src2 % 256) as u8,
        ((dest % 65536) / 256) as u8,
        (dest % 256) as u8,
    ]
}

/// The encoding of an operation: unused slots are zero-filled; `jmp` and
/// `hlt` carry a zero size byte.
pub open spec fn encode_spec(operation: Operation) -> Seq<u8> {
    match operation {
        Operation::Mov(s, a, d) => instr_bytes(OP_MOV, s as int, a as int, 0, d as int),
        Operation::Add(s, a, b, d) => instr_bytes(OP_ADD, s as int, a as int, b as int, d as int),
        Operation::Sub(s, a, b, d) => instr_bytes(OP_SUB, s as int, a as int, b as int, d as int),
        Operation::Mul(s, a, b, d) => instr_bytes(OP_MUL, s as int, a as int, b as int, d as int),
        Operation::DivT(s, a, b, d) => instr_bytes(OP_DIVT, s as int, a as int, b as int, d as int),
        Operation::DivR(s, a, b, d) => instr_bytes(OP_DIVR, s as int, a as int, b as int, d as int),
        Operation::Rem(s, a, b, d) => instr_bytes(OP_REM, s as int, a as int, b as int, d as int),
        Operation::Cgt(s, a, b, d) => instr_bytes(OP_CGT, s as int, a as int, b as int, d as int),
        Operation::Clt(s, a, b, d) => instr_bytes(OP_CLT, s as int, a as int, b as int, d as int),
        Operation::Jmp(a) => instr_bytes(OP_JMP, 0, a as int, 0, 0),
        Operation::Jie(s, a, b) => instr_bytes(OP_JIE, s as int, a as int, b as int, 0),
        Operation::Jne(s, a, b) => instr_bytes(OP_JNE, s as int, a as int, b as int, 0),
        Operation::PutI(s, a) => instr_bytes(OP_PUTI, s as int, a as int, 0, 0),
        Operation::PutC(s, a) => instr_bytes(OP_PUTC, s as int, a as int, 0, 0),
        Operation::Imz(s, d) => instr_bytes(OP_IMZ, s as int, 0, 0, d as int),
        Operation::Equ(s, a, b, d) => instr_bytes(OP_EQU, s as int, a as int, b as int, d as int),
        Operation::Hlt() => instr_bytes(OP_HLT, 0, 0, 0, 0),
    }
}

/// Every instruction encodes to exactly 8 bytes, whatever its arity.
pub proof fn lemma_encode_len(operation: Operation)
    ensures
        encode_spec(operation).len() == 8,
{
}

/// Produces the 8-byte record `[opcode, size, src1_hi, src1_lo, src2_hi,
/// src2_lo, dest_hi, dest_lo]` with the operands truncated to their field
/// widths.
pub fn gen_binary_instruction(opcode: u8, size: usize, src1: usize, src2: usize, dest: usize) -> (r:
    [u8; 8])
    ensures
        r@ == instr_bytes(opcode, size as int, src1 as int, src2 as int, dest as int),
{
    let r = [
        opcode,
        (size % 256) as u8,
        ((src1 % 65536) / 256) as u8,
        (src1 % 256) as u8,
        ((src2 % 65536) / 256) as u8,
        (src2 % 256) as u8,
        ((dest % 65536) / 256) as u8,
        (dest % 256) as u8,
    ];
    proof {
        assert(r@ =~= instr_bytes(opcode, size as int, src1 as int, src2 as int, dest as int));
    }
    r
}

/// Encodes one operation as its 8-byte record.
pub fn encode_operation(operation: &Operation) -> (r: [u8; 8])
    ensures
        r@ == encode_spec(*operation),
{
    let opcode = resolve_operation_opcode(operation);
    match *operation {
        Operation::Mov(s, a, d) => gen_binary_instruction(opcode, s, a, 0, d),
        Operation::Add(s, a, b, d) => gen_binary_instruction(opcode, s, a, b, d),
        Operation::Sub(s, a, b, d) => gen_binary_instruction(opcode, s, a, b, d),
        Operation::Mul(s, a, b, d) => gen_binary_instruction(opcode, s, a, b, d),
        Operation::DivT(s, a, b, d) => gen_binary_instruction(opcode, s, a, b, d),
        Operation::DivR(s, a, b, d) => gen_binary_instruction(opcode, s, a, b, d),
        Operation::Rem(s, a, b, d) => gen_binary_instruction(opcode, s, a, b, d),
        Operation::Cgt(s, a, b, d) => gen_binary_instruction(opcode, s, a, b, d),
        Operation::Clt(s, a, b, d) => gen_binary_instruction(opcode, s, a, b, d),
        Operation::Jmp(a) => gen_binary_instruction(opcode, 0, a, 0, 0),
        Operation::Jie(s, a, b) => gen_binary_instruction(opcode, s, a, b, 0),
        Operation::Jne(s, a, b) => gen_binary_instruction(opcode, s, a, b, 0),
        Operation::PutI(s, a) => gen_binary_instruction(opcode, s, a, 0, 0),
        Operation::PutC(s, a) => gen_binary_instruction(opcode, s, a, 0, 0),
        Operation::Imz(s, d) => gen_binary_instruction(opcode, s, 0, 0, d),
        Operation::Equ(s, a, b, d) => gen_binary_instruction(opcode, s, a, b, d),
        Operation::Hlt() => gen_binary_instruction(opcode, 0, 0, 0, 0),
    }
}

/// The size byte of a record, as a width in bytes.
pub open spec fn field_size(s: Seq<u8>) -> usize {
    s[1] as usize
}

/// The three big-endian 16-bit operand fields of a record.
pub open spec fn field_src1(s: Seq<u8>) -> usize {
    ((s[2] as int) * 256 + (s[3] as int)) as usize
}

pub open spec fn field_src2(s: Seq<u8>) -> usize {
    ((s[4] as int) * 256 + (s[5] as int)) as usize
}

pub open spec fn field_dest(s: Seq<u8>) -> usize {
    ((s[6] as int) * 256 + (s[7] as int)) as usize
}

/// What decoding an 8-byte record yields: the operation whose opcode is the
/// first byte, with the slots it uses taken from the record; `None` on any
/// other opcode byte or length.
pub open spec fn decode_spec(s: Seq<u8>) -> Option<Operation> {
    if s.len() != 8 {
        None
    } else {
        let size = field_size(s);
        let src1 = field_src1(s);
        let src2 = field_src2(s);
        let dest = field_dest(s);
        if s[0] == OP_MOV {
            Some(Operation::Mov(size, src1, dest))
        } else if s[0] == OP_ADD {
            Some(Operation::Add(size, src1, src2, dest))
        } else if s[0] == OP_SUB {
            Some(Operation::Sub(size, src1, src2, dest))
        } else if s[0] == OP_MUL {
            Some(Operation::Mul(size, src1, src2, dest))
        } else if s[0] == OP_DIVT {
            Some(Operation::DivT(size, src1, src2, dest))
        } else if s[0] == OP_DIVR {
            Some(Operation::DivR(size, src1, src2, dest))
        } else if s[0] == OP_REM {
            Some(Operation::Rem(size, src1, src2, dest))
        } else if s[0] == OP_CGT {
            Some(Operation::Cgt(size, src1, src2, dest))
        } else if s[0] == OP_CLT {
            Some(Operation::Clt(size, src1, src2, dest))
        } else if s[0] == OP_JMP {
            Some(Operation::Jmp(src1))
        } else if s[0] == OP_JIE {
            Some(Operation::Jie(size, src1, src2))
        } else if s[0] == OP_JNE {
            Some(Operation::Jne(size, src1, src2))
        } else if s[0] == OP_PUTI {
            Some(Operation::PutI(size, src1))
        } else if s[0] == OP_PUTC {
            Some(Operation::PutC(size, src1))
        } else if s[0] == OP_IMZ {
            Some(Operation::Imz(size, dest))
        } else if s[0] == OP_EQU {
            Some(Operation::Equ(size, src1, src2, dest))
        } else if s[0] == OP_HLT {
            Some(Operation::Hlt())
        } else {
            None
        }
    }
}

/// Decodes an 8-byte record into the operation it denotes, if its opcode
/// byte is known.
pub fn decode_instruction(b: &[u8; 8]) -> (r: Option<Operation>)
    ensures
        r == decode_spec(b@),
{
    let size = b[1] as usize;
    let src1 = (b[2] as usize) * 256 + (b[3] as usize);
    let src2 = (b[4] as usize) * 256 + (b[5] as usize);
    let dest = (b[6] as usize) * 256 + (b[7] as usize);
    let opcode = b[0];
    if opcode == OP_MOV {
        Some(Operation::Mov(size, src1, dest))
    } else if opcode == OP_ADD {
        Some(Operation::Add(size, src1, src2, dest))
    } else if opcode == OP_SUB {
        Some(Operation::Sub(size, src1, src2, dest))
    } else if opcode == OP_MUL {
        Some(Operation::Mul(size, src1, src2, dest))
    } else if opcode == OP_DIVT {
        Some(Operation::DivT(size, src1, src2, dest))
    } else if opcode == OP_DIVR {
        Some(Operation::DivR(size, src1, src2, dest))
    } else if opcode == OP_REM {
        Some(Operation::Rem(size, src1, src2, dest))
    } else if opcode == OP_CGT {
        Some(Operation::Cgt(size, src1, src2, dest))
    } else if opcode == OP_CLT {
        Some(Operation::Clt(size, src1, src2, dest))
    } else if opcode == OP_JMP {
        Some(Operation::Jmp(src1))
    } else if opcode == OP_JIE {
        Some(Operation::Jie(size, src1, src2))
    } else if opcode == OP_JNE {
        Some(Operation::Jne(size, src1, src2))
    } else if opcode == OP_PUTI {
        Some(Operation::PutI(size, src1))
    } else if opcode == OP_PUTC {
        Some(Operation::PutC(size, src1))
    } else if opcode == OP_IMZ {
        Some(Operation::Imz(size, dest))
    } else if opcode == OP_EQU {
        Some(Operation::Equ(size, src1, src2, dest))
    } else if opcode == OP_HLT {
        Some(Operation::Hlt())
    } else {
        None
    }
}

/// An operation whose slots fit their encoded field widths: the size in one
/// byte, every address in sixteen bits.
pub open spec fn wf_operation(operation: Operation) -> bool {
    match operation {
        Operation::Mov(s, a, d) => s < 256 && a < 65536 && d < 65536,
        Operation::Add(s, a, b, d) => s < 256 && a < 65536 && b < 65536 && d < 65536,
        Operation::Sub(s, a, b, d) => s < 256 && a < 65536 && b < 65536 && d < 65536,
        Operation::Mul(s, a, b, d) => s < 256 && a < 65536 && b < 65536 && d < 65536,
        Operation::DivT(s, a, b, d) => s < 256 && a < 65536 && b < 65536 && d < 65536,
        Operation::DivR(s, a, b, d) => s < 256 && a < 65536 && b < 65536 && d < 65536,
        Operation::Rem(s, a, b, d) => s < 256 && a < 65536 && b < 65536 && d < 65536,
        Operation::Cgt(s, a, b, d) => s < 256 && a < 65536 && b < 65536 && d < 65536,
        Operation::Clt(s, a, b, d) => s < 256 && a < 65536 && b < 65536 && d < 65536,
        Operation::Jmp(a) => a < 65536,
        Operation::Jie(s, a, b) => s < 256 && a < 65536 && b < 65536,
        Operation::Jne(s, a, b) => s < 256 && a < 65536 && b < 65536,
        Operation::PutI(s, a) => s < 256 && a < 65536,
        Operation::PutC(s, a) => s < 256 && a < 65536,
        Operation::Imz(s, d) => s < 256 && d < 65536,
        Operation::Equ(s, a, b, d) => s < 256 && a < 65536 && b < 65536 && d < 65536,
        Operation::Hlt() => true,
    }
}

/// The fields of a record built from in-range slots are those slots.
pub proof fn lemma_instr_bytes_fields(opcode: u8, size: int, src1: int, src2: int, dest: int)
    requires
        0 <= size < 256,
        0 <= src1 < 65536,
        0 <= src2 < 65536,
        0 <= dest < 65536,
    ensures
        instr_bytes(opcode, size, src1, src2, dest).len() == 8,
        instr_bytes(opcode, size, src1, src2, dest)[0] == opcode,
        field_size(instr_bytes(opcode, size, src1, src2, dest)) == size,
        field_src1(instr_bytes(opcode, size, src1, src2, dest)) == src1,
        field_src2(instr_bytes(opcode, size, src1, src2, dest)) == src2,
        field_dest(instr_bytes(opcode, size, src1, src2, dest)) == dest,
{
    vstd::arithmetic::div_mod::lemma_fundamental_div_mod(src1, 256);
    vstd::arithmetic::div_mod::lemma_fundamental_div_mod(src2, 256);
    vstd::arithmetic::div_mod::lemma_fundamental_div_mod(dest, 256);
}

/// Decoding an encoded operation reproduces it exactly: the unused slots of
/// the record are zero-filled by the encoder and zero on decoding.
pub proof fn lemma_decode_encode(operation: Operation)
    requires
        wf_operation(operation),
    ensures
        decode_spec(encode_spec(operation)) == Some(operation),
{
    match operation {
        Operation::Mov(s, a, d) => lemma_instr_bytes_fields(OP_MOV, s as int, a as int, 0, d as int),
        Operation::Add(s, a, b, d) => lemma_instr_bytes_fields(
            OP_ADD,
            s as int,
            a as int,
            b as int,
            d as int,
        ),
        Operation::Sub(s, a, b, d) => lemma_instr_bytes_fields(
            OP_SUB,
            s as int,
            a as int,
            b as int,
            d as int,
        ),
        Operation::Mul(s, a, b, d) => lemma_instr_bytes_fields(
            OP_MUL,
            s as int,
            a as int,
            b as int,
            d as int,
        ),
        Operation::DivT(s, a, b, d) => lemma_instr_bytes_fields(
            OP_DIVT,
            s as int,
            a as int,
            b as int,
            d as int,
        ),
        Operation::DivR(s, a, b, d) => lemma_instr_bytes_fields(
            OP_DIVR,
            s as int,
            a as int,
            b as int,
            d as int,
        ),
        Operation::Rem(s, a, b, d) => lemma_instr_bytes_fields(
            OP_REM,
            s as int,
            a as int,
            b as int,
            d as int,
        ),
        Operation::Cgt(s, a, b, d) => lemma_instr_bytes_fields(
            OP_CGT,
            s as int,
            a as int,
            b as int,
            d as int,
        ),
        Operation::Clt(s, a, b, d) => lemma_instr_bytes_fields(
            OP_CLT,
            s as int,
            a as int,
            b as int,
            d as int,
        ),
        Operation::Jmp(a) => lemma_instr_bytes_fields(OP_JMP, 0, a as int, 0, 0),
        Operation::Jie(s, a, b) => lemma_instr_bytes_fields(OP_JIE, s as int, a as int, b as int, 0),
        Operation::Jne(s, a, b) => lemma_instr_bytes_fields(OP_JNE, s as int, a as int, b as int, 0),
        Operation::PutI(s, a) => lemma_instr_bytes_fields(OP_PUTI, s as int, a as int, 0, 0),
        Operation::PutC(s, a) => lemma_instr_bytes_fields(OP_PUTC, s as int, a as int, 0, 0),
        Operation::Imz(s, d) => lemma_instr_bytes_fields(OP_IMZ, s as int, 0, 0, d as int),
        Operation::Equ(s, a, b, d) => lemma_instr_bytes_fields(
            OP_EQU,
            s as int,
            a as int,
            b as int,
            d as int,
        ),
        Operation::Hlt() => lemma_instr_bytes_fields(OP_HLT, 0, 0, 0, 0),
    }
}

} // verus!
