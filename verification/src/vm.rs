//! The Transient virtual machine: a flat byte-addressable memory, a program
//! counter, and a fetch/decode/execute loop over 8-byte instruction records.
//!
//! Output is not written to a device by the machine itself: `puti` and `putc`
//! append to the state's `output` byte buffer, which a host may flush to its
//! standard output between or after runs.
use crate::bytes::{
    be_bytes, be_bytes_of, be_val, dec_digits, lemma_be_bytes_len, lemma_be_bytes_of_be_val,
    lemma_be_val_bound, lemma_be_val_of_be_bytes, lemma_pow256_8, lemma_pow256_mono,
    lemma_pow256_pos, pow256, u64_to_dec,
};
use crate::isa::{decode_instruction, decode_spec, Operation};
use crate::TRANSIENT_MEM_MAX;
use vstd::prelude::*;

verus! {

#[derive(Debug, PartialEq, Eq, Structural, Clone, Copy)]
pub enum TransientMode {
    RUNNING,
    HALTED,
}

/// A fatal condition that stops the machine: there is no recovery path.
#[derive(Debug, PartialEq, Eq, Structural, Clone, Copy)]
pub enum VmTrap {
    /// An instruction fetch would read past the end of memory.
    FetchOutOfBounds,
    /// An operand address range would reach past the end of memory.
    AddressOutOfBounds,
    /// Checked arithmetic failed: a sum, difference or product does not fit
    /// in 64 unsigned bits.
    ArithmeticOverflow,
    /// A division or remainder with a zero divisor.
    DivisionByZero,
    /// A size byte other than 1, 2, 4 or 8 on an instruction that uses one.
    InvalidWidth,
    /// An opcode byte that names no instruction.
    UnknownOpcode,
}

/// The mathematical state of a machine: memory contents, loaded image
/// length, program counter, mode, and the bytes emitted so far.
#[verifier::ext_equal]
pub struct VmView {
    pub mem: Seq<u8>,
    pub image_length: int,
    pub pc: int,
    pub mode: TransientMode,
    pub output: Seq<u8>,
}

/// A Transient processor: fixed-capacity memory plus the execution
/// registers. Memory is mutated only by the machine itself; a host may read
/// it back after a run.
pub struct TransientState {
    pub memory: Vec<u8>,
    pub memory_limit: usize,
    pub image_length: usize,
    pub program_counter: usize,
    pub mode: TransientMode,
    pub output: Vec<u8>,
}

impl View for TransientState {
    type V = VmView;

    open spec fn view(&self) -> VmView {
        VmView {
            mem: self.memory@,
            image_length: self.image_length as int,
            pc: self.program_counter as int,
            mode: self.mode,
            output: self.output@,
        }
    }
}

/// The big-endian value of the `w` bytes of `mem` starting at `addr`.
pub open spec fn mem_read(mem: Seq<u8>, addr: int, w: int) -> int {
    be_val(mem.subrange(addr, addr + w))
}

/// `mem` with the range starting at `addr` replaced by `bytes`.
pub open spec fn mem_write(mem: Seq<u8>, addr: int, bytes: Seq<u8>) -> Seq<u8> {
    mem.take(addr) + bytes + mem.skip(addr + bytes.len())
}

/// Writing touches exactly the written range.
pub proof fn lemma_mem_write_effect(mem: Seq<u8>, addr: int, bytes: Seq<u8>)
    requires
        0 <= addr,
        addr + bytes.len() <= mem.len(),
    ensures
        mem_write(mem, addr, bytes).len() == mem.len(),
        forall|i: int|
            0 <= i < mem.len() ==> #[trigger] mem_write(mem, addr, bytes)[i] == if addr <= i < addr
                + bytes.len() {
                bytes[i - addr]
            } else {
                mem[i]
            },
{
}

/// An operand width the ISA gives meaning to.
pub open spec fn valid_width(w: usize) -> bool {
    w == 1 || w == 2 || w == 4 || w == 8
}

pub fn width_ok(w: usize) -> (r: bool)
    ensures
        r == valid_width(w),
{
    w == 1 || w == 2 || w == 4 || w == 8
}

/// Loads the `width`-byte big-endian value at `addr`, zero-extended to 64
/// bits.
pub fn load_value(mem: &Vec<u8>, addr: usize, width: usize) -> (r: u64)
    requires
        width <= 8,
        addr + width <= mem@.len(),
    ensures
        r as int == mem_read(mem@, addr as int, width as int),
{
    let n: usize = mem.len();
    let mut acc: u64 = 0;
    let mut i: usize = 0;
    proof {
        lemma_pow256_mono(width as nat, 8);
        lemma_pow256_8();
    }
    while i < width
        invariant
            0 <= i <= width <= 8,
            addr + width <= n == mem@.len(),
            acc as int == be_val(mem@.subrange(addr as int, addr + i)),
            acc < pow256(i as nat),
        decreases width - i,
    {
        let b = mem[addr + i];
        proof {
            let pre = mem@.subrange(addr as int, addr + i);
            let cur = mem@.subrange(addr as int, addr + i + 1);
            assert(cur.drop_last() =~= pre);
            assert(cur.last() == mem@[addr + i]);
            assert(pow256((i + 1) as nat) == 256 * pow256(i as nat));
            lemma_pow256_mono((i + 1) as nat, 8);
            lemma_pow256_8();
        }
        acc = acc * 256 + (b as u64);
        i = i + 1;
    }
    proof {
        lemma_be_val_bound(mem@.subrange(addr as int, addr + width));
    }
    acc
}

/// Stores the `width` least-significant bytes of the big-endian encoding of
/// `value` at `addr`.
pub fn store_value(mem: &mut Vec<u8>, addr: usize, width: usize, value: u64)
    requires
        addr + width <= old(mem)@.len(),
    ensures
        final(mem)@ == mem_write(old(mem)@, addr as int, be_bytes(value as int, width as nat)),
        final(mem)@.len() == old(mem)@.len(),
{
    let n: usize = mem.len();
    let bs = be_bytes_of(value, width);
    proof {
        lemma_be_bytes_len(value as int, width as nat);
    }
    let mut j: usize = 0;
    while j < width
        invariant
            0 <= j <= width,
            addr + width <= n == mem@.len(),
            mem@.len() == old(mem)@.len(),
            bs@ == be_bytes(value as int, width as nat),
            bs@.len() == width,
            forall|i: int|
                0 <= i < mem@.len() ==> #[trigger] mem@[i] == if addr <= i < addr + j {
                    bs@[i - addr]
                } else {
                    old(mem)@[i]
                },
        decreases width - j,
    {
        let b = bs[j];
        mem[addr + j] = b;
        j = j + 1;
    }
    proof {
        lemma_mem_write_effect(old(mem)@, addr as int, bs@);
        assert(mem@ =~= mem_write(old(mem)@, addr as int, be_bytes(value as int, width as nat)));
    }
}

/// Division rounded half away from zero: the truncated quotient, plus one
/// when the remainder is at least half the divisor.
pub open spec fn divr_val(a: int, b: int) -> int {
    a / b + if a % b >= b - a % b {
        1int
    } else {
        0int
    }
}

/// The value a two-source operation computes, or the trap it raises. `add`,
/// `sub` and `mul` are checked 64-bit unsigned arithmetic; the divisions and
/// the remainder trap on a zero divisor; the comparisons yield 1 or 0.
/// Operations that take no two sources compute nothing here.
pub open spec fn bin_op_result(operation: Operation, a: int, b: int) -> Result<int, VmTrap> {
    match operation {
        Operation::Add(..) => if a + b > u64::MAX {
            Err(VmTrap::ArithmeticOverflow)
        } else {
            Ok(a + b)
        },
        Operation::Sub(..) => if a < b {
            Err(VmTrap::ArithmeticOverflow)
        } else {
            Ok(a - b)
        },
        Operation::Mul(..) => if a * b > u64::MAX {
            Err(VmTrap::ArithmeticOverflow)
        } else {
            Ok(a * b)
        },
        Operation::DivT(..) => if b == 0 {
            Err(VmTrap::DivisionByZero)
        } else {
            Ok(a / b)
        },
        Operation::DivR(..) => if b == 0 {
            Err(VmTrap::DivisionByZero)
        } else {
            Ok(divr_val(a, b))
        },
        Operation::Rem(..) => if b == 0 {
            Err(VmTrap::DivisionByZero)
        } else {
            Ok(a % b)
        },
        Operation::Cgt(..) => Ok(
            if a > b {
                1
            } else {
                0
            },
        ),
        Operation::Clt(..) => Ok(
            if a < b {
                1
            } else {
                0
            },
        ),
        Operation::Equ(..) => Ok(
            if a == b {
                1
            } else {
                0
            },
        ),
        _ => Err(VmTrap::UnknownOpcode),
    }
}

/// One step of a two-source, one-destination operation: validate the width,
/// bounds-check every address used, load both sources, compute, store at the
/// destination, and advance the program counter by 8.
pub open spec fn step_bin(
    v: VmView,
    operation: Operation,
    w: usize,
    s1: usize,
    s2: usize,
    d: usize,
) -> Result<VmView, VmTrap> {
    if !valid_width(w) {
        Err(VmTrap::InvalidWidth)
    } else if !(s1 + w <= v.mem.len() && s2 + w <= v.mem.len() && d + w <= v.mem.len()) {
        Err(VmTrap::AddressOutOfBounds)
    } else {
        match bin_op_result(
            operation,
            mem_read(v.mem, s1 as int, w as int),
            mem_read(v.mem, s2 as int, w as int),
        ) {
            Err(t) => Err(t),
            Ok(val) => Ok(
                VmView {
                    mem: mem_write(v.mem, d as int, be_bytes(val, w as nat)),
                    pc: v.pc + 8,
                    ..v
                },
            ),
        }
    }
}

/// One step of the machine on an already decoded operation. Jump targets are
/// address literals; jump conditions dereference memory. `puti` appends the
/// decimal text of the loaded value to the output, `putc` its low byte.
/// `hlt` halts and leaves the program counter unchanged; every other
/// successful non-jump step advances it by exactly 8.
pub open spec fn step_op(v: VmView, operation: Operation) -> Result<VmView, VmTrap> {
    match operation {
        Operation::Mov(w, s1, d) => if !valid_width(w) {
            Err(VmTrap::InvalidWidth)
        } else if !(s1 + w <= v.mem.len() && d + w <= v.mem.len()) {
            Err(VmTrap::AddressOutOfBounds)
        } else {
            Ok(
                VmView {
                    mem: mem_write(
                        v.mem,
                        d as int,
                        be_bytes(mem_read(v.mem, s1 as int, w as int), w as nat),
                    ),
                    pc: v.pc + 8,
                    ..v
                },
            )
        },
        Operation::Add(w, a, b, d) => step_bin(v, operation, w, a, b, d),
        Operation::Sub(w, a, b, d) => step_bin(v, operation, w, a, b, d),
        Operation::Mul(w, a, b, d) => step_bin(v, operation, w, a, b, d),
        Operation::DivT(w, a, b, d) => step_bin(v, operation, w, a, b, d),
        Operation::DivR(w, a, b, d) => step_bin(v, operation, w, a, b, d),
        Operation::Rem(w, a, b, d) => step_bin(v, operation, w, a, b, d),
        Operation::Cgt(w, a, b, d) => step_bin(v, operation, w, a, b, d),
        Operation::Clt(w, a, b, d) => step_bin(v, operation, w, a, b, d),
        Operation::Equ(w, a, b, d) => step_bin(v, operation, w, a, b, d),
        Operation::Jmp(t) => Ok(VmView { pc: t as int, ..v }),
        Operation::Jie(w, t, c) => if !valid_width(w) {
            Err(VmTrap::InvalidWidth)
        } else if !(c + w <= v.mem.len()) {
            Err(VmTrap::AddressOutOfBounds)
        } else {
            Ok(
                VmView {
                    pc: if mem_read(v.mem, c as int, w as int) != 0 {
                        t as int
                    } else {
                        v.pc + 8
                    },
                    ..v
                },
            )
        },
        Operation::Jne(w, t, c) => if !valid_width(w) {
            Err(VmTrap::InvalidWidth)
        } else if !(c + w <= v.mem.len()) {
            Err(VmTrap::AddressOutOfBounds)
        } else {
            Ok(
                VmView {
                    pc: if mem_read(v.mem, c as int, w as int) == 0 {
                        t as int
                    } else {
                        v.pc + 8
                    },
                    ..v
                },
            )
        },
        Operation::PutI(w, s) => if !valid_width(w) {
            Err(VmTrap::InvalidWidth)
        } else if !(s + w <= v.mem.len()) {
            Err(VmTrap::AddressOutOfBounds)
        } else {
            Ok(
                VmView {
                    output: v.output + dec_digits(mem_read(v.mem, s as int, w as int) as nat),
                    pc: v.pc + 8,
                    ..v
                },
            )
        },
        Operation::PutC(w, s) => if !valid_width(w) {
            Err(VmTrap::InvalidWidth)
        } else if !(s + w <= v.mem.len()) {
            Err(VmTrap::AddressOutOfBounds)
        } else {
            Ok(
                VmView {
                    output: v.output.push((mem_read(v.mem, s as int, w as int) % 256) as u8),
                    pc: v.pc + 8,
                    ..v
                },
            )
        },
        Operation::Imz(w, d) => if !valid_width(w) {
            Err(VmTrap::InvalidWidth)
        } else if !(d + w <= v.mem.len()) {
            Err(VmTrap::AddressOutOfBounds)
        } else {
            Ok(
                VmView {
                    mem: mem_write(v.mem, d as int, be_bytes(v.image_length, w as nat)),
                    pc: v.pc + 8,
                    ..v
                },
            )
        },
        Operation::Hlt() => Ok(VmView { mode: TransientMode::HALTED, ..v }),
    }
}

/// One step of the machine on a raw 8-byte record: decode, then step.
pub open spec fn step_spec(v: VmView, instr: Seq<u8>) -> Result<VmView, VmTrap> {
    match decode_spec(instr) {
        None => Err(VmTrap::UnknownOpcode),
        Some(operation) => step_op(v, operation),
    }
}

/// One fetch/decode/execute step from the current program counter.
pub open spec fn machine_step(v: VmView) -> Result<VmView, VmTrap> {
    if 0 <= v.pc && v.pc + 8 <= v.mem.len() {
        step_spec(v, v.mem.subrange(v.pc, v.pc + 8))
    } else {
        Err(VmTrap::FetchOutOfBounds)
    }
}

/// The state after at most `n` machine steps, stopping early on halt;
/// the trap if one is raised within those steps.
pub open spec fn run_n(v: VmView, n: nat) -> Result<VmView, VmTrap>
    decreases n,
{
    if v.mode == TransientMode::HALTED {
        Ok(v)
    } else if n == 0 {
        Ok(v)
    } else {
        match machine_step(v) {
            Ok(v2) => run_n(v2, (n - 1) as nat),
            Err(t) => Err(t),
        }
    }
}

/// Extending a running execution by one machine step.
pub proof fn lemma_run_n_step(init: VmView, n: nat, v: VmView)
    requires
        run_n(init, n) == Ok::<VmView, VmTrap>(v),
        v.mode == TransientMode::RUNNING,
    ensures
        run_n(init, (n + 1) as nat) == machine_step(v),
    decreases n,
{
    if init.mode == TransientMode::HALTED {
        assert(v == init);
        assert(false);
    } else if n == 0 {
        assert(v == init);
        match machine_step(v) {
            Ok(v2) => {
                assert(run_n(init, 1) == run_n(v2, 0));
                assert(run_n(v2, 0) == Ok::<VmView, VmTrap>(v2));
            },
            Err(_) => {},
        }
    } else {
        match machine_step(init) {
            Ok(v2) => {
                lemma_run_n_step(v2, (n - 1) as nat, v);
            },
            Err(_) => {},
        }
    }
}

/// Division rounded half away from zero on 64-bit unsigned values.
pub fn div_rounded(a: u64, b: u64) -> (r: u64)
    requires
        b != 0,
    ensures
        r as int == divr_val(a as int, b as int),
{
    let q = a / b;
    let rem = a % b;
    if rem >= b - rem {
        proof {
            assert(b >= 2);
            vstd::arithmetic::div_mod::lemma_fundamental_div_mod(a as int, b as int);
            assert(2 * (q as int) <= (q as int) * (b as int)) by (nonlinear_arith)
                requires
                    q >= 0,
                    b >= 2,
            ;
            assert((b as int) * (q as int) == (q as int) * (b as int)) by (nonlinear_arith);
            assert(q < u64::MAX);
        }
        q + 1
    } else {
        q
    }
}

impl TransientState {
    /// Memory occupies exactly the recorded limit.
    pub open spec fn wf(&self) -> bool {
        self.memory@.len() == self.memory_limit
    }

    /// Initializes a processor: zero-filled memory of `TRANSIENT_MEM_MAX`
    /// bytes, zero image length and program counter, halted, no output.
    pub fn new() -> (r: TransientState)
        ensures
            r.wf(),
            r.memory_limit == TRANSIENT_MEM_MAX,
            r@.mem.len() == TRANSIENT_MEM_MAX,
            forall|i: int| 0 <= i < r@.mem.len() ==> r@.mem[i] == 0u8,
            r@.image_length == 0,
            r@.pc == 0,
            r@.mode == TransientMode::HALTED,
            r@.output == Seq::<u8>::empty(),
    {
        let mut memory: Vec<u8> = Vec::new();
        let mut i: usize = 0;
        while i < TRANSIENT_MEM_MAX
            invariant
                0 <= i <= TRANSIENT_MEM_MAX,
                memory@.len() == i,
                forall|k: int| 0 <= k < i ==> memory@[k] == 0u8,
            decreases TRANSIENT_MEM_MAX - i,
        {
            memory.push(0u8);
            i = i + 1;
        }
        TransientState {
            memory,
            memory_limit: TRANSIENT_MEM_MAX,
            image_length: 0,
            program_counter: 0,
            mode: TransientMode::HALTED,
            output: Vec::new(),
        }
    }

    /// Loads an image into memory at `offset` and records its length. The
    /// program counter is not reset.
    pub fn load_image(&mut self, offset: usize, image: &[u8])
        requires
            offset + image@.len() <= old(self)@.mem.len(),
        ensures
            final(self).wf() == old(self).wf(),
            final(self)@.mem == mem_write(old(self)@.mem, offset as int, image@),
            final(self)@.image_length == image@.len(),
            final(self)@.pc == old(self)@.pc,
            final(self)@.mode == old(self)@.mode,
            final(self)@.output == old(self)@.output,
            final(self).memory_limit == old(self).memory_limit,
    {
        self.copy_in(offset, image);
        self.image_length = image.len();
    }

    /// Copies raw bytes into memory at `offset` without recording an image
    /// length.
    pub fn load_text(&mut self, offset: usize, text: &[u8])
        requires
            offset + text@.len() <= old(self)@.mem.len(),
        ensures
            final(self).wf() == old(self).wf(),
            final(self)@.mem == mem_write(old(self)@.mem, offset as int, text@),
            final(self)@.image_length == old(self)@.image_length,
            final(self)@.pc == old(self)@.pc,
            final(self)@.mode == old(self)@.mode,
            final(self)@.output == old(self)@.output,
            final(self).memory_limit == old(self).memory_limit,
    {
        self.copy_in(offset, text);
    }

    fn copy_in(&mut self, offset: usize, data: &[u8])
        requires
            offset + data@.len() <= old(self)@.mem.len(),
        ensures
            final(self)@.mem == mem_write(old(self)@.mem, offset as int, data@),
            final(self)@.mem.len() == old(self)@.mem.len(),
            final(self).image_length == old(self).image_length,
            final(self).program_counter == old(self).program_counter,
            final(self).mode == old(self).mode,
            final(self).output == old(self).output,
            final(self).memory_limit == old(self).memory_limit,
    {
        let n: usize = self.memory.len();
        let len = data.len();
        let mut i: usize = 0;
        while i < len
            invariant
                0 <= i <= len == data@.len(),
                offset + len <= n == self.memory@.len(),
                self.memory@.len() == old(self)@.mem.len(),
                self.image_length == old(self).image_length,
                self.program_counter == old(self).program_counter,
                self.mode == old(self).mode,
                self.output == old(self).output,
                self.memory_limit == old(self).memory_limit,
                forall|k: int|
                    0 <= k < self.memory@.len() ==> #[trigger] self.memory@[k] == if offset <= k
                        < offset + i {
                        data@[k - offset]
                    } else {
                        old(self)@.mem[k]
                    },
            decreases len - i,
        {
            let b = data[i];
            self.memory[offset + i] = b;
            i = i + 1;
        }
        proof {
            lemma_mem_write_effect(old(self)@.mem, offset as int, data@);
            assert(self.memory@ =~= mem_write(old(self)@.mem, offset as int, data@));
        }
    }

    /// Fetches the 8-byte instruction record at `base_ptr`.
    pub fn resolve_instruction(&self, base_ptr: usize) -> (r: [u8; 8])
        requires
            base_ptr + 8 <= self@.mem.len(),
        ensures
            r@ == self@.mem.subrange(base_ptr as int, base_ptr + 8),
    {
        let m = &self.memory;
        let n: usize = m.len();
        proof {
            assert(base_ptr + 8 <= n);
        }
        let r = [
            m[base_ptr],
            m[base_ptr + 1],
            m[base_ptr + 2],
            m[base_ptr + 3],
            m[base_ptr + 4],
            m[base_ptr + 5],
            m[base_ptr + 6],
            m[base_ptr + 7],
        ];
        proof {
            assert(r@ =~= self@.mem.subrange(base_ptr as int, base_ptr + 8));
        }
        r
    }

    /// Executes a two-source, one-destination operation.
    fn execute_bin(&mut self, operation: Operation, w: usize, s1: usize, s2: usize, d: usize) -> (r:
        Result<usize, VmTrap>)
        requires
            old(self)@.pc + 8 <= usize::MAX,
            s1 < 65536 && s2 < 65536 && d < 65536,
            operation == Operation::Add(w, s1, s2, d) || operation == Operation::Sub(w, s1, s2, d)
                || operation == Operation::Mul(w, s1, s2, d) || operation == Operation::DivT(
                w,
                s1,
                s2,
                d,
            ) || operation == Operation::DivR(w, s1, s2, d) || operation == Operation::Rem(
                w,
                s1,
                s2,
                d,
            ) || operation == Operation::Cgt(w, s1, s2, d) || operation == Operation::Clt(
                w,
                s1,
                s2,
                d,
            ) || operation == Operation::Equ(w, s1, s2, d),
        ensures
            match step_bin(old(self)@, operation, w, s1, s2, d) {
                Ok(post) => r == Ok::<usize, VmTrap>(post.pc as usize) && final(self)@ == (VmView {
                    pc: old(self)@.pc,
                    ..post
                }) && 0 <= post.pc <= usize::MAX,
                Err(t) => r == Err::<usize, VmTrap>(t) && final(self)@ == old(self)@,
            },
    {
        if !width_ok(w) {
            return Err(VmTrap::InvalidWidth);
        }
        let n: usize = self.memory.len();
        if s1 + w > n || s2 + w > n || d + w > n {
            return Err(VmTrap::AddressOutOfBounds);
        }
        let a = load_value(&self.memory, s1, w);
        let b = load_value(&self.memory, s2, w);
        let val: u64 = match operation {
            Operation::Add(..) => match a.checked_add(b) {
                Some(x) => x,
                None => {
                    return Err(VmTrap::ArithmeticOverflow);
                },
            },
            Operation::Sub(..) => match a.checked_sub(b) {
                Some(x) => x,
                None => {
                    return Err(VmTrap::ArithmeticOverflow);
                },
            },
            Operation::Mul(..) => match a.checked_mul(b) {
                Some(x) => x,
                None => {
                    return Err(VmTrap::ArithmeticOverflow);
                },
            },
            Operation::DivT(..) => {
                if b == 0 {
                    return Err(VmTrap::DivisionByZero);
                }
                a / b
            },
            Operation::DivR(..) => {
                if b == 0 {
                    return Err(VmTrap::DivisionByZero);
                }
                div_rounded(a, b)
            },
            Operation::Rem(..) => {
                if b == 0 {
                    return Err(VmTrap::DivisionByZero);
                }
                a % b
            },
            Operation::Cgt(..) => {
                if a > b {
                    1
                } else {
                    0
                }
            },
            Operation::Clt(..) => {
                if a < b {
                    1
                } else {
                    0
                }
            },
            Operation::Equ(..) => {
                if a == b {
                    1
                } else {
                    0
                }
            },
            _ => {
                proof {
                    assert(false);
                }
                return Err(VmTrap::UnknownOpcode);
            },
        };
        store_value(&mut self.memory, d, w, val);
        proof {
            let post = step_bin(old(self)@, operation, w, s1, s2, d)->Ok_0;
            assert(self@ =~= (VmView { pc: old(self)@.pc, ..post }));
        }
        Ok(self.program_counter + 8)
    }

    /// Executes one instruction record against this state and returns the
    /// next program counter. Memory, mode and output change exactly as the
    /// step semantics says; the stored program counter itself is left to the
    /// caller.
    pub fn execute_instruction(&mut self, instruction: &[u8; 8]) -> (r: Result<usize, VmTrap>)
        requires
            old(self)@.pc + 8 <= usize::MAX,
        ensures
            match step_spec(old(self)@, instruction@) {
                Ok(post) => r == Ok::<usize, VmTrap>(post.pc as usize) && final(self)@ == (VmView {
                    pc: old(self)@.pc,
                    ..post
                }) && 0 <= post.pc <= usize::MAX,
                Err(t) => r == Err::<usize, VmTrap>(t) && final(self)@ == old(self)@,
            },
    {
        let operation = match decode_instruction(instruction) {
            Some(operation) => operation,
            None => {
                return Err(VmTrap::UnknownOpcode);
            },
        };
        match operation {
            Operation::Mov(w, s1, d) => {
                if !width_ok(w) {
                    return Err(VmTrap::InvalidWidth);
                }
                let n: usize = self.memory.len();
                if s1 + w > n || d + w > n {
                    return Err(VmTrap::AddressOutOfBounds);
                }
                let val = load_value(&self.memory, s1, w);
                store_value(&mut self.memory, d, w, val);
                proof {
                    let post = step_spec(old(self)@, instruction@)->Ok_0;
                    assert(self@ =~= (VmView { pc: old(self)@.pc, ..post }));
                }
                Ok(self.program_counter + 8)
            },
            Operation::Add(w, a, b, d) => self.execute_bin(operation, w, a, b, d),
            Operation::Sub(w, a, b, d) => self.execute_bin(operation, w, a, b, d),
            Operation::Mul(w, a, b, d) => self.execute_bin(operation, w, a, b, d),
            Operation::DivT(w, a, b, d) => self.execute_bin(operation, w, a, b, d),
            Operation::DivR(w, a, b, d) => self.execute_bin(operation, w, a, b, d),
            Operation::Rem(w, a, b, d) => self.execute_bin(operation, w, a, b, d),
            Operation::Cgt(w, a, b, d) => self.execute_bin(operation, w, a, b, d),
            Operation::Clt(w, a, b, d) => self.execute_bin(operation, w, a, b, d),
            Operation::Equ(w, a, b, d) => self.execute_bin(operation, w, a, b, d),
            Operation::Jmp(t) => Ok(t),
            Operation::Jie(w, t, c) => {
                if !width_ok(w) {
                    return Err(VmTrap::InvalidWidth);
                }
                let n: usize = self.memory.len();
                if c + w > n {
                    return Err(VmTrap::AddressOutOfBounds);
                }
                let val = load_value(&self.memory, c, w);
                if val != 0 {
                    Ok(t)
                } else {
                    Ok(self.program_counter + 8)
                }
            },
            Operation::Jne(w, t, c) => {
                if !width_ok(w) {
                    return Err(VmTrap::InvalidWidth);
                }
                let n: usize = self.memory.len();
                if c + w > n {
                    return Err(VmTrap::AddressOutOfBounds);
                }
                let val = load_value(&self.memory, c, w);
                if val == 0 {
                    Ok(t)
                } else {
                    Ok(self.program_counter + 8)
                }
            },
            Operation::PutI(w, s) => {
                if !width_ok(w) {
                    return Err(VmTrap::InvalidWidth);
                }
                let n: usize = self.memory.len();
                if s + w > n {
                    return Err(VmTrap::AddressOutOfBounds);
                }
                let val = load_value(&self.memory, s, w);
                let mut digits = u64_to_dec(val);
                self.output.append(&mut digits);
                proof {
                    let post = step_spec(old(self)@, instruction@)->Ok_0;
                    assert(self@ =~= (VmView { pc: old(self)@.pc, ..post }));
                }
                Ok(self.program_counter + 8)
            },
            Operation::PutC(w, s) => {
                if !width_ok(w) {
                    return Err(VmTrap::InvalidWidth);
                }
                let n: usize = self.memory.len();
                if s + w > n {
                    return Err(VmTrap::AddressOutOfBounds);
                }
                let val = load_value(&self.memory, s, w);
                self.output.push((val % 256) as u8);
                proof {
                    let post = step_spec(old(self)@, instruction@)->Ok_0;
                    assert(self@ =~= (VmView { pc: old(self)@.pc, ..post }));
                }
                Ok(self.program_counter + 8)
            },
            Operation::Imz(w, d) => {
                if !width_ok(w) {
                    return Err(VmTrap::InvalidWidth);
                }
                let n: usize = self.memory.len();
                if d + w > n {
                    return Err(VmTrap::AddressOutOfBounds);
                }
                store_value(&mut self.memory, d, w, self.image_length as u64);
                proof {
                    let post = step_spec(old(self)@, instruction@)->Ok_0;
                    assert(self@ =~= (VmView { pc: old(self)@.pc, ..post }));
                }
                Ok(self.program_counter + 8)
            },
            Operation::Hlt() => {
                self.mode = TransientMode::HALTED;
                Ok(self.program_counter)
            },
        }
    }

    /// Runs the machine from `start` for at most `max_steps` instructions.
    /// `Ok(true)` means the program halted; `Ok(false)` means the step
    /// budget ran out with the machine still running (it may be resumed from
    /// its current program counter); `Err` is a fatal trap. A Transient
    /// program is free to loop forever, so a finite budget is demanded here;
    /// a host that wants an unbounded run resumes until `Ok(false)` no
    /// longer comes back.
    pub fn run(&mut self, start: usize, max_steps: u64) -> (r: Result<bool, VmTrap>)
        ensures
            ({
                let init = VmView { pc: start as int, mode: TransientMode::RUNNING, ..old(self)@ };
                match r {
                    Ok(halted) => run_n(init, max_steps as nat) == Ok::<VmView, VmTrap>(
                        final(self)@,
                    ) && (halted <==> final(self)@.mode == TransientMode::HALTED),
                    Err(t) => exists|n: nat|
                        n <= max_steps && run_n(init, n) == Err::<VmView, VmTrap>(t),
                }
            }),
    {
        self.program_counter = start;
        self.mode = TransientMode::RUNNING;
        let ghost init = self@;
        let mut steps: u64 = 0;
        proof {
            assert(run_n(init, 0) == Ok::<VmView, VmTrap>(init));
        }
        while steps < max_steps && matches!(self.mode, TransientMode::RUNNING)
            invariant
                0 <= steps <= max_steps,
                run_n(init, steps as nat) == Ok::<VmView, VmTrap>(self@),
            decreases max_steps - steps,
        {
            let ghost prev = self@;
            let pc = self.program_counter;
            let n: usize = self.memory.len();
            if n < 8 || pc > n - 8 {
                proof {
                    lemma_run_n_step(init, steps as nat, prev);
                }
                return Err(VmTrap::FetchOutOfBounds);
            }
            let instr = self.resolve_instruction(pc);
            match self.execute_instruction(&instr) {
                Ok(npc) => {
                    self.program_counter = npc;
                    proof {
                        lemma_run_n_step(init, steps as nat, prev);
                        let post = machine_step(prev)->Ok_0;
                        assert(self@ =~= post);
                    }
                },
                Err(t) => {
                    proof {
                        lemma_run_n_step(init, steps as nat, prev);
                    }
                    return Err(t);
                },
            }
            steps = steps + 1;
        }
        proof {
            if self@.mode == TransientMode::HALTED {
                lemma_run_n_stable(init, steps as nat, max_steps as nat, self@);
            }
        }
        Ok(matches!(self.mode, TransientMode::HALTED))
    }
}

/// A write leaves every range disjoint from the written one unchanged.
pub proof fn lemma_mem_write_frame(mem: Seq<u8>, addr: int, bytes: Seq<u8>, a2: int, w2: int)
    requires
        0 <= addr,
        addr + bytes.len() <= mem.len(),
        0 <= a2,
        0 <= w2,
        a2 + w2 <= mem.len(),
        a2 + w2 <= addr || addr + bytes.len() <= a2,
    ensures
        mem_write(mem, addr, bytes).subrange(a2, a2 + w2) == mem.subrange(a2, a2 + w2),
{
    lemma_mem_write_effect(mem, addr, bytes);
    assert(mem_write(mem, addr, bytes).subrange(a2, a2 + w2) =~= mem.subrange(a2, a2 + w2));
}

/// Reading back the whole written range yields the written bytes.
pub proof fn lemma_mem_write_read_back(mem: Seq<u8>, addr: int, bytes: Seq<u8>)
    requires
        0 <= addr,
        addr + bytes.len() <= mem.len(),
    ensures
        mem_write(mem, addr, bytes).subrange(addr, addr + bytes.len()) == bytes,
{
    lemma_mem_write_effect(mem, addr, bytes);
    assert(mem_write(mem, addr, bytes).subrange(addr, addr + bytes.len()) =~= bytes);
}

/// Writing a value of width `w` and reading the same range back yields the
/// value, for every width (in particular 1, 2, 4 and 8) and every value that
/// fits in `w` bytes.
pub proof fn lemma_write_then_read(mem: Seq<u8>, addr: int, w: nat, v: int)
    requires
        0 <= addr,
        addr + w <= mem.len(),
        0 <= v < pow256(w),
    ensures
        mem_read(mem_write(mem, addr, be_bytes(v, w)), addr, w as int) == v,
{
    lemma_be_bytes_len(v, w);
    lemma_mem_write_read_back(mem, addr, be_bytes(v, w));
    lemma_be_val_of_be_bytes(v, w);
    lemma_pow256_pos(w);
    vstd::arithmetic::div_mod::lemma_small_mod(v as nat, pow256(w));
}

/// `mov` is idempotent: executing the same `mov` twice leaves the same
/// memory and output as executing it once, provided its source and
/// destination ranges coincide or do not overlap.
pub proof fn lemma_mov_idempotent(v: VmView, w: usize, s: usize, d: usize)
    requires
        valid_width(w),
        s + w <= v.mem.len(),
        d + w <= v.mem.len(),
        s + w <= d || d + w <= s || s == d,
    ensures
        step_op(v, Operation::Mov(w, s, d)) is Ok,
        step_op(step_op(v, Operation::Mov(w, s, d))->Ok_0, Operation::Mov(w, s, d)) is Ok,
        ({
            let v1 = step_op(v, Operation::Mov(w, s, d))->Ok_0;
            let v2 = step_op(v1, Operation::Mov(w, s, d))->Ok_0;
            v2.mem == v1.mem && v2.output == v1.output
        }),
{
    let val = mem_read(v.mem, s as int, w as int);
    let bs = be_bytes(val, w as nat);
    lemma_be_bytes_len(val, w as nat);
    lemma_be_val_bound(v.mem.subrange(s as int, s + w));
    let v1 = step_op(v, Operation::Mov(w, s, d))->Ok_0;
    lemma_mem_write_effect(v.mem, d as int, bs);
    let val2 = mem_read(v1.mem, s as int, w as int);
    if s == d {
        lemma_mem_write_read_back(v.mem, d as int, bs);
        lemma_be_val_of_be_bytes(val, w as nat);
        lemma_pow256_pos(w as nat);
        vstd::arithmetic::div_mod::lemma_small_mod(val as nat, pow256(w as nat));
        assert(val2 == val);
    } else {
        lemma_mem_write_frame(v.mem, d as int, bs, s as int, w as int);
        assert(val2 == val);
    }
    let v2 = step_op(v1, Operation::Mov(w, s, d))->Ok_0;
    lemma_mem_write_effect(v1.mem, d as int, bs);
    assert(v2.mem =~= v1.mem);
}

/// `add` followed by `sub` with the same operands restores the destination:
/// with distinct, non-overlapping addend and destination ranges and no
/// overflow at the operand width, memory returns to its prior value.
pub proof fn lemma_add_then_sub_restores(v: VmView, w: usize, d: usize, b: usize)
    requires
        valid_width(w),
        d + w <= v.mem.len(),
        b + w <= v.mem.len(),
        d + w <= b || b + w <= d,
        mem_read(v.mem, d as int, w as int) + mem_read(v.mem, b as int, w as int) < pow256(w as nat),
    ensures
        step_op(v, Operation::Add(w, d, b, d)) is Ok,
        step_op(step_op(v, Operation::Add(w, d, b, d))->Ok_0, Operation::Sub(w, d, b, d)) is Ok,
        (step_op(step_op(v, Operation::Add(w, d, b, d))->Ok_0, Operation::Sub(w, d, b, d))->Ok_0).mem
            == v.mem,
{
    let x = mem_read(v.mem, d as int, w as int);
    let y = mem_read(v.mem, b as int, w as int);
    lemma_be_val_bound(v.mem.subrange(d as int, d + w));
    lemma_be_val_bound(v.mem.subrange(b as int, b + w));
    lemma_pow256_mono(w as nat, 8);
    lemma_pow256_8();
    assert(x + y <= u64::MAX);
    let sum_bs = be_bytes(x + y, w as nat);
    lemma_be_bytes_len(x + y, w as nat);
    let v1 = step_op(v, Operation::Add(w, d, b, d))->Ok_0;
    assert(v1.mem == mem_write(v.mem, d as int, sum_bs));
    lemma_mem_write_effect(v.mem, d as int, sum_bs);
    lemma_mem_write_read_back(v.mem, d as int, sum_bs);
    lemma_be_val_of_be_bytes(x + y, w as nat);
    lemma_pow256_pos(w as nat);
    vstd::arithmetic::div_mod::lemma_small_mod((x + y) as nat, pow256(w as nat));
    assert(mem_read(v1.mem, d as int, w as int) == x + y);
    lemma_mem_write_frame(v.mem, d as int, sum_bs, b as int, w as int);
    assert(mem_read(v1.mem, b as int, w as int) == y);
    let v2 = step_op(v1, Operation::Sub(w, d, b, d))->Ok_0;
    assert(v2.mem == mem_write(v1.mem, d as int, be_bytes(x, w as nat)));
    lemma_be_bytes_of_be_val(v.mem.subrange(d as int, d + w));
    lemma_mem_write_effect(v1.mem, d as int, be_bytes(x, w as nat));
    lemma_be_bytes_len(x, w as nat);
    assert(v2.mem =~= v.mem);
}

/// `equ a b d` followed by `jie _ target d` jumps exactly when the two
/// compared values are equal, and otherwise falls through to the next
/// instruction: the pair has the control-flow effect of a jump if and only
/// if the comparison holds.
pub proof fn lemma_equ_then_jie(v: VmView, w: usize, a: usize, b: usize, d: usize, target: usize)
    requires
        valid_width(w),
        a + w <= v.mem.len(),
        b + w <= v.mem.len(),
        d + w <= v.mem.len(),
    ensures
        step_op(v, Operation::Equ(w, a, b, d)) is Ok,
        step_op(step_op(v, Operation::Equ(w, a, b, d))->Ok_0, Operation::Jie(w, target, d)) is Ok,
        ({
            let v1 = step_op(v, Operation::Equ(w, a, b, d))->Ok_0;
            let v2 = step_op(v1, Operation::Jie(w, target, d))->Ok_0;
            &&& (mem_read(v.mem, a as int, w as int) == mem_read(v.mem, b as int, w as int)
                ==> v2.pc == target)
            &&& (mem_read(v.mem, a as int, w as int) != mem_read(v.mem, b as int, w as int)
                ==> v2.pc == v1.pc + 8)
        }),
{
    let va = mem_read(v.mem, a as int, w as int);
    let vb = mem_read(v.mem, b as int, w as int);
    let c: int = if va == vb {
        1
    } else {
        0
    };
    let bs = be_bytes(c, w as nat);
    lemma_be_bytes_len(c, w as nat);
    let v1 = step_op(v, Operation::Equ(w, a, b, d))->Ok_0;
    assert(v1.mem == mem_write(v.mem, d as int, bs));
    lemma_mem_write_effect(v.mem, d as int, bs);
    lemma_mem_write_read_back(v.mem, d as int, bs);
    lemma_be_val_of_be_bytes(c, w as nat);
    lemma_pow256_pos(w as nat);
    assert(pow256(w as nat) >= 256) by {
        lemma_pow256_mono(1, w as nat);
    }
    vstd::arithmetic::div_mod::lemma_small_mod(c as nat, pow256(w as nat));
    assert(mem_read(v1.mem, d as int, w as int) == c);
}

/// Every executed instruction advances the program counter by exactly 8,
/// except a jump (which lands on its target literal), a conditional jump
/// (target when taken, 8 ahead when not), and `hlt` (which leaves it be).
pub proof fn lemma_pc_advance(v: VmView, operation: Operation)
    requires
        step_op(v, operation) is Ok,
    ensures
        ({
            let post = step_op(v, operation)->Ok_0;
            match operation {
                Operation::Jmp(t) => post.pc == t,
                Operation::Jie(_, t, _) => post.pc == t || post.pc == v.pc + 8,
                Operation::Jne(_, t, _) => post.pc == t || post.pc == v.pc + 8,
                Operation::Hlt() => post.pc == v.pc,
                _ => post.pc == v.pc + 8,
            }
        }),
{
}

/// Once halted within a budget, larger budgets end in the same state.
pub proof fn lemma_run_n_stable(init: VmView, n: nat, m: nat, v: VmView)
    requires
        n <= m,
        run_n(init, n) == Ok::<VmView, VmTrap>(v),
        v.mode == TransientMode::HALTED,
    ensures
        run_n(init, m) == Ok::<VmView, VmTrap>(v),
    decreases n,
{
    if init.mode == TransientMode::HALTED {
        assert(v == init);
    } else if n == 0 {
        assert(v == init);
        assert(false);
    } else {
        match machine_step(init) {
            Ok(v2) => {
                lemma_run_n_stable(v2, (n - 1) as nat, (m - 1) as nat, v);
            },
            Err(_) => {},
        }
    }
}

} // verus!

