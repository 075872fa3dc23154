use transient::isa::{encode_operation, Operation};
use transient::vm::{div_rounded, load_value, store_value, TransientMode, TransientState, VmTrap};
use transient::TRANSIENT_MEM_MAX;

fn fresh() -> TransientState {
    TransientState::new()
}

#[test]
fn a_new_processor_is_zeroed_and_halted() {
    let s = fresh();
    assert_eq!(s.memory.len(), TRANSIENT_MEM_MAX);
    assert!(s.memory.iter().all(|b| *b == 0));
    assert_eq!(s.image_length, 0);
    assert_eq!(s.program_counter, 0);
    assert!(matches!(s.mode, TransientMode::HALTED));
    assert!(s.output.is_empty());
}

#[test]
fn write_then_read_round_trips_at_every_width() {
    let mut mem = vec![0u8; 64];
    for &(w, v) in &[(1usize, 0xABu64), (2, 0xABCD), (4, 0xABCD1234), (8, 0xABCD1234DEADBEEF)] {
        store_value(&mut mem, 5, w, v);
        assert_eq!(load_value(&mem, 5, w), v);
    }
}

#[test]
fn stored_values_are_big_endian() {
    let mut mem = vec![0u8; 16];
    store_value(&mut mem, 3, 4, 0xDEADBEEF);
    assert_eq!(&mem[3..7], &[0xDE, 0xAD, 0xBE, 0xEF]);
    store_value(&mut mem, 10, 2, 0x0141);
    assert_eq!(&mem[10..12], &[0x01, 0x41]);
}

#[test]
fn narrow_stores_truncate_to_the_low_bytes() {
    let mut mem = vec![0u8; 16];
    store_value(&mut mem, 0, 1, 0x1234);
    assert_eq!(mem[0], 0x34);
    assert_eq!(load_value(&mem, 0, 1), 0x34);
}

#[test]
fn load_image_copies_bytes_and_records_the_length() {
    let mut s = fresh();
    s.load_image(4, &[1, 2, 3]);
    assert_eq!(&s.memory[4..7], &[1, 2, 3]);
    assert_eq!(s.image_length, 3);
    // load_text copies without touching the image length.
    s.load_text(9, &[7, 8]);
    assert_eq!(&s.memory[9..11], &[7, 8]);
    assert_eq!(s.image_length, 3);
}

#[test]
fn resolve_instruction_fetches_eight_bytes() {
    let mut s = fresh();
    s.load_image(0, &[1, 2, 3, 4, 5, 6, 7, 8, 9]);
    assert_eq!(s.resolve_instruction(0), [1, 2, 3, 4, 5, 6, 7, 8]);
    assert_eq!(s.resolve_instruction(1), [2, 3, 4, 5, 6, 7, 8, 9]);
}

fn exec(s: &mut TransientState, op: Operation) -> Result<usize, VmTrap> {
    let record = encode_operation(&op);
    s.execute_instruction(&record)
}

#[test]
fn mov_copies_and_advances_pc_by_eight() {
    let mut s = fresh();
    store_value(&mut s.memory, 100, 2, 0x1234);
    let next = exec(&mut s, Operation::Mov(2, 100, 200)).unwrap();
    assert_eq!(next, 8);
    assert_eq!(load_value(&s.memory, 200, 2), 0x1234);
}

#[test]
fn mov_is_idempotent_on_disjoint_ranges() {
    let mut s = fresh();
    store_value(&mut s.memory, 100, 2, 0x1234);
    exec(&mut s, Operation::Mov(2, 100, 200)).unwrap();
    let once = s.memory.clone();
    exec(&mut s, Operation::Mov(2, 100, 200)).unwrap();
    assert_eq!(s.memory, once);
}

#[test]
fn arithmetic_operates_on_dereferenced_values() {
    let mut s = fresh();
    store_value(&mut s.memory, 100, 8, 20);
    store_value(&mut s.memory, 108, 8, 6);
    exec(&mut s, Operation::Add(8, 100, 108, 116)).unwrap();
    assert_eq!(load_value(&s.memory, 116, 8), 26);
    exec(&mut s, Operation::Sub(8, 100, 108, 116)).unwrap();
    assert_eq!(load_value(&s.memory, 116, 8), 14);
    exec(&mut s, Operation::Mul(8, 100, 108, 116)).unwrap();
    assert_eq!(load_value(&s.memory, 116, 8), 120);
    exec(&mut s, Operation::DivT(8, 100, 108, 116)).unwrap();
    assert_eq!(load_value(&s.memory, 116, 8), 3);
    exec(&mut s, Operation::DivR(8, 100, 108, 116)).unwrap();
    assert_eq!(load_value(&s.memory, 116, 8), 3);
    exec(&mut s, Operation::Rem(8, 100, 108, 116)).unwrap();
    assert_eq!(load_value(&s.memory, 116, 8), 2);
    exec(&mut s, Operation::Cgt(8, 100, 108, 116)).unwrap();
    assert_eq!(load_value(&s.memory, 116, 8), 1);
    exec(&mut s, Operation::Clt(8, 100, 108, 116)).unwrap();
    assert_eq!(load_value(&s.memory, 116, 8), 0);
    exec(&mut s, Operation::Equ(8, 100, 108, 116)).unwrap();
    assert_eq!(load_value(&s.memory, 116, 8), 0);
    exec(&mut s, Operation::Equ(8, 100, 100, 116)).unwrap();
    assert_eq!(load_value(&s.memory, 116, 8), 1);
}

#[test]
fn add_then_sub_restores_the_destination() {
    let mut s = fresh();
    store_value(&mut s.memory, 100, 8, 41);
    store_value(&mut s.memory, 108, 8, 17);
    let before = s.memory.clone();
    exec(&mut s, Operation::Add(8, 100, 108, 100)).unwrap();
    assert_eq!(load_value(&s.memory, 100, 8), 58);
    exec(&mut s, Operation::Sub(8, 100, 108, 100)).unwrap();
    assert_eq!(s.memory, before);
}

#[test]
fn rounded_division_rounds_half_away_from_zero() {
    assert_eq!(div_rounded(7, 2), 4);
    assert_eq!(div_rounded(5, 2), 3);
    assert_eq!(div_rounded(4, 3), 1);
    assert_eq!(div_rounded(5, 3), 2);
    assert_eq!(div_rounded(10, 4), 3);
    assert_eq!(div_rounded(9, 3), 3);
    assert_eq!(div_rounded(0, 5), 0);
    assert_eq!(div_rounded(u64::MAX, 1), u64::MAX);
}

#[test]
fn checked_arithmetic_traps() {
    let mut s = fresh();
    store_value(&mut s.memory, 100, 8, u64::MAX);
    store_value(&mut s.memory, 108, 8, 2);
    assert_eq!(exec(&mut s, Operation::Add(8, 100, 100, 116)), Err(VmTrap::ArithmeticOverflow));
    assert_eq!(exec(&mut s, Operation::Mul(8, 100, 108, 116)), Err(VmTrap::ArithmeticOverflow));
    assert_eq!(exec(&mut s, Operation::Sub(8, 108, 100, 116)), Err(VmTrap::ArithmeticOverflow));
    assert_eq!(exec(&mut s, Operation::DivT(8, 100, 116, 116)), Err(VmTrap::DivisionByZero));
    assert_eq!(exec(&mut s, Operation::DivR(8, 100, 116, 116)), Err(VmTrap::DivisionByZero));
    assert_eq!(exec(&mut s, Operation::Rem(8, 100, 116, 116)), Err(VmTrap::DivisionByZero));
}

#[test]
fn out_of_range_operands_trap() {
    let mut s = fresh();
    assert_eq!(
        exec(&mut s, Operation::Mov(8, 0xFFF8, 0)),
        Err(VmTrap::AddressOutOfBounds)
    );
    assert_eq!(exec(&mut s, Operation::Mov(3, 0, 8)), Err(VmTrap::InvalidWidth));
    assert_eq!(
        s.execute_instruction(&[0x55, 0, 0, 0, 0, 0, 0, 0]),
        Err(VmTrap::UnknownOpcode)
    );
}

#[test]
fn jumps_use_literals_and_conditions_dereference() {
    let mut s = fresh();
    assert_eq!(exec(&mut s, Operation::Jmp(0x0120)), Ok(0x0120));
    store_value(&mut s.memory, 50, 1, 1);
    // jie: jump when the condition value is non-zero.
    assert_eq!(exec(&mut s, Operation::Jie(1, 0x40, 50)), Ok(0x40));
    assert_eq!(exec(&mut s, Operation::Jne(1, 0x40, 50)), Ok(8));
    store_value(&mut s.memory, 50, 1, 0);
    assert_eq!(exec(&mut s, Operation::Jie(1, 0x40, 50)), Ok(8));
    assert_eq!(exec(&mut s, Operation::Jne(1, 0x40, 50)), Ok(0x40));
}

#[test]
fn equ_then_jie_acts_as_a_jump_exactly_when_equal() {
    let mut s = fresh();
    store_value(&mut s.memory, 10, 1, 7);
    store_value(&mut s.memory, 11, 1, 7);
    store_value(&mut s.memory, 12, 1, 9);
    exec(&mut s, Operation::Equ(1, 10, 11, 20)).unwrap();
    assert_eq!(exec(&mut s, Operation::Jie(1, 0x80, 20)), Ok(0x80));
    exec(&mut s, Operation::Equ(1, 10, 12, 20)).unwrap();
    assert_eq!(exec(&mut s, Operation::Jie(1, 0x80, 20)), Ok(8));
}

#[test]
fn puti_appends_decimal_text_and_putc_the_low_byte() {
    let mut s = fresh();
    store_value(&mut s.memory, 30, 8, 1234);
    exec(&mut s, Operation::PutI(8, 30)).unwrap();
    assert_eq!(s.output, b"1234".to_vec());
    store_value(&mut s.memory, 40, 1, 65);
    exec(&mut s, Operation::PutC(1, 40)).unwrap();
    assert_eq!(s.output, b"1234A".to_vec());
}

#[test]
fn imz_stores_the_image_length() {
    let mut s = fresh();
    s.load_image(0, &[0u8; 25]);
    exec(&mut s, Operation::Imz(8, 100)).unwrap();
    assert_eq!(load_value(&s.memory, 100, 8), 25);
}

#[test]
fn hlt_halts_without_moving_the_pc() {
    let mut s = fresh();
    s.program_counter = 24;
    assert_eq!(exec(&mut s, Operation::Hlt()), Ok(24));
    assert!(matches!(s.mode, TransientMode::HALTED));
}

#[test]
fn a_fetch_past_memory_traps() {
    let mut s = fresh();
    assert_eq!(s.run(TRANSIENT_MEM_MAX - 4, 10), Err(VmTrap::FetchOutOfBounds));
}

#[test]
fn an_exhausted_step_budget_leaves_the_machine_running() {
    let mut s = fresh();
    // An empty budget performs no step at all.
    assert_eq!(s.run(0, 0), Ok(false));
    assert!(matches!(s.mode, TransientMode::RUNNING));
}

#[test]
fn run_executes_until_halt() {
    let mut s = fresh();
    let mut image: Vec<u8> = Vec::new();
    image.extend_from_slice(&encode_operation(&Operation::PutC(1, 24)));
    image.extend_from_slice(&encode_operation(&Operation::Jmp(16)));
    image.extend_from_slice(&encode_operation(&Operation::Hlt()));
    image.push(66);
    s.load_image(0, &image);
    assert_eq!(s.run(0, 1000), Ok(true));
    assert_eq!(s.output, b"B".to_vec());
    assert!(matches!(s.mode, TransientMode::HALTED));
}
