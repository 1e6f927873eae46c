use um32::bank::Bank;
use um32::fault::Fault;
use um32::loader::read;
use um32::machine::{Action, Machine};

fn op(code: u32, a: u32, b: u32, c: u32) -> u32 {
    (code << 28) | (a << 6) | (b << 3) | c
}

fn imm(r: u32, v: u32) -> u32 {
    (13 << 28) | (r << 25) | v
}

fn image(words: &[u32]) -> Vec<u8> {
    let mut bytes = Vec::new();
    for w in words {
        bytes.extend_from_slice(&w.to_be_bytes());
    }
    bytes
}

/// Runs a program to its end, feeding `input` to input instructions.
fn run(words: &[u32], input: &[u8]) -> (Vec<u8>, Result<Machine, Fault>) {
    let mut m = Machine::new(&image(words));
    let mut out = Vec::new();
    let mut pos = 0;
    for _ in 0..10_000 {
        match m.advance() {
            Ok(Action::Continue) => {}
            Ok(Action::Halt) => return (out, Ok(m)),
            Ok(Action::Output(b)) => out.push(b),
            Ok(Action::Input(r)) => {
                let byte = input.get(pos).copied();
                pos += 1;
                m.input(r, byte);
            }
            Err(f) => return (out, Err(f)),
        }
    }
    panic!("program did not halt");
}

const HALT: u32 = 7 << 28;

#[test]
fn read_big_endian_words() {
    assert_eq!(read(&[0x12, 0x34, 0x56, 0x78, 0, 0, 0, 1]), vec![0x1234_5678, 1]);
}

#[test]
fn read_pads_trailing_chunk_with_zeros() {
    assert_eq!(read(&[0xAB, 0xCD, 0xEF, 0x01, 0x12, 0x34]), vec![0xABCD_EF01, 0x1234_0000]);
    assert_eq!(read(&[0x7F]), vec![0x7F00_0000]);
}

#[test]
fn read_empty_image() {
    assert_eq!(read(&[]), Vec::<u32>::new());
}

#[test]
fn addition_wraps() {
    let (_, m) = run(&[imm(1, 0x1FF_FFFF), op(6, 1, 1, 1), imm(2, 1), op(3, 3, 1, 2), HALT], &[]);
    let m = m.unwrap();
    assert_eq!(m.register(1), 0xFE00_0000);
    let (_, m) = run(
        &[imm(1, 0), op(6, 1, 1, 1), imm(2, 1), op(3, 3, 1, 2), HALT],
        &[],
    );
    let m = m.unwrap();
    assert_eq!(m.register(1), 0xFFFF_FFFF);
    assert_eq!(m.register(3), 0);
}

#[test]
fn multiplication_wraps() {
    let (_, m) = run(&[imm(1, 0), op(6, 1, 1, 1), imm(2, 2), op(4, 3, 1, 2), HALT], &[]);
    let m = m.unwrap();
    assert_eq!(m.register(3), 0xFFFF_FFFE);
    let (_, m) = run(&[imm(1, 6), imm(2, 7), op(4, 3, 1, 2), HALT], &[]);
    assert_eq!(m.unwrap().register(3), 42);
}

#[test]
fn division_truncates() {
    let (_, m) = run(&[imm(1, 7), imm(2, 2), op(5, 3, 1, 2), HALT], &[]);
    assert_eq!(m.unwrap().register(3), 3);
}

#[test]
fn division_by_zero_aborts() {
    let (_, m) = run(&[imm(1, 7), op(5, 3, 1, 2), HALT], &[]);
    assert_eq!(m.err(), Some(Fault::DivisionByZero));
}

#[test]
fn nand_of_registers() {
    let (_, m) = run(&[imm(1, 0b1100), imm(2, 0b1010), op(6, 3, 1, 2), HALT], &[]);
    assert_eq!(m.unwrap().register(3), !0b1000u32);
}

#[test]
fn conditional_move() {
    let (_, m) = run(&[imm(1, 5), imm(3, 9), op(0, 3, 1, 2), HALT], &[]);
    assert_eq!(m.unwrap().register(3), 9);
    let (_, m) = run(&[imm(1, 5), imm(2, 1), imm(3, 9), op(0, 3, 1, 2), HALT], &[]);
    assert_eq!(m.unwrap().register(3), 5);
}

#[test]
fn load_immediate_takes_low_25_bits() {
    assert_eq!(imm(0, 0x1AB_CDEF), 0xD1AB_CDEF);
    let mut m = Machine::new(&image(&[0xD1AB_CDEF]));
    assert_eq!(m.advance(), Ok(Action::Continue));
    assert_eq!(m.register(0), 0x1AB_CDEF);
    assert_eq!(m.register(0) >> 25, 0);
    assert_eq!(m.ip(), 1);
}

#[test]
fn load_immediate_selects_register() {
    let (_, m) = run(&[imm(7, 1234), HALT], &[]);
    let m = m.unwrap();
    assert_eq!(m.register(7), 1234);
    assert_eq!(m.register(0), 0);
}

#[test]
fn amend_then_index() {
    // r1 = new array of 4; r1[2] = 77; r4 = r1[2]
    let (_, m) = run(
        &[imm(2, 4), op(8, 0, 1, 2), imm(3, 2), imm(5, 77), op(2, 1, 3, 5), op(1, 4, 1, 3), HALT],
        &[],
    );
    let m = m.unwrap();
    assert_eq!(m.register(1), 1);
    assert_eq!(m.register(4), 77);
}

#[test]
fn index_out_of_bounds_aborts() {
    let (_, m) = run(&[imm(2, 4), op(8, 0, 1, 2), imm(3, 4), op(1, 4, 1, 3), HALT], &[]);
    assert_eq!(m.err(), Some(Fault::IndexOutOfBounds));
}

#[test]
fn index_into_unknown_array_aborts() {
    let (_, m) = run(&[imm(1, 3), op(1, 4, 1, 2), HALT], &[]);
    assert_eq!(m.err(), Some(Fault::UnknownArray));
    let (_, m) = run(&[imm(1, 3), op(2, 1, 2, 2), HALT], &[]);
    assert_eq!(m.err(), Some(Fault::UnknownArray));
}

#[test]
fn free_of_program_aborts() {
    let (_, m) = run(&[op(9, 0, 0, 1), HALT], &[]);
    assert_eq!(m.err(), Some(Fault::FreeProgram));
}

#[test]
fn free_of_unknown_array_aborts() {
    let (_, m) = run(&[imm(1, 5), op(9, 0, 0, 1), HALT], &[]);
    assert_eq!(m.err(), Some(Fault::UnknownArray));
}

#[test]
fn running_off_the_end_aborts() {
    let (_, m) = run(&[imm(1, 5)], &[]);
    assert_eq!(m.err(), Some(Fault::PcOutOfRange));
    let (_, m) = run(&[], &[]);
    assert_eq!(m.err(), Some(Fault::PcOutOfRange));
}

#[test]
fn fault_leaves_machine_unchanged() {
    let mut m = Machine::new(&image(&[imm(1, 7), op(5, 3, 1, 2)]));
    assert_eq!(m.advance(), Ok(Action::Continue));
    assert_eq!(m.advance(), Err(Fault::DivisionByZero));
    assert_eq!(m.ip(), 1);
    assert_eq!(m.register(3), 0);
}

#[test]
fn undefined_opcodes_halt() {
    for code in [7u32, 14, 15] {
        let (out, m) = run(&[code << 28, imm(0, 65), op(10, 0, 0, 0)], &[]);
        assert!(out.is_empty());
        assert_eq!(m.unwrap().ip(), 1);
    }
}

#[test]
fn allocate_free_allocate_reuses_identifier() {
    let mut b = Bank::new(vec![]);
    let id = b.allocate(3).unwrap();
    assert_eq!(id, 1);
    assert_eq!(b.free(id), Ok(()));
    assert_eq!(b.allocate(5), Ok(id));
    assert_eq!(b.get(id, 4), Ok(0));
    assert_eq!(b.get(id, 5), Err(Fault::IndexOutOfBounds));
}

#[test]
fn smallest_freed_identifier_first() {
    let mut b = Bank::new(vec![]);
    for expected in 1..=5u32 {
        assert_eq!(b.allocate(1), Ok(expected));
    }
    assert_eq!(b.free(4), Ok(()));
    assert_eq!(b.free(2), Ok(()));
    assert_eq!(b.free(5), Ok(()));
    assert_eq!(b.allocate(1), Ok(2));
    assert_eq!(b.allocate(1), Ok(4));
    assert_eq!(b.allocate(1), Ok(5));
    assert_eq!(b.allocate(1), Ok(6));
}

#[test]
fn freed_below_candidate_is_taken_first() {
    let mut b = Bank::new(vec![]);
    assert_eq!(b.allocate(1), Ok(1));
    assert_eq!(b.allocate(1), Ok(2));
    assert_eq!(b.allocate(1), Ok(3));
    assert_eq!(b.free(3), Ok(()));
    assert_eq!(b.free(1), Ok(()));
    assert_eq!(b.allocate(1), Ok(1));
    assert_eq!(b.allocate(1), Ok(3));
    assert_eq!(b.allocate(1), Ok(4));
}

#[test]
fn bank_errors() {
    let mut b = Bank::new(vec![9]);
    assert_eq!(b.free(0), Err(Fault::FreeProgram));
    assert_eq!(b.free(1), Err(Fault::UnknownArray));
    assert_eq!(b.get(1, 0), Err(Fault::UnknownArray));
    assert_eq!(b.set(0, 1, 3), Err(Fault::IndexOutOfBounds));
    assert_eq!(b.set(0, 0, 3), Ok(()));
    assert_eq!(b.fetch(0), Ok(3));
    assert_eq!(b.fetch(1), Err(Fault::PcOutOfRange));
    assert_eq!(b.load_program(4), Err(Fault::UnknownArray));
}

#[test]
fn load_program_copies_and_jumps() {
    let mut b = Bank::new(vec![1, 2]);
    let id = b.allocate(2).unwrap();
    assert_eq!(b.set(id, 1, 42), Ok(()));
    assert_eq!(b.load_program(id), Ok(()));
    assert_eq!(b.fetch(1), Ok(42));
    assert_eq!(b.fetch(2), Err(Fault::PcOutOfRange));
    assert_eq!(b.set(0, 1, 5), Ok(()));
    assert_eq!(b.get(id, 1), Ok(42));
}

#[test]
fn load_program_runs_new_array() {
    // Build [imm(0, 66), output r0, halt] in array 1, then jump to it.
    let words = [imm(0, 66), op(10, 0, 0, 0), HALT];
    let mut prog = vec![imm(2, 3), op(8, 0, 1, 2)];
    for (i, w) in words.iter().enumerate() {
        // Each word is put together from its top and bottom halves.
        prog.push(imm(3, w >> 16));
        prog.push(imm(4, 0x1_0000));
        prog.push(op(4, 3, 3, 4));
        prog.push(imm(4, w & 0xFFFF));
        prog.push(op(3, 3, 3, 4));
        prog.push(imm(5, i as u32));
        prog.push(op(2, 1, 5, 3));
    }
    prog.push(imm(6, 0));
    prog.push(op(12, 0, 1, 6));
    prog.push(imm(0, 88));
    prog.push(op(10, 0, 0, 0));
    prog.push(HALT);
    let (out, m) = run(&prog, &[]);
    assert_eq!(out, vec![66]);
    assert_eq!(m.unwrap().ip(), 3);
}

#[test]
fn load_program_from_zero_only_jumps() {
    let (out, m) = run(&[imm(6, 3), op(12, 0, 1, 6), HALT, imm(0, 67), op(10, 0, 0, 0), HALT], &[]);
    assert_eq!(out, vec![67]);
    assert!(m.is_ok());
}

#[test]
fn output_writes_byte() {
    let mut m = Machine::new(&image(&[imm(1, 65), op(10, 0, 0, 1), HALT]));
    assert_eq!(m.advance(), Ok(Action::Continue));
    assert_eq!(m.advance(), Ok(Action::Output(b'A')));
    assert_eq!(m.advance(), Ok(Action::Halt));
}

#[test]
fn output_above_255_aborts() {
    let (out, m) = run(&[imm(1, 256), op(10, 0, 0, 1), HALT], &[]);
    assert!(out.is_empty());
    assert_eq!(m.err(), Some(Fault::OutputOutOfRange));
}

#[test]
fn input_reads_bytes_then_all_ones() {
    let mut m = Machine::new(&image(&[op(11, 0, 0, 2), HALT]));
    assert_eq!(m.advance(), Ok(Action::Input(2)));
    m.input(2, Some(b'x'));
    assert_eq!(m.register(2), b'x' as u32);
    let (out, m) = run(&[op(11, 0, 0, 1), op(10, 0, 0, 1), op(11, 0, 0, 3), HALT], b"q");
    assert_eq!(out, b"q".to_vec());
    assert_eq!(m.unwrap().register(3), u32::MAX);
}

#[test]
fn hello_end_to_end() {
    let words = [imm(0, 72), op(10, 0, 0, 0), HALT];
    assert_eq!(words[0] >> 28, 13);
    assert_eq!(words[1] >> 28, 10);
    let (out, m) = run(&words, &[]);
    assert_eq!(out, vec![0x48]);
    assert!(m.is_ok());
}
