//! The register file, the instruction pointer, and the single-step
//! interpreter of the fourteen operations.
use vstd::prelude::*;

use crate::bank::{Bank, exhausted, least_unused, zeros};
use crate::fault::Fault;
use crate::loader::{platters_of, read};

verus! {

/// What the driver of the machine must do after a step.
#[derive(Debug, Clone, Copy, PartialEq, Eq, Structural)]
pub enum Action {
    /// Nothing: run the next step.
    Continue,
    /// The program halted cleanly.
    Halt,
    /// Write this byte to the output and flush it.
    Output(u8),
    /// Read one byte of input and hand it to `Machine::input` with this
    /// register.
    Input(usize),
}

/// The machine as a mathematical value: eight registers, the instruction
/// pointer, and the arrays of the bank by identifier.
pub struct MachineView {
    pub regs: Seq<u32>,
    pub ip: nat,
    pub arrays: Map<u32, Seq<u32>>,
}

/// The operation number: the top four bits.
pub open spec fn opcode(w: u32) -> u32 {
    w >> 28
}

/// Register selector A: three bits at offset 6.
pub open spec fn sel_a(w: u32) -> u32 {
    (w >> 6) & 7
}

/// Register selector B: three bits at offset 3.
pub open spec fn sel_b(w: u32) -> u32 {
    (w >> 3) & 7
}

/// Register selector C: three bits at offset 0.
pub open spec fn sel_c(w: u32) -> u32 {
    w & 7
}

/// The register of a load-immediate: three bits at offset 25.
pub open spec fn sel_imm(w: u32) -> u32 {
    (w >> 25) & 7
}

/// The value of a load-immediate: the low 25 bits.
pub open spec fn imm_value(w: u32) -> u32 {
    w & 0x1ff_ffff
}

/// The fields of an instruction select registers and stay in their widths.
proof fn lemma_fields(w: u32)
    ensures
        opcode(w) < 16,
        sel_a(w) < 8,
        sel_b(w) < 8,
        sel_c(w) < 8,
        sel_imm(w) < 8,
        imm_value(w) < 0x200_0000,
{
    assert(w >> 28u32 < 16) by (bit_vector);
    assert((w >> 6u32) & 7u32 < 8) by (bit_vector);
    assert((w >> 3u32) & 7u32 < 8) by (bit_vector);
    assert(w & 7u32 < 8) by (bit_vector);
    assert((w >> 25u32) & 7u32 < 8) by (bit_vector);
    assert(w & 0x1ff_ffffu32 < 0x200_0000) by (bit_vector);
}

/// `s` with the instruction pointer at `ip` and register `r` set to `v`.
pub open spec fn with_reg(s: MachineView, ip: nat, r: u32, v: u32) -> MachineView {
    MachineView { regs: s.regs.update(r as int, v), ip, arrays: s.arrays }
}

/// `s` with the instruction pointer at `ip`.
pub open spec fn with_ip(s: MachineView, ip: nat) -> MachineView {
    MachineView { regs: s.regs, ip, arrays: s.arrays }
}

/// One step of the machine from `s`: the action for the driver and the state
/// after it, or the fault that aborts the machine.
pub open spec fn step(s: MachineView) -> Result<(Action, MachineView), Fault> {
    if !s.arrays.contains_key(0) || s.ip >= s.arrays[0].len() {
        Err(Fault::PcOutOfRange)
    } else {
        let w = s.arrays[0][s.ip as int];
        let next = s.ip + 1;
        let op = opcode(w);
        let a = s.regs[sel_a(w) as int];
        let b = s.regs[sel_b(w) as int];
        let c = s.regs[sel_c(w) as int];
        if op > 13 || op == 7 {
            Ok((Action::Halt, with_ip(s, next)))
        } else if op == 0 {
            if c != 0 {
                Ok((Action::Continue, with_reg(s, next, sel_a(w), b)))
            } else {
                Ok((Action::Continue, with_ip(s, next)))
            }
        } else if op == 1 {
            if !s.arrays.contains_key(b) {
                Err(Fault::UnknownArray)
            } else if c >= s.arrays[b].len() {
                Err(Fault::IndexOutOfBounds)
            } else {
                Ok((Action::Continue, with_reg(s, next, sel_a(w), s.arrays[b][c as int])))
            }
        } else if op == 2 {
            if !s.arrays.contains_key(a) {
                Err(Fault::UnknownArray)
            } else if b >= s.arrays[a].len() {
                Err(Fault::IndexOutOfBounds)
            } else {
                Ok((
                    Action::Continue,
                    MachineView {
                        regs: s.regs,
                        ip: next,
                        arrays: s.arrays.insert(a, s.arrays[a].update(b as int, c)),
                    },
                ))
            }
        } else if op == 3 {
            Ok((Action::Continue, with_reg(s, next, sel_a(w), ((b + c) % 0x1_0000_0000) as u32)))
        } else if op == 4 {
            Ok((Action::Continue, with_reg(s, next, sel_a(w), ((b * c) % 0x1_0000_0000) as u32)))
        } else if op == 5 {
            if c == 0 {
                Err(Fault::DivisionByZero)
            } else {
                Ok((Action::Continue, with_reg(s, next, sel_a(w), b / c)))
            }
        } else if op == 6 {
            Ok((Action::Continue, with_reg(s, next, sel_a(w), !(b & c))))
        } else if op == 8 {
            if exhausted(s.arrays) {
                Err(Fault::OutOfIdentifiers)
            } else {
                let id = least_unused(s.arrays);
                Ok((
                    Action::Continue,
                    MachineView {
                        regs: s.regs.update(sel_b(w) as int, id),
                        ip: next,
                        arrays: s.arrays.insert(id, zeros(c as nat)),
                    },
                ))
            }
        } else if op == 9 {
            if c == 0 {
                Err(Fault::FreeProgram)
            } else if !s.arrays.contains_key(c) {
                Err(Fault::UnknownArray)
            } else {
                Ok((
                    Action::Continue,
                    MachineView { regs: s.regs, ip: next, arrays: s.arrays.remove(c) },
                ))
            }
        } else if op == 10 {
            if c > 255 {
                Err(Fault::OutputOutOfRange)
            } else {
                Ok((Action::Output(c as u8), with_ip(s, next)))
            }
        } else if op == 11 {
            Ok((Action::Input(sel_c(w) as usize), with_ip(s, next)))
        } else if op == 12 {
            if b == 0 {
                Ok((Action::Continue, with_ip(s, c as nat)))
            } else if !s.arrays.contains_key(b) {
                Err(Fault::UnknownArray)
            } else {
                Ok((
                    Action::Continue,
                    MachineView { regs: s.regs, ip: c as nat, arrays: s.arrays.insert(0, s.arrays[b]) },
                ))
            }
        } else {
            Ok((Action::Continue, with_reg(s, next, sel_imm(w), imm_value(w))))
        }
    }
}

/// The instruction pointer of `s` lies within array 0.
pub open spec fn fetchable(s: MachineView) -> bool {
    s.arrays.contains_key(0) && s.ip < s.arrays[0].len()
}

/// The instruction at the instruction pointer of `s`.
pub open spec fn current(s: MachineView) -> u32 {
    s.arrays[0][s.ip as int]
}

/// Addition and multiplication store `(B + C) mod 2^32` and
/// `(B * C) mod 2^32` in register A and never fault, whatever B and C hold.
pub proof fn lemma_arithmetic_wraps(s: MachineView)
    requires
        s.regs.len() == 8,
        fetchable(s),
        opcode(current(s)) == 3 || opcode(current(s)) == 4,
    ensures
        ({
            let w = current(s);
            let b = s.regs[sel_b(w) as int] as int;
            let c = s.regs[sel_c(w) as int] as int;
            &&& step(s) is Ok
            &&& step(s)->Ok_0.0 == Action::Continue
            &&& step(s)->Ok_0.1.regs[sel_a(w) as int] as int == if opcode(w) == 3 {
                (b + c) % 0x1_0000_0000
            } else {
                (b * c) % 0x1_0000_0000
            }
        }),
{
    let w = current(s);
    lemma_fields(w);
    let b = s.regs[sel_b(w) as int] as int;
    let c = s.regs[sel_c(w) as int] as int;
    assert(0 <= b * c) by (nonlinear_arith)
        requires
            0 <= b,
            0 <= c,
    ;
}

/// Division stores the unsigned quotient of B by C, rounded toward zero, in
/// register A; a zero divisor aborts the machine.
pub proof fn lemma_division(s: MachineView)
    requires
        s.regs.len() == 8,
        fetchable(s),
        opcode(current(s)) == 5,
    ensures
        ({
            let w = current(s);
            let b = s.regs[sel_b(w) as int];
            let c = s.regs[sel_c(w) as int];
            &&& c == 0 ==> step(s) == Err::<(Action, MachineView), Fault>(Fault::DivisionByZero)
            &&& c != 0 ==> step(s) is Ok && step(s)->Ok_0.1.regs[sel_a(w) as int] * c <= b
                < (step(s)->Ok_0.1.regs[sel_a(w) as int] + 1) * c
        }),
{
    let w = current(s);
    lemma_fields(w);
    let b = s.regs[sel_b(w) as int];
    let c = s.regs[sel_c(w) as int];
    if c != 0 {
        let q = (b / c) as int;
        let bi = b as int;
        let ci = c as int;
        assert(q * ci <= bi < (q + 1) * ci) by (nonlinear_arith)
            requires
                ci > 0,
                bi >= 0,
                q == bi / ci,
        ;
    }
}

/// A load-immediate with register selector `r` and 25-bit value `v` stores
/// exactly `v` in register `r`, with its upper seven bits clear.
pub proof fn lemma_load_immediate(s: MachineView, r: u32, v: u32)
    requires
        s.regs.len() == 8,
        fetchable(s),
        r < 8,
        v < 0x200_0000,
        current(s) == (13u32 << 28u32) | (r << 25u32) | v,
    ensures
        step(s) == Ok::<(Action, MachineView), Fault>(
            (Action::Continue, with_reg(s, s.ip + 1, r, v)),
        ),
        v >> 25u32 == 0,
{
    let w = current(s);
    assert(((13u32 << 28u32) | (r << 25u32) | v) >> 28u32 == 13) by (bit_vector)
        requires
            r < 8,
            v < 0x200_0000,
    ;
    assert(((((13u32 << 28u32) | (r << 25u32) | v) >> 25u32) & 7u32) == r) by (bit_vector)
        requires
            r < 8,
            v < 0x200_0000,
    ;
    assert((((13u32 << 28u32) | (r << 25u32) | v) & 0x1ff_ffffu32) == v) by (bit_vector)
        requires
            r < 8,
            v < 0x200_0000,
    ;
    assert(v >> 25u32 == 0) by (bit_vector)
        requires
            v < 0x200_0000,
    ;
    lemma_fields(w);
}

/// A load-program whose register B names a live array other than 0 makes
/// array 0 a copy of it and moves the instruction pointer to register C, so
/// the next instruction fetched is that array's platter at offset C.
pub proof fn lemma_load_program(s: MachineView)
    requires
        s.regs.len() == 8,
        fetchable(s),
        opcode(current(s)) == 12,
        s.regs[sel_b(current(s)) as int] != 0,
        s.arrays.contains_key(s.regs[sel_b(current(s)) as int]),
    ensures
        ({
            let w = current(s);
            let b = s.regs[sel_b(w) as int];
            let c = s.regs[sel_c(w) as int];
            let t = step(s)->Ok_0.1;
            &&& step(s) is Ok
            &&& t.arrays[0] == s.arrays[b]
            &&& t.arrays[b] == s.arrays[b]
            &&& t.ip == c
            &&& c < s.arrays[b].len() ==> fetchable(t) && current(t) == s.arrays[b][c as int]
        }),
{
    lemma_fields(current(s));
}

/// An output instruction hands out register C as one byte when it is at most
/// 255, and aborts the machine otherwise.
pub proof fn lemma_output(s: MachineView)
    requires
        s.regs.len() == 8,
        fetchable(s),
        opcode(current(s)) == 10,
    ensures
        ({
            let c = s.regs[sel_c(current(s)) as int];
            &&& c <= 255 ==> step(s) == Ok::<(Action, MachineView), Fault>(
                (Action::Output(c as u8), with_ip(s, s.ip + 1)),
            )
            &&& c > 255 ==> step(s) == Err::<(Action, MachineView), Fault>(Fault::OutputOutOfRange)
        }),
{
    lemma_fields(current(s));
}

/// The machine at start-up with `program` as array 0.
pub open spec fn initial(program: Seq<u32>) -> MachineView {
    MachineView { regs: Seq::new(8, |i: int| 0u32), ip: 0, arrays: map![0u32 => program] }
}

/// A running Universal Machine.
pub struct Machine {
    bank: Bank,
    regs: [u32; 8],
    ip: usize,
}

impl View for Machine {
    type V = MachineView;

    closed spec fn view(&self) -> MachineView {
        MachineView { regs: self.regs@, ip: self.ip as nat, arrays: self.bank@ }
    }
}

impl Machine {
    /// The machine's invariant: the bank is well formed.
    pub closed spec fn wf(&self) -> bool {
        self.bank.wf()
    }

    /// A machine whose program is the image `image`, read as big-endian
    /// platters; all registers and the instruction pointer are zero.
    pub fn new(image: &[u8]) -> (m: Machine)
        ensures
            m.wf(),
            m@ == initial(platters_of(image@)),
    {
        let m = Machine { bank: Bank::new(read(image)), regs: [0u32; 8], ip: 0 };
        assert(m@.regs =~= Seq::new(8, |i: int| 0u32));
        m
    }

    /// The value of register `r`.
    pub fn register(&self, r: usize) -> (v: u32)
        requires
            r < 8,
        ensures
            v == self@.regs[r as int],
    {
        self.regs[r]
    }

    /// The instruction pointer, in platters from the start of array 0.
    pub fn ip(&self) -> (p: usize)
        ensures
            p == self@.ip,
    {
        self.ip
    }

    /// Executes the instruction at the instruction pointer. A fault leaves
    /// the machine as it was; otherwise the machine moves to the state that
    /// `step` gives, and the driver is told what to do next.
    pub fn advance(&mut self) -> (r: Result<Action, Fault>)
        requires
            old(self).wf(),
        ensures
            final(self).wf(),
            match step(old(self)@) {
                Ok((act, t)) => r == Ok::<Action, Fault>(act) && final(self)@ == t,
                Err(f) => r == Err::<Action, Fault>(f) && final(self)@ == old(self)@,
            },
    {
        let ghost s = self@;
        let w: u32 = match self.bank.fetch(self.ip) {
            Ok(w) => w,
            Err(f) => {
                return Err(f);
            },
        };
        let next: usize = self.ip + 1;
        proof {
            lemma_fields(w);
        }
        let op: u32 = w >> 28;
        let ra: usize = ((w >> 6) & 7) as usize;
        let rb: usize = ((w >> 3) & 7) as usize;
        let rc: usize = (w & 7) as usize;
        let a: u32 = self.regs[ra];
        let b: u32 = self.regs[rb];
        let c: u32 = self.regs[rc];
        if op > 13 || op == 7 {
            self.ip = next;
            return Ok(Action::Halt);
        }
        let act: Action = if op == 0 {
            if c != 0 {
                self.regs[ra] = b;
            }
            Action::Continue
        } else if op == 1 {
            match self.bank.get(b, c) {
                Ok(v) => {
                    self.regs[ra] = v;
                },
                Err(f) => {
                    return Err(f);
                },
            }
            Action::Continue
        } else if op == 2 {
            match self.bank.set(a, b, c) {
                Ok(()) => {},
                Err(f) => {
                    return Err(f);
                },
            }
            Action::Continue
        } else if op == 3 {
            self.regs[ra] = b.wrapping_add(c);
            Action::Continue
        } else if op == 4 {
            self.regs[ra] = b.wrapping_mul(c);
            Action::Continue
        } else if op == 5 {
            if c == 0 {
                return Err(Fault::DivisionByZero);
            }
            self.regs[ra] = b / c;
            Action::Continue
        } else if op == 6 {
            self.regs[ra] = !(b & c);
            Action::Continue
        } else if op == 8 {
            match self.bank.allocate(c) {
                Ok(id) => {
                    self.regs[rb] = id;
                },
                Err(f) => {
                    return Err(f);
                },
            }
            Action::Continue
        } else if op == 9 {
            match self.bank.free(c) {
                Ok(()) => {},
                Err(f) => {
                    return Err(f);
                },
            }
            Action::Continue
        } else if op == 10 {
            if c > 255 {
                return Err(Fault::OutputOutOfRange);
            }
            Action::Output(c as u8)
        } else if op == 11 {
            Action::Input(rc)
        } else if op == 12 {
            if b != 0 {
                match self.bank.load_program(b) {
                    Ok(()) => {},
                    Err(f) => {
                        return Err(f);
                    },
                }
            }
            self.ip = c as usize;
            assert(self@.regs =~= s.regs);
            return Ok(Action::Continue);
        } else {
            let r: usize = ((w >> 25) & 7) as usize;
            self.regs[r] = w & 0x1ff_ffff;
            Action::Continue
        };
        self.ip = next;
        proof {
            assert(self@.regs =~= step(s)->Ok_0.1.regs);
        }
        Ok(act)
    }

    /// Stores the byte read for an input instruction in register `reg`, or
    /// all ones where the input had ended.
    pub fn input(&mut self, reg: usize, byte: Option<u8>)
        requires
            old(self).wf(),
            reg < 8,
        ensures
            final(self).wf(),
            final(self)@ == with_reg(
                old(self)@,
                old(self)@.ip,
                reg as u32,
                match byte {
                    Some(x) => x as u32,
                    None => u32::MAX,
                },
            ),
    {
        let ghost s = self@;
        let v: u32 = match byte {
            Some(x) => x as u32,
            None => u32::MAX,
        };
        self.regs[reg] = v;
        assert(self@.regs =~= s.regs.update(reg as int, v));
    }
}

} // verus!
