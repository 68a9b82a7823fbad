//! The 65816 core: registers, addressing modes, and the opcode table.

use vstd::prelude::*;

use crate::text::{dec_digits, hex_digits, push_dec, push_hex, push_str};

verus! {

/// Memory as seen by the CPU: a flat 24-bit address space.
pub trait Bus {
    fn read(&mut self, addr: u32) -> u8;

    fn write(&mut self, addr: u32, value: u8);

    /// Whether the IRQ line is asserted. Polled between instructions while
    /// the CPU has interrupts enabled.
    fn irq(&mut self) -> (r: bool)
        default_ensures
            r == false,
    {
        false
    }

    /// Where an IRQ takes the CPU: the cartridge's vector, unless the bus
    /// supplies it from somewhere else (the SA-1 reads its own from
    /// registers).
    fn irq_vector(&mut self, emulation: bool) -> u16 {
        let addr: u32 = if emulation {
            0xFFFE
        } else {
            0xFFEE
        };
        let lo = self.read(addr);
        let hi = self.read(addr + 1);
        lo as u16 | ((hi as u16) << 8)
    }

    /// The CPU is waiting for something outside itself (see
    /// [`Cpu::run`]). Runs whatever else shares the bus and returns
    /// whether any of it got anywhere; false means nothing the CPU waits
    /// for is going to happen.
    fn wait(&mut self) -> (r: bool)
        default_ensures
            r == false,
    {
        false
    }
}

/// Processor status bits.
pub struct Flags;

impl Flags {
    pub const N: u8 = 0x80;
    pub const V: u8 = 0x40;
    pub const M: u8 = 0x20;
    pub const X: u8 = 0x10;
    pub const D: u8 = 0x08;
    pub const I: u8 = 0x04;
    pub const Z: u8 = 0x02;
    pub const C: u8 = 0x01;
}

#[derive(Debug, PartialEq, Eq)]
pub enum CpuError {
    Unsupported { opcode: u8, pb: u8, pc: u16 },
    Brk { pb: u8, pc: u16 },
    Cop { pb: u8, pc: u16 },
    Halted { pb: u8, pc: u16 },
    Waiting { pb: u8, pc: u16 },
    Sa1(Box<CpuError>),
    Limit { limit: u64, pb: u8, pc: u16 },
}

impl Clone for CpuError {
    fn clone(&self) -> (r: Self)
        ensures
            r == *self,
        decreases self,
    {
        match self {
            CpuError::Unsupported { opcode, pb, pc } => CpuError::Unsupported {
                opcode: *opcode,
                pb: *pb,
                pc: *pc,
            },
            CpuError::Brk { pb, pc } => CpuError::Brk { pb: *pb, pc: *pc },
            CpuError::Cop { pb, pc } => CpuError::Cop { pb: *pb, pc: *pc },
            CpuError::Halted { pb, pc } => CpuError::Halted { pb: *pb, pc: *pc },
            CpuError::Waiting { pb, pc } => CpuError::Waiting { pb: *pb, pc: *pc },
            CpuError::Sa1(inner) => CpuError::Sa1(Box::new((**inner).clone())),
            CpuError::Limit { limit, pb, pc } => CpuError::Limit { limit: *limit, pb: *pb, pc: *pc },
        }
    }
}

/// ` at $PB:PC`, the place an error names.
pub open spec fn place_text(pb: u8, pc: u16) -> Seq<char> {
    " at $"@ + hex_digits(pb as nat, 2) + ":"@ + hex_digits(pc as nat, 4)
}

fn push_place(s: &mut String, pb: u8, pc: u16)
    ensures
        final(s)@ == old(s)@ + place_text(pb, pc),
{
    push_str(s, " at $");
    push_hex(s, pb as u64, 2);
    push_str(s, ":");
    push_hex(s, pc as u64, 4);
}

impl CpuError {
    /// The error as a sentence, such as `BRK at $00:8000`.
    pub open spec fn text(self) -> Seq<char>
        decreases self,
    {
        match self {
            CpuError::Unsupported { opcode, pb, pc } => "unsupported opcode $"@ + hex_digits(
                opcode as nat,
                2,
            ) + place_text(pb, pc),
            CpuError::Brk { pb, pc } => "BRK"@ + place_text(pb, pc),
            CpuError::Cop { pb, pc } => "COP"@ + place_text(pb, pc),
            CpuError::Halted { pb, pc } => "CPU halted (STP)"@ + place_text(pb, pc),
            CpuError::Waiting { pb, pc } => "waiting"@ + place_text(pb, pc)
                + " for something that never happens"@,
            CpuError::Sa1(inner) => "on the SA-1: "@ + (*inner).text(),
            CpuError::Limit { limit, pb, pc } => "instruction limit of "@ + dec_digits(limit as nat)
                + " exceeded"@ + place_text(pb, pc),
        }
    }

    pub fn to_string(&self) -> (r: String)
        ensures
            r@ == self.text(),
        decreases self,
    {
        let mut s = String::new();
        match self {
            CpuError::Unsupported { opcode, pb, pc } => {
                push_str(&mut s, "unsupported opcode $");
                push_hex(&mut s, *opcode as u64, 2);
                push_place(&mut s, *pb, *pc);
            },
            CpuError::Brk { pb, pc } => {
                push_str(&mut s, "BRK");
                push_place(&mut s, *pb, *pc);
            },
            CpuError::Cop { pb, pc } => {
                push_str(&mut s, "COP");
                push_place(&mut s, *pb, *pc);
            },
            CpuError::Halted { pb, pc } => {
                push_str(&mut s, "CPU halted (STP)");
                push_place(&mut s, *pb, *pc);
            },
            CpuError::Waiting { pb, pc } => {
                push_str(&mut s, "waiting");
                push_place(&mut s, *pb, *pc);
                push_str(&mut s, " for something that never happens");
            },
            CpuError::Sa1(inner) => {
                push_str(&mut s, "on the SA-1: ");
                let inner_text = inner.to_string();
                push_str(&mut s, inner_text.as_str());
            },
            CpuError::Limit { limit, pb, pc } => {
                push_str(&mut s, "instruction limit of ");
                push_dec(&mut s, *limit);
                push_str(&mut s, " exceeded");
                push_place(&mut s, *pb, *pc);
            },
        }
        s
    }
}

/// How [`Cpu::run`] ended.
#[derive(Clone, Copy, PartialEq, Eq, Debug, Structural)]
pub enum Run {
    Done,
    /// Waiting for something the bus could not make happen.
    Waiting,
}

/// Everything a loop can change about the CPU, as it stood at a backward
/// jump. Two the same in a row mean the loop is polling memory for a
/// change that has to come from outside.
#[derive(Clone, Copy, PartialEq, Eq, Debug, Structural)]
struct LoopState {
    target: u32,
    a: u16,
    x: u16,
    y: u16,
    sp: u16,
    dp: u16,
    db: u8,
    p: u8,
    writes: u64,
}

/// One transaction between the CPU and its bus, as the CPU's record of
/// its traffic holds it.
#[derive(Clone, Copy, PartialEq, Eq, Debug, Structural)]
pub enum BusEvent {
    /// A byte read at a 24-bit address.
    Read(u32, u8),
    /// A byte written at a 24-bit address.
    Write(u32, u8),
    /// The IRQ line polled, and whether it was asserted.
    Irq(bool),
    /// An interrupt vector asked for, and the one the bus gave.
    Vector(u16),
    /// A wait handed to the bus, and whether anything got anywhere.
    Wait(bool),
}

#[derive(Clone)]
pub struct Cpu {
    pub a: u16,
    pub x: u16,
    pub y: u16,
    pub sp: u16,
    pub dp: u16,
    pub db: u8,
    pub pb: u8,
    pub pc: u16,
    pub p: u8,
    pub emulation: bool,
    /// Instructions executed so far.
    pub steps: u64,
    /// When set, every data read (not instruction fetch) is recorded as
    /// (address of the instruction, address read).
    pub trace_data_reads: Option<Vec<(u32, u32)>>,
    in_fetch: bool,
    op_addr: u32,
    /// Bytes written so far.
    writes: u64,
    last_loop: Option<LoopState>,
    /// The last instruction was `WAI`, or closed a loop that changes
    /// nothing.
    waiting: bool,
    /// Where the stack stands when the `RTS` of a routine entered by
    /// [`Cpu::enter_jsr`] has returned.
    return_sp: Option<u16>,
    /// Everything the CPU has handed to its bus and had back, in order.
    log: Ghost<Seq<BusEvent>>,
}

impl Default for Cpu {
    fn default() -> (r: Self)
        ensures
            r.is_fresh(0),
    {
        Self::new()
    }
}

/// Tag on an operand address whose second byte stays in the same bank
/// instead of carrying into the next: direct page and stack-relative
/// operands (bank 0), immediate operands, and the pointers of indexed
/// indirect jumps (the program bank). Bit 24 is outside the address bus;
/// the memory helpers strip it.
pub const WRAPS_IN_BANK: u32 = 0x100_0000;

/// Sentinel return address used by [`Cpu::call`].
pub const RETURN_PB: u8 = 0xFF;

pub const RETURN_PC: u16 = 0xFFFF;

/// A read-modify-write operation on a value of accumulator width.
#[derive(Clone, Copy, PartialEq, Eq, Debug, Structural)]
enum Rmw {
    Asl,
    Lsr,
    Rol,
    Ror,
    Inc,
    Dec,
}

impl Rmw {
    /// The opcode of the operation's accumulator form.
    spec fn opcode(self) -> u8 {
        match self {
            Rmw::Asl => 0x0A,
            Rmw::Lsr => 0x4A,
            Rmw::Rol => 0x2A,
            Rmw::Ror => 0x6A,
            Rmw::Inc => 0x1A,
            Rmw::Dec => 0x3A,
        }
    }
}

/// What stays the same across a memory access, an address computation or
/// a flag update: the mode, the width flags, the index registers and the
/// step count.
spec fn kept(a: Cpu, b: Cpu) -> bool {
    &&& same_mode(a, b)
    &&& a.x == b.x
    &&& a.y == b.y
    &&& a.steps == b.steps
}

/// The mode and the two width flags are the same.
spec fn same_mode(a: Cpu, b: Cpu) -> bool {
    &&& a.emulation == b.emulation
    &&& (a.p & 0x20 != 0) == (b.p & 0x20 != 0)
    &&& (a.p & 0x10 != 0) == (b.p & 0x10 != 0)
}

/// The stack pointer after one push: down one, within page 1 in
/// emulation mode.
/// Setting or clearing a flag other than `M` and `X` leaves the register
/// widths as they were.
proof fn lemma_other_flag(p: u8, f: u8)
    by (bit_vector)
    requires
        f == 1 || f == 2 || f == 4 || f == 8 || f == 0x40 || f == 0x80,
    ensures
        (p | f) & 0x20 == p & 0x20,
        (p | f) & 0x10 == p & 0x10,
        (p & !f) & 0x20 == p & 0x20,
        (p & !f) & 0x10 == p & 0x10,
{
}

/// Setting `M` and `X` makes both widths 8 bits; the status a fresh CPU
/// starts with has them set.
proof fn lemma_set_mx(p: u8)
    by (bit_vector)
    ensures
        (p | 0x20 | 0x10) & 0x20 != 0,
        (p | 0x20 | 0x10) & 0x10 != 0,
        p == 0x34 ==> p & 0x20 != 0 && p & 0x10 != 0,
{
}

/// `p` with flag `f` set or cleared.
pub open spec fn set_bit(p: u8, f: u8, on: bool) -> u8 {
    if on {
        p | f
    } else {
        p & !f
    }
}

/// The status after a result `v` of 8 or 16 bits: `Z` if it is zero, `N`
/// as its top bit.
pub open spec fn with_nz(p: u8, v: u16, width8: bool) -> u8 {
    if width8 {
        set_bit(set_bit(p, 2, v & 0xFF == 0), 0x80, v & 0x80 != 0)
    } else {
        set_bit(set_bit(p, 2, v == 0), 0x80, v & 0x8000 != 0)
    }
}

/// The place value of decimal digit `d` (0 the lowest) in a sum.
spec fn digit_unit(d: int) -> i32 {
    if d == 0 {
        1
    } else if d == 1 {
        0x10
    } else if d == 2 {
        0x100
    } else {
        0x1000
    }
}

/// The decimal adjustment of digit `d` of `sum`: after an addition a
/// digit past 9 gains 6, after a subtraction a digit that made no carry
/// loses 6.
spec fn bcd_correct(sum: int, d: int, subtract: bool) -> int {
    let u = digit_unit(d) as int;
    let digit_max = 0x10 * u - 1;
    if subtract && sum <= digit_max {
        sum - 6 * u
    } else if !subtract && sum > digit_max - 6 * u {
        sum + 6 * u
    } else {
        sum
    }
}

/// Digit `d` of `a` and `v` added, with the carry into it and the digits
/// below it as `sum` holds them.
spec fn bcd_raw(a: i32, v: i32, d: int, sum: i32, carry: i32) -> int {
    let u = digit_unit(d);
    (a & (0xF * u) as i32) + (v & (0xF * u) as i32) + carry * u + (sum & (u - 1) as i32)
}

/// The running sum and the carry once the digits below `d` have been
/// added and adjusted, `c0` the carry into the lowest.
spec fn bcd_before(a: i32, v: i32, c0: i32, subtract: bool, d: nat) -> (i32, i32)
    decreases d,
{
    if d == 0 {
        (0, c0)
    } else {
        let prev = bcd_before(a, v, c0, subtract, (d - 1) as nat);
        let r = bcd_correct(bcd_raw(a, v, d - 1, prev.0, prev.1), d - 1, subtract);
        (r as i32, if r > 0x10 * digit_unit(d - 1) - 1 {
            1
        } else {
            0
        })
    }
}

/// What `ADC` and `SBC` do to the registers from `c`: `v` is added to
/// the accumulator with the carry, in binary or, with `D` set, a decimal
/// digit at a time with the top digit adjusted last. `V` comes from the
/// sum before that last adjustment, `C` from the final sum, `N` and `Z`
/// from the new accumulator. For `SBC`, `v` is the inverted operand.
spec fn adc_effect(c: Cpu, v: u16, subtract: bool) -> Cpu {
    let m8 = acc8(c);
    let mask: u16 = if m8 { 0xFF } else { 0xFFFF };
    let sign: i32 = if m8 { 0x80 } else { 0x8000 };
    let digits: int = if m8 { 2 } else { 4 };
    let a = (c.a & mask) as i32;
    let w = (v & mask) as i32;
    let c0: i32 = if c.p & 1 != 0 { 1 } else { 0 };
    let decimal = c.p & 8 != 0;
    let top = bcd_before(a, w, c0, subtract, (digits - 1) as nat);
    let raw: int = if decimal {
        bcd_raw(a, w, digits - 1, top.0, top.1)
    } else {
        a + w + c0
    };
    let fin: int = if decimal {
        bcd_correct(raw, digits - 1, subtract)
    } else {
        raw
    };
    let p1 = set_bit(c.p, 0x40, !(a ^ w) & (a ^ (raw as i32)) & sign != 0);
    let p2 = set_bit(p1, 1, fin > mask);
    let na: u16 = (c.a & !mask) | ((fin as u16) & mask);
    Cpu { a: na, p: with_nz(p2, na, m8), ..c }
}

/// The accumulator after `v` is written at its width: in 8-bit mode only
/// the low byte changes.
spec fn acc_merge(c: Cpu, v: u16) -> u16 {
    if acc8(c) {
        (c.a & 0xFF00) | (v & 0xFF)
    } else {
        v
    }
}

/// The accumulator and memory are 8 bits wide.
spec fn acc8(c: Cpu) -> bool {
    c.emulation || c.p & 0x20 != 0
}

/// The index registers are 8 bits wide.
spec fn index8(c: Cpu) -> bool {
    c.emulation || c.p & 0x10 != 0
}

/// What the accumulator forms of `ASL` (`$0A`), `LSR` (`$4A`), `ROL`
/// (`$2A`), `ROR` (`$6A`), `INC` (`$1A`) and `DEC` (`$3A`) make of `v`
/// at the accumulator's width, `carry` going in.
pub open spec fn acc_result(op: u8, v: u16, m8: bool, carry: bool) -> u16 {
    let c: u16 = if carry {
        1
    } else {
        0
    };
    if op == 0x0A {
        if m8 {
            (v << 1u16) & 0xFF
        } else {
            v << 1u16
        }
    } else if op == 0x4A {
        (if m8 {
            v & 0xFF
        } else {
            v
        }) >> 1u16
    } else if op == 0x2A {
        if m8 {
            ((v << 1u16) | c) & 0xFF
        } else {
            (v << 1u16) | c
        }
    } else if op == 0x6A {
        if m8 {
            ((v & 0xFF) >> 1u16) | (c << 7u16)
        } else {
            (v >> 1u16) | (c << 15u16)
        }
    } else if op == 0x1A {
        if m8 {
            ((v + 1) % 0x1_0000) as u16 & 0xFF
        } else {
            ((v + 1) % 0x1_0000) as u16
        }
    } else {
        if m8 {
            ((v + 0xFFFF) % 0x1_0000) as u16 & 0xFF
        } else {
            ((v + 0xFFFF) % 0x1_0000) as u16
        }
    }
}

/// The status after one of those: the bit a shift or rotate moves out
/// goes to `C`, and `N` and `Z` follow the result.
pub open spec fn acc_status(op: u8, p: u8, v: u16, m8: bool) -> u8 {
    let r = acc_result(op, v, m8, p & 1 != 0);
    if op == 0x0A || op == 0x2A {
        with_nz(set_bit(p, 1, if m8 { v & 0x80 != 0 } else { v & 0x8000 != 0 }), r, m8)
    } else if op == 0x4A || op == 0x6A {
        with_nz(set_bit(p, 1, (if m8 { v & 0xFF } else { v }) & 1 != 0), r, m8)
    } else {
        with_nz(p, r, m8)
    }
}

/// What an instruction that works on the registers alone does when
/// executed from `c`, its opcode `op` already fetched: the flag changes,
/// the transfers between registers, the increments and decrements of an
/// index register, the accumulator forms of `ASL`, `LSR`, `ROL`, `ROR`,
/// `INC` and `DEC`, `XBA` and `NOP`. Other opcodes are not described
/// here.
spec fn register_effect(c: Cpu, op: u8, d: Cpu) -> bool {
    let m8 = acc8(c);
    let x8 = index8(c);
    let index = |v: u16| -> u16 {
            if x8 {
                v % 0x100
            } else {
                v
            }
    };
    let acc = |v: u16| -> u16 {
            if m8 {
                (c.a & 0xFF00) | (v & 0xFF)
            } else {
                v
            }
    };
    let stack = |v: u16| -> u16 {
            if c.emulation {
                0x0100u16 | (v & 0xFF)
            } else {
                v
            }
    };
    let flag = |f: u8, on: bool| d == (Cpu { p: set_bit(c.p, f, on), ..c });
    let to_x = |v: u16| d == (Cpu { x: index(v), p: with_nz(c.p, index(v), x8), ..c });
    let to_y = |v: u16| d == (Cpu { y: index(v), p: with_nz(c.p, index(v), x8), ..c });
    let to_a = |v: u16| d == (Cpu { a: acc(v), p: with_nz(c.p, acc(v), m8), ..c });
    if op == 0x18 {
        flag(1, false)
    } else if op == 0x38 {
        flag(1, true)
    } else if op == 0x58 {
        flag(4, false)
    } else if op == 0x78 {
        flag(4, true)
    } else if op == 0xD8 {
        flag(8, false)
    } else if op == 0xF8 {
        flag(8, true)
    } else if op == 0xB8 {
        flag(0x40, false)
    } else if op == 0xAA {
        to_x(c.a)
    } else if op == 0xA8 {
        to_y(c.a)
    } else if op == 0xBA {
        to_x(c.sp)
    } else if op == 0xBB {
        to_x(c.y)
    } else if op == 0x9B {
        to_y(c.x)
    } else if op == 0x8A {
        to_a(c.x)
    } else if op == 0x98 {
        to_a(c.y)
    } else if op == 0x9A {
        d == (Cpu { sp: stack(c.x), ..c })
    } else if op == 0x1B {
        d == (Cpu { sp: stack(c.a), ..c })
    } else if op == 0x5B {
        d == (Cpu { dp: c.a, p: with_nz(c.p, c.a, false), ..c })
    } else if op == 0x7B {
        d == (Cpu { a: c.dp, p: with_nz(c.p, c.dp, false), ..c })
    } else if op == 0x3B {
        d == (Cpu { a: c.sp, p: with_nz(c.p, c.sp, false), ..c })
    } else if op == 0xE8 {
        to_x(((c.x + 1) % 0x1_0000) as u16)
    } else if op == 0xC8 {
        to_y(((c.y + 1) % 0x1_0000) as u16)
    } else if op == 0xCA {
        to_x(((c.x + 0xFFFF) % 0x1_0000) as u16)
    } else if op == 0x88 {
        to_y(((c.y + 0xFFFF) % 0x1_0000) as u16)
    } else if op == 0x0A || op == 0x4A || op == 0x2A || op == 0x6A || op == 0x1A || op == 0x3A {
        let v = if m8 {
            c.a & 0xFF
        } else {
            c.a
        };
        let r = acc_result(op, v, m8, c.p & 1 != 0);
        d == (Cpu {
            a: if m8 {
                (c.a & 0xFF00) | (r & 0xFF)
            } else {
                r
            },
            p: acc_status(op, c.p, v, m8),
            ..c
        })
    } else if op == 0xEB {
        let a = (c.a >> 8u16) | (c.a << 8u16);
        d == (Cpu { a, p: with_nz(c.p, a, true), ..c })
    } else if op == 0xEA {
        d == c
    } else {
        true
    }
}

/// The status after comparing `reg` with `v` at the given width: `C` if
/// `reg` is not below `v`, `N` and `Z` from the difference.
spec fn compare_result(c: Cpu, reg: u16, v: u16, width8: bool) -> Cpu {
    let r: u16 = if width8 { reg & 0xFF } else { reg };
    let m: u16 = if width8 { v & 0xFF } else { v };
    Cpu { p: with_nz(set_bit(c.p, 1, r >= m), ((r - m + 0x1_0000) % 0x1_0000) as u16, width8), ..c }
}

/// The opcodes with an immediate operand: `ORA`, `AND`, `EOR`, `ADC`,
/// `BIT`, `LDA`, `CMP`, `SBC` at the accumulator's width, and `LDX`,
/// `LDY`, `CPX`, `CPY` at the index width.
pub open spec fn is_immediate(op: u8) -> bool {
    op == 0x09 || op == 0x29 || op == 0x49 || op == 0x69 || op == 0x89 || op == 0xA9 || op == 0xC9
        || op == 0xE9 || op == 0xA2 || op == 0xA0 || op == 0xE0 || op == 0xC0
}

/// The immediate operand of `op` is as wide as an index register.
spec fn imm_index(op: u8) -> bool {
    op == 0xA2 || op == 0xA0 || op == 0xE0 || op == 0xC0
}

/// What the immediate form of `op` does to the registers of `c` with the
/// operand `v`.
spec fn imm_result(c: Cpu, op: u8, v: u16) -> Cpu {
    let m8 = acc8(c);
    let x8 = index8(c);
    let logic = |r: u16| Cpu { a: acc_merge(c, r), p: with_nz(c.p, acc_merge(c, r), m8), ..c };
    if op == 0x09 {
        logic(c.a | v)
    } else if op == 0x29 {
        logic(c.a & v)
    } else if op == 0x49 {
        logic(c.a ^ v)
    } else if op == 0x69 {
        adc_effect(c, v, false)
    } else if op == 0xE9 {
        adc_effect(c, !v, true)
    } else if op == 0xA9 {
        logic(v)
    } else if op == 0xC9 {
        compare_result(c, c.a, v, m8)
    } else if op == 0xE0 {
        compare_result(c, c.x, v, x8)
    } else if op == 0xC0 {
        compare_result(c, c.y, v, x8)
    } else if op == 0xA2 {
        let x = if x8 { v % 0x100 } else { v };
        Cpu { x, p: with_nz(c.p, x, x8), ..c }
    } else if op == 0xA0 {
        let y = if x8 { v % 0x100 } else { v };
        Cpu { y, p: with_nz(c.p, y, x8), ..c }
    } else {
        Cpu { p: set_bit(c.p, 2, v & (if m8 { c.a & 0xFF } else { c.a }) == 0), ..c }
    }
}

/// `d` is `c` after the immediate instruction `op`, fetched, with the
/// operand `v`, read as one or two bytes at the program counter: the
/// program counter moves past it and the registers change as
/// [`imm_result`] says.
spec fn imm_with(c: Cpu, op: u8, d: Cpu, v: u16) -> bool {
    let w8 = if imm_index(op) { index8(c) } else { acc8(c) };
    let addr = (c.spec_pc_addr() + WRAPS_IN_BANK) as u32;
    let c1 = Cpu { pc: add16(c.pc, if w8 { 1int } else { 2int }), ..c };
    &&& w8 ==> v < 0x100
    &&& logged(c, d, value_reads(addr, v, w8))
    &&& traced(
        imm_result(c1, op, v),
        d,
        data_reads(c, if w8 { seq![addr & 0xFF_FFFF] } else { seq![addr & 0xFF_FFFF, spec_next_addr(addr) & 0xFF_FFFF] }),
    )
}

/// `d` is `c` after the immediate instruction `op`, for the operand the
/// bus gave.
spec fn imm_effect(c: Cpu, op: u8, d: Cpu) -> bool {
    exists|v: u16| #[trigger] imm_with(c, op, d, v)
}

/// The reads that pull a word `v` off the stack at `sp`: low byte, then
/// high.
spec fn pull_reads(sp: u16, emulation: bool, v: u16) -> Seq<BusEvent> {
    let sp1 = sp_after_pull(sp, emulation);
    let sp2 = sp_after_pull(sp1, emulation);
    seq![BusEvent::Read((sp1 as u32) & 0xFF_FFFF, v as u8), BusEvent::Read((sp2 as u32) & 0xFF_FFFF, (v >> 8u16) as u8)]
}

/// `c` with the status `p` set: in emulation mode `M` and `X` stay set,
/// and with 8-bit index registers their high bytes are cleared.
spec fn status_set(c: Cpu, p: u8) -> Cpu {
    let q = if c.emulation { (p | 0x20u8) | 0x10u8 } else { p };
    let x8 = c.emulation || q & 0x10 != 0;
    Cpu {
        p: q,
        x: if x8 { c.x % 0x100 } else { c.x },
        y: if x8 { c.y % 0x100 } else { c.y },
        ..c
    }
}

/// The branch opcodes, and `BRA`.
pub open spec fn is_branch(op: u8) -> bool {
    op == 0x10 || op == 0x30 || op == 0x50 || op == 0x70 || op == 0x80 || op == 0x90 || op == 0xB0
        || op == 0xD0 || op == 0xF0
}

/// Whether the branch `op` is taken with the status `p`.
pub open spec fn branch_cond(op: u8, p: u8) -> bool {
    if op == 0x10 {
        p & 0x80 == 0
    } else if op == 0x30 {
        p & 0x80 != 0
    } else if op == 0x50 {
        p & 0x40 == 0
    } else if op == 0x70 {
        p & 0x40 != 0
    } else if op == 0x90 {
        p & 1 == 0
    } else if op == 0xB0 {
        p & 1 != 0
    } else if op == 0xD0 {
        p & 2 == 0
    } else if op == 0xF0 {
        p & 2 != 0
    } else {
        true
    }
}

/// The accesses to memory with an absolute, absolute indexed, direct
/// page, direct page indexed, long or long indexed address: loads and stores of `A`, `X`,
/// `Y` (and `STZ`), `ORA`, `AND`, `EOR`, `ADC`, `CMP`, `SBC`, `CPX`,
/// `CPY`, and `ASL`, `LSR`, `ROL`, `ROR`, `INC`, `DEC`.
pub open spec fn is_access(op: u8) -> bool {
    op == 0xAD || op == 0xAE || op == 0xAC || op == 0x8D || op == 0x8E || op == 0x8C || op == 0x9C || op == 0x0D || op == 0x2D || op == 0x4D || op == 0x6D || op == 0xCD || op == 0xED || op == 0xEC || op == 0xCC || op == 0x0E || op == 0x4E || op == 0x2E || op == 0x6E || op == 0xEE || op == 0xCE || op == 0xBD || op == 0xBC || op == 0x9D || op == 0x9E || op == 0x1D || op == 0x3D || op == 0x5D || op == 0x7D || op == 0xDD || op == 0xFD || op == 0x1E || op == 0x5E || op == 0x3E || op == 0x7E || op == 0xFE || op == 0xDE || op == 0xB9 || op == 0xBE || op == 0x99 || op == 0x19 || op == 0x39 || op == 0x59 || op == 0x79 || op == 0xD9 || op == 0xF9 || op == 0xA5 || op == 0xA6 || op == 0xA4 || op == 0x85 || op == 0x86 || op == 0x84 || op == 0x64 || op == 0x05 || op == 0x25 || op == 0x45 || op == 0x65 || op == 0xC5 || op == 0xE5 || op == 0xE4 || op == 0xC4 || op == 0x06 || op == 0x46 || op == 0x26 || op == 0x66 || op == 0xE6 || op == 0xC6 || op == 0xB5 || op == 0xB4 || op == 0x95 || op == 0x94 || op == 0x74 || op == 0x15 || op == 0x35 || op == 0x55 || op == 0x75 || op == 0xD5 || op == 0xF5 || op == 0x16 || op == 0x56 || op == 0x36 || op == 0x76 || op == 0xF6 || op == 0xD6 || op == 0xB6 || op == 0x96 || op == 0xAF || op == 0x8F || op == 0x0F || op == 0x2F || op == 0x4F || op == 0x6F || op == 0xCF || op == 0xEF || op == 0xBF || op == 0x9F || op == 0x1F || op == 0x3F || op == 0x5F || op == 0x7F || op == 0xDF || op == 0xFF
}

/// The addressing mode of such an access: 0 absolute, 1 absolute,X,
/// 2 absolute,Y, 3 direct page, 4 direct page,X, 5 direct page,Y,
/// 6 absolute long, 7 absolute long,X.
pub open spec fn access_mode(op: u8) -> int {
    if op == 0xAD || op == 0xAE || op == 0xAC || op == 0x8D || op == 0x8E || op == 0x8C || op == 0x9C || op == 0x0D || op == 0x2D || op == 0x4D || op == 0x6D || op == 0xCD || op == 0xED || op == 0xEC || op == 0xCC || op == 0x0E || op == 0x4E || op == 0x2E || op == 0x6E || op == 0xEE || op == 0xCE {
        0
    } else if op == 0xBD || op == 0xBC || op == 0x9D || op == 0x9E || op == 0x1D || op == 0x3D || op == 0x5D || op == 0x7D || op == 0xDD || op == 0xFD || op == 0x1E || op == 0x5E || op == 0x3E || op == 0x7E || op == 0xFE || op == 0xDE {
        1
    } else if op == 0xB9 || op == 0xBE || op == 0x99 || op == 0x19 || op == 0x39 || op == 0x59 || op == 0x79 || op == 0xD9 || op == 0xF9 {
        2
    } else if op == 0xA5 || op == 0xA6 || op == 0xA4 || op == 0x85 || op == 0x86 || op == 0x84 || op == 0x64 || op == 0x05 || op == 0x25 || op == 0x45 || op == 0x65 || op == 0xC5 || op == 0xE5 || op == 0xE4 || op == 0xC4 || op == 0x06 || op == 0x46 || op == 0x26 || op == 0x66 || op == 0xE6 || op == 0xC6 {
        3
    } else if op == 0xB5 || op == 0xB4 || op == 0x95 || op == 0x94 || op == 0x74 || op == 0x15 || op == 0x35 || op == 0x55 || op == 0x75 || op == 0xD5 || op == 0xF5 || op == 0x16 || op == 0x56 || op == 0x36 || op == 0x76 || op == 0xF6 || op == 0xD6 {
        4
    } else if op == 0xB6 || op == 0x96 {
        5
    } else if op == 0xAF || op == 0x8F || op == 0x0F || op == 0x2F || op == 0x4F || op == 0x6F || op == 0xCF || op == 0xEF {
        6
    } else {
        7
    }
}

/// The operand bytes of an addressing mode.
pub open spec fn operand_len(mode: int) -> int {
    if mode < 3 {
        2
    } else if mode >= 6 {
        3
    } else {
        1
    }
}

/// The address an operand `b` names in `mode` from `c`: in the data
/// bank, or in bank 0 offset from the direct page (wrapping within it),
/// indexed by `X` or `Y` where the mode says.
spec fn access_addr(c: Cpu, mode: int, b: Seq<u8>) -> u32 {
    if mode < 3 {
        let i: int = if mode == 1 { c.x as int } else if mode == 2 { c.y as int } else { 0 };
        ((c.db * 0x1_0000 + b[0] + b[1] * 0x100 + i) % 0x100_0000) as u32
    } else if mode >= 6 {
        let i: int = if mode == 7 { c.x as int } else { 0 };
        ((b[0] + b[1] * 0x100 + b[2] * 0x1_0000 + i) % 0x100_0000) as u32
    } else {
        let i: int = if mode == 4 { c.x as int } else if mode == 5 { c.y as int } else { 0 };
        (add16(add16(c.dp, b[0] as int), i) + WRAPS_IN_BANK) as u32
    }
}

/// The shifts, rotates, increments and decrements among those.
pub open spec fn is_rmw_access(op: u8) -> bool {
    op == 0x0E || op == 0x06 || op == 0x1E || op == 0x16 || op == 0x4E || op == 0x46 || op == 0x5E || op == 0x56 || op == 0x2E || op == 0x26 || op == 0x3E || op == 0x36 || op == 0x6E || op == 0x66 || op == 0x7E || op == 0x76 || op == 0xEE || op == 0xE6 || op == 0xFE || op == 0xF6 || op == 0xCE || op == 0xC6 || op == 0xDE || op == 0xD6
}

/// The accumulator form of a shift, rotate, increment or decrement on
/// memory.
spec fn rmw_of(op: u8) -> u8 {
    if op == 0x0E || op == 0x06 || op == 0x1E || op == 0x16 {
        0x0A
    } else if op == 0x4E || op == 0x46 || op == 0x5E || op == 0x56 {
        0x4A
    } else if op == 0x2E || op == 0x26 || op == 0x3E || op == 0x36 {
        0x2A
    } else if op == 0x6E || op == 0x66 || op == 0x7E || op == 0x76 {
        0x6A
    } else if op == 0xEE || op == 0xE6 || op == 0xFE || op == 0xF6 {
        0x1A
    } else {
        0x3A
    }
}

/// The immediate form of a load, logical or arithmetic operation or
/// comparison with a memory operand: the same operation, on the value
/// read.
spec fn imm_of(op: u8) -> u8 {
    if op == 0x0D || op == 0x05 || op == 0x1D || op == 0x19 || op == 0x15 || op == 0x0F || op == 0x1F {
        0x09
    } else if op == 0x2D || op == 0x25 || op == 0x3D || op == 0x39 || op == 0x35 || op == 0x2F || op == 0x3F {
        0x29
    } else if op == 0x4D || op == 0x45 || op == 0x5D || op == 0x59 || op == 0x55 || op == 0x4F || op == 0x5F {
        0x49
    } else if op == 0x6D || op == 0x65 || op == 0x7D || op == 0x79 || op == 0x75 || op == 0x6F || op == 0x7F {
        0x69
    } else if op == 0xCD || op == 0xC5 || op == 0xDD || op == 0xD9 || op == 0xD5 || op == 0xCF || op == 0xDF {
        0xC9
    } else if op == 0xED || op == 0xE5 || op == 0xFD || op == 0xF9 || op == 0xF5 || op == 0xEF || op == 0xFF {
        0xE9
    } else if op == 0xEC || op == 0xE4 {
        0xE0
    } else if op == 0xCC || op == 0xC4 {
        0xC0
    } else if op == 0xAD || op == 0xA5 || op == 0xBD || op == 0xB9 || op == 0xB5 || op == 0xAF || op == 0xBF {
        0xA9
    } else if op == 0xAE || op == 0xA6 || op == 0xBE || op == 0xB6 {
        0xA2
    } else {
        0xA0
    }
}

/// The opcodes whose memory traffic and effect [`mem_effect`] states:
/// the branches, `REP`, `SEP`, the accesses to memory above (loads,
/// stores, logical and arithmetic operations, comparisons, shifts,
/// rotates, increments and decrements with an absolute or direct page
/// address), `JSR`, `RTS` and `RTL`.
pub open spec fn is_memory_op(op: u8) -> bool {
    is_branch(op) || op == 0xC2 || op == 0xE2 || is_access(op) || op == 0x20 || op == 0x60 || op == 0x6B
        || is_stack_op(op)
}

/// A store among those.
spec fn is_store(op: u8) -> bool {
    op == 0x8D || op == 0x8E || op == 0x8C || op == 0x9C || op == 0x85 || op == 0x86 || op == 0x84 || op == 0x64 || op == 0x9D || op == 0x99 || op == 0x95 || op == 0x9E || op == 0x74 || op == 0x96 || op == 0x94 || op == 0x8F || op == 0x9F
}

/// The access is as wide as an index register.
spec fn index_access(op: u8) -> bool {
    op == 0xAE || op == 0xAC || op == 0x8E || op == 0x8C || op == 0xA6 || op == 0xA4 || op == 0x86 || op == 0x84 || op == 0xEC || op == 0xCC || op == 0xE4 || op == 0xC4 || op == 0xBE || op == 0xB6 || op == 0xBC || op == 0xB4 || op == 0x96 || op == 0x94
}

/// The value a store writes.
spec fn store_value(c: Cpu, op: u8) -> u16 {
    if op == 0x8D || op == 0x85 || op == 0x9D || op == 0x99 || op == 0x95 || op == 0x8F || op == 0x9F {
        c.a
    } else if op == 0x8E || op == 0x86 || op == 0x96 {
        c.x
    } else if op == 0x8C || op == 0x84 || op == 0x94 {
        c.y
    } else {
        0
    }
}

/// `d` is `c` after the access `op` to memory, its operand bytes
/// `operand` naming `addr`: a store writes the register (or zero) there,
/// one byte or two by width; a shift, rotate, increment or decrement
/// reads `v` there and writes back what its accumulator form would make
/// of it; any other reads `v` there and does what its immediate form does
/// with it.
spec fn access_with(c: Cpu, op: u8, d: Cpu, operand: Seq<u8>, addr: u32, v: u16) -> bool {
    let w8 = if index_access(op) { index8(c) } else { acc8(c) };
    let c1 = past_operand(c, operand.len() as int);
    let fetched = fetch_reads(c, operand);
    if is_store(op) {
        &&& logged(c, d, fetched + value_writes(addr, store_value(c, op), w8))
        &&& traced(
            Cpu { writes: ((c.writes + if w8 { 1int } else { 2int }) % 0x1_0000_0000_0000_0000) as u64, ..c1 },
            d,
            Seq::empty(),
        )
    } else if is_rmw_access(op) {
        &&& logged(c, d, fetched + (value_reads(addr, v, w8) + value_writes(addr, acc_result(rmw_of(op), v, w8, c.p & 1 != 0), w8)))
        &&& traced(
            Cpu {
                p: acc_status(rmw_of(op), c.p, v, w8),
                writes: ((c.writes + if w8 { 1int } else { 2int }) % 0x1_0000_0000_0000_0000) as u64,
                ..c1
            },
            d,
            data_reads(c1, if w8 { seq![addr & 0xFF_FFFF] } else { seq![addr & 0xFF_FFFF, spec_next_addr(addr) & 0xFF_FFFF] }),
        )
    } else {
        &&& w8 ==> v < 0x100
        &&& logged(c, d, fetched + value_reads(addr, v, w8))
        &&& traced(
            imm_result(c1, imm_of(op), v),
            d,
            data_reads(c1, if w8 { seq![addr & 0xFF_FFFF] } else { seq![addr & 0xFF_FFFF, spec_next_addr(addr) & 0xFF_FFFF] }),
        )
    }
}

/// `d` is `c` after `JSR` to `w`: the return address (the operand's last
/// byte) pushed, high byte first, and the program counter at `w`.
spec fn jsr_with(c: Cpu, d: Cpu, w: u16) -> bool {
    let ret = add16(c.pc, 1);
    &&& logged(c, d, fetch_reads(c, word_bytes(w)) + push_writes(c.sp, c.emulation, seq![(ret >> 8u16) as u8, ret as u8]))
    &&& traced(
        Cpu {
            pc: w,
            sp: sp_after_pushes(c.sp, c.emulation, 2),
            writes: ((c.writes + 2) % 0x1_0000_0000_0000_0000) as u64,
            in_fetch: false,
            ..c
        },
        d,
        Seq::empty(),
    )
}

/// `d` is `c` after `RTS` pulled `v`: the program counter one past it.
spec fn rts_with(c: Cpu, d: Cpu, v: u16) -> bool {
    let sp1 = sp_after_pull(c.sp, c.emulation);
    let sp2 = sp_after_pull(sp1, c.emulation);
    &&& logged(c, d, pull_reads(c.sp, c.emulation, v))
    &&& traced(Cpu { pc: add16(v, 1), sp: sp2, ..c }, d, data_reads(c, seq![(sp1 as u32) & 0xFF_FFFF, (sp2 as u32) & 0xFF_FFFF]))
}

/// `d` is `c` after `RTL` pulled `v` and then the bank `b`.
spec fn rtl_with(c: Cpu, d: Cpu, v: u16, b: u8) -> bool {
    let sp1 = sp_after_pull(c.sp, c.emulation);
    let sp2 = sp_after_pull(sp1, c.emulation);
    let sp3 = sp_after_pull(sp2, c.emulation);
    &&& logged(c, d, pull_reads(c.sp, c.emulation, v) + seq![BusEvent::Read((sp3 as u32) & 0xFF_FFFF, b)])
    &&& traced(
        Cpu { pc: add16(v, 1), pb: b, sp: sp3, ..c },
        d,
        data_reads(c, seq![(sp1 as u32) & 0xFF_FFFF, (sp2 as u32) & 0xFF_FFFF, (sp3 as u32) & 0xFF_FFFF]),
    )
}

/// `d` is `c` after `REP` (`op` `$C2`) or `SEP` with the operand `m`.
spec fn status_with(c: Cpu, op: u8, d: Cpu, m: u8) -> bool {
    &&& logged(c, d, fetch_reads(c, seq![m]))
    &&& traced(status_set(past_operand(c, 1), if op == 0xC2 { c.p & !m } else { c.p | m }), d, Seq::empty())
}

/// `d` is `c` after the branch `op` with the displacement `rel`.
spec fn branch_with(c: Cpu, op: u8, d: Cpu, rel: u8) -> bool {
    &&& logged(c, d, fetch_reads(c, seq![rel]))
    &&& traced(branch_target(c, branch_cond(op, c.p), rel), d, Seq::empty())
}

/// `PHA`, `PLA`, `PHP`, `PLP` and `JMP` with an absolute address.
pub open spec fn is_stack_op(op: u8) -> bool {
    op == 0x48 || op == 0x68 || op == 0x08 || op == 0x28 || op == 0x4C
}

/// `d` is `c` after `PHA` or `PHP` (`op` `$08`): the accumulator, at its
/// width, or the status pushed.
spec fn push_reg_with(c: Cpu, op: u8, d: Cpu) -> bool {
    let bytes: Seq<u8> = if op == 0x08 {
        seq![c.p]
    } else if acc8(c) {
        seq![c.a as u8]
    } else {
        seq![(c.a >> 8u16) as u8, c.a as u8]
    };
    &&& logged(c, d, push_writes(c.sp, c.emulation, bytes))
    &&& d == Cpu {
        sp: sp_after_pushes(c.sp, c.emulation, bytes.len()),
        writes: ((c.writes + bytes.len()) % 0x1_0000_0000_0000_0000) as u64,
        log: d.log,
        ..c
    }
}

/// `d` is `c` after `PLA` pulled `v`, one byte or two by width.
spec fn pla_with(c: Cpu, d: Cpu, v: u16) -> bool {
    let m8 = acc8(c);
    let sp1 = sp_after_pull(c.sp, c.emulation);
    let sp2 = sp_after_pull(sp1, c.emulation);
    &&& m8 ==> v < 0x100
    &&& logged(c, d, if m8 { seq![BusEvent::Read((sp1 as u32) & 0xFF_FFFF, v as u8)] } else { pull_reads(c.sp, c.emulation, v) })
    &&& traced(
        Cpu { a: acc_merge(c, v), p: with_nz(c.p, acc_merge(c, v), m8), sp: if m8 { sp1 } else { sp2 }, ..c },
        d,
        data_reads(c, if m8 { seq![(sp1 as u32) & 0xFF_FFFF] } else { seq![(sp1 as u32) & 0xFF_FFFF, (sp2 as u32) & 0xFF_FFFF] }),
    )
}

/// `d` is `c` after `PLP` pulled the status `b`.
spec fn plp_with(c: Cpu, d: Cpu, b: u8) -> bool {
    let sp1 = sp_after_pull(c.sp, c.emulation);
    &&& logged(c, d, seq![BusEvent::Read((sp1 as u32) & 0xFF_FFFF, b)])
    &&& traced(status_set(Cpu { sp: sp1, ..c }, b), d, data_reads(c, seq![(sp1 as u32) & 0xFF_FFFF]))
}

/// `d` is `c` after `JMP` to `w`: a jump back to or before the
/// instruction itself is noted as a loop.
spec fn jmp_with(c: Cpu, d: Cpu, w: u16) -> bool {
    let t = Cpu { pc: w, in_fetch: false, ..c };
    &&& logged(c, d, fetch_reads(c, word_bytes(w)))
    &&& traced(if w <= add16(c.pc, -1) { noted(t) } else { t }, d, Seq::empty())
}

/// What the instructions [`is_memory_op`] names do, fetched: for the
/// bytes the bus gave, the bus traffic they make and the registers after.
#[verifier::opaque]
spec fn mem_effect(c: Cpu, op: u8, d: Cpu) -> bool {
    if is_branch(op) {
        exists|rel: u8| #[trigger] branch_with(c, op, d, rel)
    } else if op == 0xC2 || op == 0xE2 {
        exists|m: u8| #[trigger] status_with(c, op, d, m)
    } else if is_access(op) {
        exists|b: Seq<u8>, v: u16|
            #[trigger] access_with(c, op, d, b, access_addr(c, access_mode(op), b), v) && b.len() == operand_len(access_mode(op))
    } else if op == 0x20 {
        exists|w: u16| #[trigger] jsr_with(c, d, w)
    } else if op == 0x60 {
        exists|v: u16| #[trigger] rts_with(c, d, v)
    } else if op == 0x6B {
        exists|v: u16, b: u8| #[trigger] rtl_with(c, d, v, b)
    } else if op == 0x48 || op == 0x08 {
        push_reg_with(c, op, d)
    } else if op == 0x68 {
        exists|v: u16| #[trigger] pla_with(c, d, v)
    } else if op == 0x28 {
        exists|b: u8| #[trigger] plp_with(c, d, b)
    } else if op == 0x4C {
        exists|w: u16| #[trigger] jmp_with(c, d, w)
    } else {
        true
    }
}

/// The instruction `op`, fetched from `pb:pc`, took `c` to `d` with the
/// result `r`: `BRK`, `COP` and `STP` stop with their error naming that
/// address and change nothing more; every other instruction succeeds; the
/// register-only instructions and the immediate ones change the
/// registers as [`register_effect`] and [`imm_effect`] say.
spec fn executes(pb: u8, pc: u16, c: Cpu, op: u8, d: Cpu, r: Result<(), CpuError>) -> bool {
    &&& op == 0x00 ==> r == Err::<(), CpuError>(CpuError::Brk { pb, pc }) && d == c
    &&& op == 0x02 ==> r == Err::<(), CpuError>(CpuError::Cop { pb, pc }) && d == c
    &&& op == 0xDB ==> r == Err::<(), CpuError>(CpuError::Halted { pb, pc }) && d == c
    &&& !(op == 0x00 || op == 0x02 || op == 0xDB) ==> r is Ok
    &&& register_effect(c, op, d)
    &&& is_immediate(op) ==> imm_effect(c, op, d)
    &&& is_memory_op(op) ==> mem_effect(c, op, d)
}

/// `u` is the read trace `t` extended by `more`, where a trace is kept.
spec fn trace_ext(t: Option<Vec<(u32, u32)>>, u: Option<Vec<(u32, u32)>>, more: Seq<(u32, u32)>) -> bool {
    match (t, u) {
        (None, None) => true,
        (Some(t), Some(u)) => u@ == t@ + more,
        _ => false,
    }
}

/// `d` is `c` with its read trace, where it keeps one, extended by
/// `more`, and nothing else changed.
spec fn traced(c: Cpu, d: Cpu, more: Seq<(u32, u32)>) -> bool {
    &&& d == (Cpu { trace_data_reads: d.trace_data_reads, log: d.log, ..c })
    &&& trace_ext(c.trace_data_reads, d.trace_data_reads, more)
    &&& grows(c, d)
}

/// `d`'s record of bus traffic is `c`'s with more after it.
spec fn grows(c: Cpu, d: Cpu) -> bool {
    c.log@.len() <= d.log@.len() && d.log@.subrange(0, c.log@.len() as int) =~= c.log@
}

/// `d`'s record of bus traffic is `c`'s followed by `events`.
spec fn logged(c: Cpu, d: Cpu, events: Seq<BusEvent>) -> bool {
    d.log@ =~= c.log@ + events
}

/// The reads that fetch `bytes` from `c`'s program counter on.
spec fn fetch_reads(c: Cpu, bytes: Seq<u8>) -> Seq<BusEvent> {
    Seq::new(bytes.len(), |k: int| BusEvent::Read(past_operand(c, k).spec_pc_addr() & 0xFF_FFFF, bytes[k]))
}

/// The bytes of `w`, low first.
spec fn word_bytes(w: u16) -> Seq<u8> {
    seq![w as u8, (w >> 8u16) as u8]
}

/// The stack pointer after `k` pushes from `sp`.
pub open spec fn sp_after_pushes(sp: u16, emulation: bool, k: nat) -> u16
    decreases k,
{
    if k == 0 {
        sp
    } else {
        sp_after_push(sp_after_pushes(sp, emulation, (k - 1) as nat), emulation)
    }
}

/// The writes that push `bytes`, one after the other, onto the stack at
/// `sp`.
pub open spec fn push_writes(sp: u16, emulation: bool, bytes: Seq<u8>) -> Seq<BusEvent> {
    Seq::new(
        bytes.len(),
        |k: int| BusEvent::Write((sp_after_pushes(sp, emulation, k as nat) as u32) & 0xFF_FFFF, bytes[k]),
    )
}

/// `n` pushes and then `k` more are `n + k` pushes.
proof fn lemma_pushes_add(sp: u16, emulation: bool, n: nat, k: nat)
    ensures
        sp_after_pushes(sp, emulation, n + k) == sp_after_pushes(sp_after_pushes(sp, emulation, n), emulation, k),
    decreases k,
{
    if k > 0 {
        lemma_pushes_add(sp, emulation, n, (k - 1) as nat);
    }
}

/// Pushing `a` and then `b` writes what pushing them one after the other
/// does.
proof fn lemma_push_writes_add(sp: u16, emulation: bool, a: Seq<u8>, b: Seq<u8>)
    ensures
        push_writes(sp, emulation, a + b) =~= push_writes(sp, emulation, a) + push_writes(
            sp_after_pushes(sp, emulation, a.len()),
            emulation,
            b,
        ),
{
    assert forall|k: int| a.len() <= k < a.len() + b.len() implies #[trigger] (a + b)[k] == b[k - a.len()]
        && sp_after_pushes(sp, emulation, k as nat) == sp_after_pushes(sp_after_pushes(sp, emulation, a.len()), emulation, (k - a.len()) as nat) by {
        lemma_pushes_add(sp, emulation, a.len(), (k - a.len()) as nat);
    }
}

/// The reads of a value `v` at `addr`, one byte or two, low first.
spec fn value_reads(addr: u32, v: u16, width8: bool) -> Seq<BusEvent> {
    if width8 {
        seq![BusEvent::Read(addr & 0xFF_FFFF, v as u8)]
    } else {
        seq![BusEvent::Read(addr & 0xFF_FFFF, v as u8), BusEvent::Read(spec_next_addr(addr) & 0xFF_FFFF, (v >> 8u16) as u8)]
    }
}

/// The writes of a value `v` at `addr`, one byte or two, low first.
spec fn value_writes(addr: u32, v: u16, width8: bool) -> Seq<BusEvent> {
    if width8 {
        seq![BusEvent::Write(addr & 0xFF_FFFF, v as u8)]
    } else {
        seq![BusEvent::Write(addr & 0xFF_FFFF, v as u8), BusEvent::Write(spec_next_addr(addr) & 0xFF_FFFF, (v >> 8u16) as u8)]
    }
}

/// The low and high bytes of `lo | hi << 8` are `lo` and `hi`.
proof fn lemma_bytes(lo: u16, hi: u16)
    by (bit_vector)
    requires
        lo < 0x100,
        hi < 0x100,
    ensures
        (lo | (hi << 8u16)) as u8 == lo as u8,
        ((lo | (hi << 8u16)) >> 8u16) as u8 == hi as u8,
{
}

/// Extending a trace twice extends it by both.
proof fn lemma_trace_trans(
    t: Option<Vec<(u32, u32)>>,
    u: Option<Vec<(u32, u32)>>,
    w: Option<Vec<(u32, u32)>>,
    a: Seq<(u32, u32)>,
    b: Seq<(u32, u32)>,
)
    requires
        trace_ext(t, u, a),
        trace_ext(u, w, b),
    ensures
        trace_ext(t, w, a + b),
{
    match (t, u, w) {
        (Some(t), Some(u), Some(w)) => {
            assert(w@ =~= t@ + (a + b));
        },
        _ => {},
    }
}

/// Reads at `addrs` for the instruction `c` is executing, as its trace
/// records them.
spec fn reads_by(c: Cpu, addrs: Seq<u32>) -> Seq<(u32, u32)> {
    addrs.map_values(|a: u32| (c.op_addr, a))
}

/// The stack pointer after one pull: up one, within page 1 in emulation
/// mode.
spec fn sp_after_pull(sp: u16, emulation: bool) -> u16 {
    if emulation {
        0x0100u16 | (add16(sp, 1) & 0xFFu16)
    } else {
        add16(sp, 1)
    }
}

/// Where a loop stands at a backward jump from `c`.
spec fn loop_state(c: Cpu) -> LoopState {
    LoopState {
        target: c.spec_pc_addr(),
        a: c.a,
        x: c.x,
        y: c.y,
        sp: c.sp,
        dp: c.dp,
        db: c.db,
        p: c.p,
        writes: c.writes,
    }
}

/// `c` after a backward jump is noted: it waits when the loop stands as
/// it stood at the last such jump, which it then remembers.
spec fn noted(c: Cpu) -> Cpu {
    Cpu { waiting: c.last_loop == Some(loop_state(c)), last_loop: Some(loop_state(c)), ..c }
}

/// `c` after a relative branch whose displacement byte is `rel`: past
/// the operand, then, where `cond` holds, moved by `rel` as a signed
/// byte, a backward move noted as a loop.
spec fn branch_target(c: Cpu, cond: bool, rel: u8) -> Cpu {
    let c1 = past_operand(c, 1);
    if !cond {
        c1
    } else {
        let c2 = Cpu { pc: add16(c1.pc, if rel < 0x80 { rel as int } else { rel - 0x100 }), ..c1 };
        if rel >= 0x80 {
            noted(c2)
        } else {
            c2
        }
    }
}

/// `c` with its program counter `n` bytes on, past an instruction's
/// operand.
spec fn past_operand(c: Cpu, n: int) -> Cpu {
    Cpu { pc: add16(c.pc, n), in_fetch: false, ..c }
}

/// What data reads at `addrs` add to `c`'s read trace: each with the
/// instruction's address, and nothing while an instruction is fetched.
spec fn data_reads(c: Cpu, addrs: Seq<u32>) -> Seq<(u32, u32)> {
    if c.in_fetch {
        Seq::empty()
    } else {
        addrs.map_values(|a: u32| (c.op_addr, a))
    }
}

/// The address after `addr`: within its bank where it is tagged
/// [`WRAPS_IN_BANK`], else the next.
spec fn spec_next_addr(addr: u32) -> u32 {
    if addr & WRAPS_IN_BANK != 0 {
        (addr & !0xFFFFu32) | (((addr + 1) % 0x1_0000_0000) as u32 & 0xFFFF)
    } else {
        ((addr + 1) % 0x1_0000_0000) as u32
    }
}

/// `v` plus `n` in 16 bits.
spec fn add16(v: u16, n: int) -> u16 {
    ((v + n) % 0x1_0000) as u16
}

/// Two data reads one after the other trace as the reads together.
proof fn lemma_traced_chain(c: Cpu, m: Cpu, d: Cpu, first: Seq<u32>, then: Seq<u32>)
    requires
        traced(c, m, data_reads(c, first)),
        traced(m, d, data_reads(m, then)),
    ensures
        traced(c, d, data_reads(c, first + then)),
{
    if !c.in_fetch {
        assert(data_reads(c, first + then) =~= data_reads(c, first) + data_reads(c, then));
    } else {
        assert(data_reads(c, first + then) =~= data_reads(c, first) + data_reads(c, then));
    }
    lemma_trace_trans(c.trace_data_reads, m.trace_data_reads, d.trace_data_reads, data_reads(c, first), data_reads(m, then));
    lemma_grows_trans(c, m, d);
}

/// The bytes of the return addresses pushed at the sentinel.
proof fn lemma_sentinel_bytes()
    by (bit_vector)
    ensures
        (0xFFFEu16 >> 8u16) as u8 == 0xFFu8,
        0xFFFEu16 as u8 == 0xFEu8,
        (0xFFFFu16 >> 8u16) as u8 == 0xFFu8,
        0xFFFFu16 as u8 == 0xFFu8,
{
}

/// A word is its low byte and 256 times its high byte.
proof fn lemma_word_split(w: u16)
    by (bit_vector)
    ensures
        w == (w as u8) as u16 + ((w >> 8u16) as u8) as u16 * 256,
{
}

/// The registers a CPU exposes, as values.
pub struct Registers {
    pub a: u16,
    pub x: u16,
    pub y: u16,
    pub sp: u16,
    pub dp: u16,
    pub db: u8,
    pub pb: u8,
    pub pc: u16,
    pub p: u8,
    pub emulation: bool,
    pub steps: u64,
}

/// A fresh CPU's registers: all zero but the stack pointer at `$01FF` and
/// the status at `M`, `X` and `I`, in native mode.
pub proof fn lemma_fresh_registers(c: Cpu, steps: u64)
    requires
        c.is_fresh(steps),
    ensures
        c.registers() == (Registers {
            a: 0,
            x: 0,
            y: 0,
            sp: 0x01FF,
            dp: 0,
            db: 0,
            pb: 0,
            pc: 0,
            p: 0x34,
            emulation: false,
            steps,
        }),
        !c.spec_returned(),
        c.irq_masked(),
{
    assert(0x34u8 & 4 != 0) by (bit_vector);
}

/// A routine entered at `addr` with `frame` pushed has the registers it
/// was entered with, but for the stack pointer below the frame and the
/// program counter at `addr`.
pub proof fn lemma_entered_registers(e: Cpu, before: Cpu, addr: u32, frame: Seq<u8>)
    requires
        e.entered(before, addr, frame),
    ensures
        e.registers() == (Registers {
            sp: sp_after_pushes(before.registers().sp, before.registers().emulation, frame.len()),
            pb: ((addr / 0x1_0000) % 0x100) as u8,
            pc: (addr % 0x1_0000) as u16,
            ..before.registers()
        }),
        e.bus_log() == before.bus_log() + push_writes(
            before.registers().sp,
            before.registers().emulation,
            frame,
        ),
{
}

/// An interrupt leaves the data registers, switches to bank 0 at the
/// vector, masks interrupts and clears decimal mode.
pub proof fn lemma_interrupt_registers(d: Cpu, before: Cpu)
    requires
        d.took_interrupt(before),
    ensures
        d.registers().a == before.registers().a && d.registers().x == before.registers().x
            && d.registers().y == before.registers().y,
        d.registers().dp == before.registers().dp && d.registers().db == before.registers().db,
        d.registers().emulation == before.registers().emulation,
        d.registers().p == (before.registers().p | 4) & !8u8,
        d.registers().pb == 0,
        d.registers().steps == before.registers().steps,
        d.bus_log().last() == BusEvent::Vector(d.registers().pc),
{
}

/// A routine that returned by `RTL` or `RTS` stands at the sentinel with
/// no return awaited, its registers those it returned with but for the
/// stack pointer.
pub proof fn lemma_returned_registers(d: Cpu, m: Cpu)
    requires
        d.returned_from(m),
    ensures
        d.spec_return_sp() is None,
        d.registers() == (Registers { sp: d.registers().sp, ..m.registers() }),
        d.bus_log() == m.bus_log(),
{
}

/// The zero and negative flags `with_nz` leaves, as bits of the status.
proof fn lemma_nz_bits(p: u8, v: u16, w8: bool)
    ensures
        (with_nz(p, v, w8) & 2 != 0) == (if w8 { v % 0x100 == 0 } else { v == 0 }),
        (with_nz(p, v, w8) & 0x80 != 0) == (if w8 { v % 0x100 >= 0x80 } else { v >= 0x8000 }),
{
    assert((v & 0xFF == 0) == (v % 0x100 == 0) && (v & 0x80 != 0) == (v % 0x100 >= 0x80)
        && (v & 0x8000 != 0) == (v >= 0x8000)) by (bit_vector);
    let z = if w8 { v & 0xFF == 0 } else { v == 0 };
    let n = if w8 { v & 0x80 != 0 } else { v & 0x8000 != 0 };
    let q = set_bit(p, 2, z);
    assert((q & 2 != 0) == z) by (bit_vector)
        requires
            q == (if z { p | 2 } else { p & !2u8 }),
    ;
    let r = set_bit(q, 0x80, n);
    assert((r & 2 != 0) == (q & 2 != 0) && (r & 0x80 != 0) == n) by (bit_vector)
        requires
            r == (if n { q | 0x80 } else { q & !0x80u8 }),
    ;
}

/// `TYX` (`$BB`) copies `Y` into `X` at the index registers' width,
/// leaving `Y` and the accumulator as they were, and sets `Z` and `N` by
/// the value copied.
pub proof fn lemma_tyx_copies_y_to_x(c: Cpu, mid: Cpu, d: Cpu, r: Result<(), CpuError>)
    requires
        c.fetches(0xBB, mid),
        c.executed(0xBB, mid, d, r),
    ensures
        r is Ok,
        ({
            let narrow = c.registers().emulation || c.registers().p & 0x10 != 0;
            let v = if narrow { c.registers().y % 0x100 } else { c.registers().y };
            &&& d.registers().x == v
            &&& d.registers().y == c.registers().y
            &&& d.registers().a == c.registers().a
            &&& (d.registers().p & 2 != 0) == (v == 0)
            &&& (d.registers().p & 0x80 != 0) == (if narrow { v >= 0x80 } else { v >= 0x8000 })
        }),
{
    lemma_nz_bits(mid.p, if index8(mid) { mid.y % 0x100 } else { mid.y }, index8(mid));
}

/// `TXY` (`$9B`) copies `X` into `Y` at the index registers' width,
/// leaving `X` and the accumulator as they were: the other way from
/// `TYX`.
pub proof fn lemma_txy_copies_x_to_y(c: Cpu, mid: Cpu, d: Cpu, r: Result<(), CpuError>)
    requires
        c.fetches(0x9B, mid),
        c.executed(0x9B, mid, d, r),
    ensures
        r is Ok,
        ({
            let narrow = c.registers().emulation || c.registers().p & 0x10 != 0;
            let v = if narrow { c.registers().x % 0x100 } else { c.registers().x };
            &&& d.registers().y == v
            &&& d.registers().x == c.registers().x
            &&& d.registers().a == c.registers().a
            &&& (d.registers().p & 2 != 0) == (v == 0)
            &&& (d.registers().p & 0x80 != 0) == (if narrow { v >= 0x80 } else { v >= 0x8000 })
        }),
{
    lemma_nz_bits(mid.p, if index8(mid) { mid.x % 0x100 } else { mid.x }, index8(mid));
}

/// The register transfers into an index register, `TAX` (`$AA`), `TAY`
/// (`$A8`), `TSX` (`$BA`), `TYX` (`$BB`) and `TXY` (`$9B`), copy their
/// source into their destination at the index registers' width, leave
/// the other index register and the accumulator as they were, and set `Z`
/// by the value copied.
pub proof fn lemma_index_transfers(op: u8, c: Cpu, mid: Cpu, d: Cpu, r: Result<(), CpuError>)
    requires
        op == 0xAA || op == 0xA8 || op == 0xBA || op == 0xBB || op == 0x9B,
        c.fetches(op, mid),
        c.executed(op, mid, d, r),
    ensures
        r is Ok,
        ({
            let g = c.registers();
            let narrow = g.emulation || g.p & 0x10 != 0;
            let src = if op == 0xAA || op == 0xA8 { g.a } else if op == 0xBA { g.sp } else if op
                == 0xBB { g.y } else { g.x };
            let v = if narrow { src % 0x100 } else { src };
            let to_x = op == 0xAA || op == 0xBA || op == 0xBB;
            &&& to_x ==> d.registers().x == v && d.registers().y == g.y
            &&& !to_x ==> d.registers().y == v && d.registers().x == g.x
            &&& d.registers().a == g.a && d.registers().sp == g.sp
            &&& (d.registers().p & 2 != 0) == (v == 0)
        }),
{
    let src = if op == 0xAA || op == 0xA8 { mid.a } else if op == 0xBA { mid.sp } else if op == 0xBB {
        mid.y
    } else {
        mid.x
    };
    lemma_nz_bits(mid.p, if index8(mid) { src % 0x100 } else { src }, index8(mid));
}

/// `TXA` (`$8A`) and `TYA` (`$98`) copy the index register into the
/// accumulator at its width: an 8-bit accumulator keeps its high byte
/// `B`. The index registers stay as they were.
pub proof fn lemma_accumulator_transfers(op: u8, c: Cpu, mid: Cpu, d: Cpu, r: Result<(), CpuError>)
    requires
        op == 0x8A || op == 0x98,
        c.fetches(op, mid),
        c.executed(op, mid, d, r),
    ensures
        r is Ok,
        ({
            let g = c.registers();
            let src = if op == 0x8A { g.x } else { g.y };
            let narrow = g.emulation || g.p & 0x20 != 0;
            &&& d.registers().a == if narrow { (g.a / 0x100) * 0x100 + src % 0x100 } else { src as int }
            &&& d.registers().x == g.x && d.registers().y == g.y
        }),
{
    let a = mid.a;
    let v = if op == 0x8A { mid.x } else { mid.y };
    assert((a & 0xFF00) | (v & 0xFF) == (a / 0x100) * 0x100 + v % 0x100) by (bit_vector);
}

/// `TXS` (`$9A`) copies `X` into the stack pointer; in emulation mode
/// the stack stays in page 1.
pub proof fn lemma_txs(c: Cpu, mid: Cpu, d: Cpu, r: Result<(), CpuError>)
    requires
        c.fetches(0x9A, mid),
        c.executed(0x9A, mid, d, r),
    ensures
        r is Ok,
        d.registers().sp == if c.registers().emulation {
            0x100 + c.registers().x % 0x100
        } else {
            c.registers().x as int
        },
        d.registers().x == c.registers().x && d.registers().a == c.registers().a,
{
    let x = mid.x;
    assert(0x0100u16 | (x & 0xFF) == 0x100 + x % 0x100) by (bit_vector);
}

/// A run gets to where it starts.
pub proof fn lemma_leads_to_self(c: Cpu)
    ensures
        c.leads_to(c),
{
    assert(c.traced(seq![c], c));
}

/// A run that gets to `m` gets one move further.
pub proof fn lemma_leads_to_move(c: Cpu, m: Cpu, d: Cpu)
    requires
        c.leads_to(m),
        m.moves_to(d),
    ensures
        c.leads_to(d),
{
    let t = choose|t: Seq<Cpu>| #[trigger] c.traced(t, m);
    let u = t.push(d);
    assert forall|i: int| 0 <= i < u.len() - 1 implies #[trigger] u[i].moves_to(u[i + 1]) by {
        if i < t.len() - 1 {
            assert(u[i] == t[i] && u[i + 1] == t[i + 1]);
        } else {
            assert(u[i] == m && u[i + 1] == d);
        }
    }
    assert(c.traced(u, d));
}

/// Looking once more extends the looks.
proof fn lemma_look_again(c: Cpu, looks: Seq<Cpu>, d: Cpu)
    requires
        c.looked_at(looks),
        looks.last().next_look(d),
    ensures
        c.looked_at(looks.push(d)),
{
    let u = looks.push(d);
    assert forall|i: int| 0 <= i < u.len() - 1 implies #[trigger] u[i].next_look(u[i + 1]) by {
        if i < looks.len() - 1 {
            assert(u[i] == looks[i] && u[i + 1] == looks[i + 1]);
        } else {
            assert(u[i] == looks.last() && u[i + 1] == d);
        }
    }
}

/// Traffic recorded after `c`'s is more traffic.
proof fn lemma_logged_grows(c: Cpu, d: Cpu, events: Seq<BusEvent>)
    requires
        logged(c, d, events),
    ensures
        grows(c, d),
{
    assert(d.log@.subrange(0, c.log@.len() as int) =~= c.log@);
}

/// More traffic after more traffic is more traffic.
proof fn lemma_grows_trans(c: Cpu, m: Cpu, d: Cpu)
    requires
        grows(c, m),
        grows(m, d),
    ensures
        grows(c, d),
{
    assert(d.log@.subrange(0, c.log@.len() as int) =~= m.log@.subrange(0, c.log@.len() as int));
}

/// A 24-bit mask is the remainder by `2^24`; setting bit 24 of a 16-bit
/// value adds it.
proof fn lemma_masks(v: u32, w: u32)
    ensures
        v & 0xFF_FFFF == v % 0x100_0000,
        w < 0x100_0000 ==> w | 0x100_0000 == w + 0x100_0000,
{
    assert(v & 0xFF_FFFF == v % 0x100_0000) by (bit_vector);
    assert(w < 0x100_0000 ==> w | 0x100_0000 == w + 0x100_0000) by (bit_vector);
}

/// A bank and an offset make a 24-bit address.
proof fn lemma_bank_offset(bank: u8, offset: u16)
    ensures
        ((bank as u32) << 16) | offset as u32 == bank * 0x1_0000 + offset,
{
    assert(((bank as u32) << 16) | offset as u32 == bank * 0x1_0000 + offset) by (bit_vector);
}

/// An operand byte, word or long the bus may give.
spec fn is_byte(o: int) -> bool {
    0 <= o < 0x100
}

spec fn is_word(o: int) -> bool {
    0 <= o < 0x1_0000
}

spec fn is_long(o: int) -> bool {
    0 <= o < 0x100_0000
}

/// The two reads of a pointer in bank 0 at `d`, as traced.
spec fn pointer_reads(c: Cpu, d: u16, n: int) -> Seq<(u32, u32)> {
    reads_by(c, Seq::new(n as nat, |k: int| (add16(d, k) as u32) & 0xFF_FFFF))
}

pub open spec fn sp_after_push(sp: u16, emulation: bool) -> u16 {
    let down = ((sp as int - 1) % 0x1_0000) as u16;
    if emulation {
        (0x100 + down % 0x100) as u16
    } else {
        down
    }
}

impl Cpu {
    /// The accumulator and memory are 8 bits wide.
    pub closed spec fn spec_m8(&self) -> bool {
        self.emulation || self.p & 0x20 != 0
    }

    /// The index registers are 8 bits wide.
    pub closed spec fn spec_x8(&self) -> bool {
        self.emulation || self.p & 0x10 != 0
    }

    /// The registers agree with the mode: emulation mode has 8-bit
    /// accumulator and index registers, and 8-bit index registers hold
    /// no high byte.
    pub closed spec fn wf(&self) -> bool {
        &&& self.emulation ==> self.p & 0x20 != 0 && self.p & 0x10 != 0
        &&& self.spec_x8() ==> self.x < 0x100 && self.y < 0x100
    }

    /// Everything the CPU has handed to its bus and had back, oldest
    /// first.
    pub closed spec fn bus_log(&self) -> Seq<BusEvent> {
        self.log@
    }

    /// Bytes written so far.
    pub closed spec fn spec_writes(&self) -> u64 {
        self.writes
    }

    /// The routine entered by [`Cpu::enter`] or [`Cpu::enter_jsr`] has
    /// returned: the program counter is at the sentinel, in its bank or
    /// with the stack back where a `JSR` entry left it.
    pub closed spec fn spec_returned(&self) -> bool {
        (self.pb == RETURN_PB && self.pc == RETURN_PC) || (self.pc == RETURN_PC && self.return_sp
            == Some(self.sp))
    }

    /// Interrupts are masked: the `I` flag is set.
    pub closed spec fn irq_masked(&self) -> bool {
        self.p & 4 != 0
    }

    /// The program counter is `pc` in bank `pb`.
    pub closed spec fn stands_at(&self, pb: u8, pc: u16) -> bool {
        self.pb == pb && self.pc == pc
    }

    /// The program counter is at the sentinel an entered routine returns
    /// to.
    pub closed spec fn spec_at_sentinel(&self) -> bool {
        self.pc == RETURN_PC
    }

    /// Where the stack stands once an `RTS` entered by [`Cpu::enter_jsr`]
    /// has returned, if the routine was entered so.
    pub closed spec fn spec_return_sp(&self) -> Option<u16> {
        self.return_sp
    }

    /// A CPU as [`Cpu::new`] gives it, `steps` instructions on: all
    /// registers zero but the stack pointer at `$01FF` and the status at
    /// `M`, `X` and `I`, in native mode, nothing written, no loop seen.
    pub closed spec fn is_fresh(&self, steps: u64) -> bool {
        &&& self.a == 0 && self.x == 0 && self.y == 0
        &&& self.sp == 0x01FF && self.dp == 0 && self.db == 0
        &&& self.pb == 0 && self.pc == 0
        &&& self.p == 0x34
        &&& !self.emulation
        &&& self.steps == steps
        &&& !self.in_fetch && self.op_addr == 0 && self.writes == 0
        &&& self.last_loop is None && !self.waiting && self.return_sp is None
    }

    /// The programmer-visible registers and the step count.
    pub closed spec fn registers(&self) -> Registers {
        Registers {
            a: self.a,
            x: self.x,
            y: self.y,
            sp: self.sp,
            dp: self.dp,
            db: self.db,
            pb: self.pb,
            pc: self.pc,
            p: self.p,
            emulation: self.emulation,
            steps: self.steps,
        }
    }

    /// No data reads are being recorded.
    pub closed spec fn is_untraced(&self) -> bool {
        self.trace_data_reads is None
    }

    /// The read trace is the one `other` has.
    pub closed spec fn same_trace(&self, other: Cpu) -> bool {
        self.trace_data_reads == other.trace_data_reads
    }

    /// Instructions executed so far.
    pub closed spec fn spec_steps(&self) -> u64 {
        self.steps
    }

    /// The 24-bit address of the program counter.
    pub closed spec fn spec_pc_addr(&self) -> u32 {
        (self.pb as u32 * 0x1_0000 + self.pc as u32) as u32
    }

    /// A CPU in native mode with 8-bit accumulator and index registers,
    /// interrupts disabled, stack at `$01FF`.
    pub fn new() -> (r: Self)
        ensures
            r.is_fresh(0),
            r.is_untraced(),
            r.wf(),
            r.bus_log() == Seq::<BusEvent>::empty(),
    {
        let r = Self {
            a: 0,
            x: 0,
            y: 0,
            sp: 0x01FF,
            dp: 0,
            db: 0,
            pb: 0,
            pc: 0,
            // M, X and I.
            p: 0x34,
            emulation: false,
            steps: 0,
            trace_data_reads: None,
            in_fetch: false,
            op_addr: 0,
            writes: 0,
            last_loop: None,
            waiting: false,
            return_sp: None,
            log: Ghost(Seq::empty()),
        };
        r
    }

    /// A CPU as it comes out of reset: as [`Cpu::new`] gives it, but in
    /// emulation mode and at `pc`.
    /// The CPU [`Cpu::out_of_reset`] gives.
    pub closed spec fn spec_out_of_reset(pc: u16) -> Cpu {
        Cpu {
            a: 0,
            x: 0,
            y: 0,
            sp: 0x01FF,
            dp: 0,
            db: 0,
            pb: 0,
            pc,
            p: 0x34,
            emulation: true,
            steps: 0,
            trace_data_reads: None,
            in_fetch: false,
            op_addr: 0,
            writes: 0,
            last_loop: None,
            waiting: false,
            return_sp: None,
            log: Ghost(Seq::empty()),
        }
    }

    pub fn out_of_reset(pc: u16) -> (r: Self)
        ensures
            r == Cpu::spec_out_of_reset(pc),
            r.wf(),
            r.is_untraced(),
            r.spec_steps() == 0,
            r.is_at(pc as u32),
    {
        let mut r = Self::new();
        proof {
            lemma_set_mx(r.p);
        }
        r.emulation = true;
        r.pc = pc;
        r
    }

    /// Puts the registers back to what [`Cpu::new`] gives, so a routine
    /// starts from a known state whatever ran before it. The step count
    /// and any read trace carry on.
    pub fn reset_registers(&mut self)
        ensures
            final(self).is_fresh(old(self).spec_steps()),
            final(self).same_trace(*old(self)),
            final(self).wf(),
    {
        let steps = self.steps;
        let trace = self.trace_data_reads.take();
        *self = Self::new();
        self.steps = steps;
        self.trace_data_reads = trace;
    }

    // --- Flag helpers -------------------------------------------------
    fn flag(&self, f: u8) -> (r: bool)
        ensures
            r == (self.p & f != 0),
    {
        self.p & f != 0
    }

    fn set_flag(&mut self, f: u8, on: bool)
        requires
            f == 1 || f == 2 || f == 4 || f == 8 || f == 0x40 || f == 0x80,
        ensures
            kept(*old(self), *final(self)),
            final(self).p == if on {
                old(self).p | f
            } else {
                old(self).p & !f
            },
            final(self).a == old(self).a,
            final(self).sp == old(self).sp,
            final(self).pc == old(self).pc,
            final(self).pb == old(self).pb,
            *final(self) == (Cpu { p: set_bit(old(self).p, f, on), ..*old(self) }),
    {
        let p = self.p;
        if on {
            self.p = p | f;
        } else {
            self.p = p & !f;
        }
        proof {
            lemma_other_flag(p, f);
        }
    }

    /// True when the accumulator and memory are 8 bits wide.
    pub fn m8(&self) -> (r: bool)
        ensures
            r == self.spec_m8(),
    {
        self.emulation || self.flag(Flags::M)
    }

    /// True when the index registers are 8 bits wide.
    pub fn x8(&self) -> (r: bool)
        ensures
            r == self.spec_x8(),
    {
        self.emulation || self.flag(Flags::X)
    }

    fn set_nz(&mut self, value: u16, width8: bool)
        ensures
            kept(*old(self), *final(self)),
            final(self).a == old(self).a,
            final(self).sp == old(self).sp,
            final(self).pc == old(self).pc,
            final(self).pb == old(self).pb,
            *final(self) == (Cpu { p: with_nz(old(self).p, value, width8), ..*old(self) }),
    {
        if width8 {
            self.set_flag(Flags::Z, value & 0xFF == 0);
            self.set_flag(Flags::N, value & 0x80 != 0);
        } else {
            self.set_flag(Flags::Z, value == 0);
            self.set_flag(Flags::N, value & 0x8000 != 0);
        }
    }

    fn set_p(&mut self, p: u8)
        ensures
            final(self).wf(),
            final(self).emulation == old(self).emulation,
            final(self).steps == old(self).steps,
            final(self).a == old(self).a,
            final(self).sp == old(self).sp,
            final(self).pc == old(self).pc,
            final(self).pb == old(self).pb,
            *final(self) == status_set(*old(self), p),
    {
        self.p = p;
        if self.emulation {
            self.p = self.p | Flags::M | Flags::X;
            proof {
                lemma_set_mx(p);
            }
        }
        if self.x8() {
            self.x = self.x % 0x100;
            self.y = self.y % 0x100;
        }
    }

    // --- Memory helpers -----------------------------------------------
    fn read8<B: Bus>(&mut self, bus: &mut B, addr: u32) -> (v: u8)
        ensures
            kept(*old(self), *final(self)),
            final(self).pc == old(self).pc,
            final(self).sp == old(self).sp,
            final(self).p == old(self).p,
            final(self).pb == old(self).pb,
            final(self).a == old(self).a,
            final(self).dp == old(self).dp,
            final(self).db == old(self).db,
            traced(*old(self), *final(self), data_reads(*old(self), seq![addr & 0xFF_FFFF])),
            logged(*old(self), *final(self), seq![BusEvent::Read(addr & 0xFF_FFFF, v)]),
    {
        let ghost before = *self;
        if !self.in_fetch {
            let trace = self.trace_data_reads.take();
            if let Some(mut t) = trace {
                let ghost t0 = t@;
                t.push((self.op_addr, addr & 0xFF_FFFF));
                proof {
                    assert(data_reads(before, seq![addr & 0xFF_FFFF]) =~= seq![(before.op_addr, addr & 0xFF_FFFF)]);
                    assert(t@ =~= t0 + data_reads(before, seq![addr & 0xFF_FFFF]));
                }
                self.trace_data_reads = Some(t);
            }
        }
        proof {
            if before.in_fetch {
                assert(data_reads(before, seq![addr & 0xFF_FFFF]) =~= Seq::<(u32, u32)>::empty());
                match before.trace_data_reads {
                    Some(t) => { assert(t@ =~= t@ + Seq::<(u32, u32)>::empty()); },
                    None => {},
                }
            }
        }
        let v = bus.read(addr & 0xFF_FFFF);
        self.log = Ghost(self.log@.push(BusEvent::Read(addr & 0xFF_FFFF, v)));
        assert(self.log@.subrange(0, before.log@.len() as int) =~= before.log@);
        v
    }

    /// The address after `addr`. Absolute and indirect addresses carry
    /// into the next bank; those tagged [`WRAPS_IN_BANK`] stay in theirs.
    fn next_addr(addr: u32) -> (r: u32)
        ensures
            r == spec_next_addr(addr),
    {
        if addr & WRAPS_IN_BANK != 0 {
            (addr & !0xFFFF) | (addr.wrapping_add(1) & 0xFFFF)
        } else {
            addr.wrapping_add(1)
        }
    }

    fn read16<B: Bus>(&mut self, bus: &mut B, addr: u32) -> (v: u16)
        ensures
            kept(*old(self), *final(self)),
            final(self).pc == old(self).pc,
            final(self).sp == old(self).sp,
            final(self).p == old(self).p,
            final(self).pb == old(self).pb,
            final(self).a == old(self).a,
            final(self).dp == old(self).dp,
            final(self).db == old(self).db,
            traced(*old(self), *final(self), data_reads(*old(self), seq![addr & 0xFF_FFFF, spec_next_addr(addr) & 0xFF_FFFF])),
            logged(*old(self), *final(self), value_reads(addr, v, false)),
    {
        let ghost c = *self;
        let lo = self.read8(bus, addr) as u16;
        let ghost m = *self;
        let hi = self.read8(bus, Self::next_addr(addr)) as u16;
        proof {
            lemma_traced_chain(c, m, *self, seq![addr & 0xFF_FFFF], seq![spec_next_addr(addr) & 0xFF_FFFF]);
            assert(seq![addr & 0xFF_FFFF] + seq![spec_next_addr(addr) & 0xFF_FFFF] =~= seq![addr & 0xFF_FFFF, spec_next_addr(addr) & 0xFF_FFFF]);
            lemma_bytes(lo, hi);
        }
        lo | (hi << 8)
    }

    /// 16-bit read that wraps within bank 0, for direct page and stack.
    fn read16_bank0<B: Bus>(&mut self, bus: &mut B, addr: u16) -> (v: u16)
        ensures
            kept(*old(self), *final(self)),
            final(self).pc == old(self).pc,
            final(self).sp == old(self).sp,
            final(self).p == old(self).p,
            final(self).pb == old(self).pb,
            final(self).a == old(self).a,
            final(self).dp == old(self).dp,
            final(self).db == old(self).db,
            traced(*old(self), *final(self), data_reads(*old(self), seq![(addr as u32) & 0xFF_FFFF, (add16(addr, 1) as u32) & 0xFF_FFFF])),
    {
        let ghost c = *self;
        let lo = self.read8(bus, addr as u32) as u16;
        let ghost m = *self;
        let hi = self.read8(bus, addr.wrapping_add(1) as u32) as u16;
        proof {
            let a0 = (addr as u32) & 0xFF_FFFF;
            let a1 = (add16(addr, 1) as u32) & 0xFF_FFFF;
            lemma_traced_chain(c, m, *self, seq![a0], seq![a1]);
            assert(seq![a0] + seq![a1] =~= seq![a0, a1]);
        }
        lo | (hi << 8)
    }

    fn read24_bank0<B: Bus>(&mut self, bus: &mut B, addr: u16) -> (v: u32)
        ensures
            kept(*old(self), *final(self)),
            final(self).pc == old(self).pc,
            final(self).sp == old(self).sp,
            final(self).p == old(self).p,
            final(self).pb == old(self).pb,
            final(self).a == old(self).a,
            final(self).dp == old(self).dp,
            final(self).db == old(self).db,
            v < 0x100_0000,
            traced(*old(self), *final(self), data_reads(*old(self), seq![(addr as u32) & 0xFF_FFFF, (add16(addr, 1) as u32) & 0xFF_FFFF, (add16(addr, 2) as u32) & 0xFF_FFFF])),
    {
        let ghost c = *self;
        let lo = self.read16_bank0(bus, addr) as u32;
        let ghost m = *self;
        let bank = self.read8(bus, addr.wrapping_add(2) as u32) as u32;
        proof {
            let a0 = (addr as u32) & 0xFF_FFFF;
            let a1 = (add16(addr, 1) as u32) & 0xFF_FFFF;
            let a2 = (add16(addr, 2) as u32) & 0xFF_FFFF;
            lemma_traced_chain(c, m, *self, seq![a0, a1], seq![a2]);
            assert(seq![a0, a1] + seq![a2] =~= seq![a0, a1, a2]);
        }
        lo + bank * 0x1_0000
    }

    fn write8<B: Bus>(&mut self, bus: &mut B, addr: u32, value: u8)
        ensures
            kept(*old(self), *final(self)),
            final(self).pc == old(self).pc,
            final(self).sp == old(self).sp,
            final(self).p == old(self).p,
            final(self).a == old(self).a,
            final(self).pb == old(self).pb,
            final(self).dp == old(self).dp,
            final(self).db == old(self).db,
            *final(self) == (Cpu { writes: ((old(self).writes + 1) % 0x1_0000_0000_0000_0000) as u64, log: final(self).log, ..*old(self) }),
            logged(*old(self), *final(self), seq![BusEvent::Write(addr & 0xFF_FFFF, value)]),
    {
        self.writes = self.writes.wrapping_add(1);
        bus.write(addr & 0xFF_FFFF, value);
        self.log = Ghost(self.log@.push(BusEvent::Write(addr & 0xFF_FFFF, value)));
    }

    fn write16<B: Bus>(&mut self, bus: &mut B, addr: u32, value: u16)
        ensures
            kept(*old(self), *final(self)),
            final(self).pc == old(self).pc,
            final(self).sp == old(self).sp,
            final(self).p == old(self).p,
            final(self).a == old(self).a,
            final(self).pb == old(self).pb,
            final(self).dp == old(self).dp,
            final(self).db == old(self).db,
            *final(self) == (Cpu { writes: ((old(self).writes + 2) % 0x1_0000_0000_0000_0000) as u64, log: final(self).log, ..*old(self) }),
            logged(*old(self), *final(self), seq![BusEvent::Write(addr & 0xFF_FFFF, value as u8), BusEvent::Write(spec_next_addr(addr) & 0xFF_FFFF, (value >> 8u16) as u8)]),
    {
        self.write8(bus, addr, value as u8);
        self.write8(bus, Self::next_addr(addr), (value >> 8) as u8);
    }

    /// Reads a value of the accumulator width.
    fn read_m<B: Bus>(&mut self, bus: &mut B, addr: u32) -> (v: u16)
        ensures
            kept(*old(self), *final(self)),
            final(self).pc == old(self).pc,
            final(self).sp == old(self).sp,
            final(self).p == old(self).p,
            final(self).pb == old(self).pb,
            final(self).a == old(self).a,
            final(self).dp == old(self).dp,
            final(self).db == old(self).db,
            traced(*old(self), *final(self), data_reads(*old(self), if acc8(*old(self)) { seq![addr & 0xFF_FFFF] } else { seq![addr & 0xFF_FFFF, spec_next_addr(addr) & 0xFF_FFFF] })),
            logged(*old(self), *final(self), value_reads(addr, v, acc8(*old(self)))),
            acc8(*old(self)) ==> v < 0x100,
    {
        if self.m8() {
            self.read8(bus, addr) as u16
        } else {
            self.read16(bus, addr)
        }
    }

    fn write_m<B: Bus>(&mut self, bus: &mut B, addr: u32, value: u16)
        ensures
            kept(*old(self), *final(self)),
            final(self).pc == old(self).pc,
            final(self).sp == old(self).sp,
            final(self).p == old(self).p,
            final(self).a == old(self).a,
            final(self).pb == old(self).pb,
            final(self).dp == old(self).dp,
            final(self).db == old(self).db,
            *final(self) == (Cpu { writes: ((old(self).writes + if acc8(*old(self)) { 1int } else { 2int }) % 0x1_0000_0000_0000_0000) as u64, log: final(self).log, ..*old(self) }),
            logged(*old(self), *final(self), value_writes(addr, value, acc8(*old(self)))),
    {
        if self.m8() {
            self.write8(bus, addr, value as u8);
        } else {
            self.write16(bus, addr, value);
        }
    }

    fn read_x<B: Bus>(&mut self, bus: &mut B, addr: u32) -> (v: u16)
        ensures
            kept(*old(self), *final(self)),
            final(self).pc == old(self).pc,
            final(self).sp == old(self).sp,
            final(self).p == old(self).p,
            final(self).pb == old(self).pb,
            final(self).a == old(self).a,
            final(self).dp == old(self).dp,
            final(self).db == old(self).db,
            traced(*old(self), *final(self), data_reads(*old(self), if index8(*old(self)) { seq![addr & 0xFF_FFFF] } else { seq![addr & 0xFF_FFFF, spec_next_addr(addr) & 0xFF_FFFF] })),
            logged(*old(self), *final(self), value_reads(addr, v, index8(*old(self)))),
            index8(*old(self)) ==> v < 0x100,
    {
        if self.x8() {
            self.read8(bus, addr) as u16
        } else {
            self.read16(bus, addr)
        }
    }

    fn write_x<B: Bus>(&mut self, bus: &mut B, addr: u32, value: u16)
        ensures
            kept(*old(self), *final(self)),
            final(self).pc == old(self).pc,
            final(self).sp == old(self).sp,
            final(self).p == old(self).p,
            final(self).a == old(self).a,
            final(self).pb == old(self).pb,
            final(self).dp == old(self).dp,
            final(self).db == old(self).db,
            *final(self) == (Cpu { writes: ((old(self).writes + if index8(*old(self)) { 1int } else { 2int }) % 0x1_0000_0000_0000_0000) as u64, log: final(self).log, ..*old(self) }),
            logged(*old(self), *final(self), value_writes(addr, value, index8(*old(self)))),
    {
        if self.x8() {
            self.write8(bus, addr, value as u8);
        } else {
            self.write16(bus, addr, value);
        }
    }

    fn pc_addr(&self) -> (r: u32)
        ensures
            r == self.spec_pc_addr(),
    {
        let (pb, pc) = (self.pb, self.pc);
        pb as u32 * 0x1_0000 + pc as u32
    }

    fn fetch8<B: Bus>(&mut self, bus: &mut B) -> (v: u8)
        ensures
            kept(*old(self), *final(self)),
            final(self).sp == old(self).sp,
            final(self).p == old(self).p,
            final(self).pb == old(self).pb,
            final(self).a == old(self).a,
            traced(past_operand(*old(self), 1), *final(self), Seq::empty()),
            logged(*old(self), *final(self), seq![BusEvent::Read(old(self).spec_pc_addr() & 0xFF_FFFF, v)]),
    {
        let ghost c = *self;
        self.in_fetch = true;
        let v = self.read8(bus, self.pc_addr());
        proof {
            assert(data_reads(Cpu { in_fetch: true, ..c }, seq![c.spec_pc_addr() & 0xFF_FFFF]) =~= Seq::<(u32, u32)>::empty());
        }
        self.in_fetch = false;
        self.pc = self.pc.wrapping_add(1);
        v
    }

    fn fetch16<B: Bus>(&mut self, bus: &mut B) -> (v: u16)
        ensures
            kept(*old(self), *final(self)),
            final(self).sp == old(self).sp,
            final(self).p == old(self).p,
            final(self).pb == old(self).pb,
            final(self).a == old(self).a,
            traced(past_operand(*old(self), 2), *final(self), Seq::empty()),
            logged(*old(self), *final(self), fetch_reads(*old(self), word_bytes(v))),
    {
        let ghost c = *self;
        let lo = self.fetch8(bus) as u16;
        let ghost m = *self;
        let hi = self.fetch8(bus) as u16;
        proof {
            lemma_trace_trans(c.trace_data_reads, m.trace_data_reads, self.trace_data_reads, Seq::empty(), Seq::empty());
            lemma_grows_trans(c, m, *self);
            assert(Seq::<(u32, u32)>::empty() + Seq::<(u32, u32)>::empty() =~= Seq::<(u32, u32)>::empty());
            lemma_bytes(lo, hi);
            assert(past_operand(c, 0).spec_pc_addr() == c.spec_pc_addr());
            assert(past_operand(c, 1).spec_pc_addr() == m.spec_pc_addr());
            assert(fetch_reads(c, word_bytes(lo | (hi << 8))) =~= seq![
                BusEvent::Read(c.spec_pc_addr() & 0xFF_FFFF, lo as u8),
                BusEvent::Read(m.spec_pc_addr() & 0xFF_FFFF, hi as u8),
            ]);
        }
        lo | (hi << 8)
    }

    fn fetch24<B: Bus>(&mut self, bus: &mut B) -> (v: u32)
        ensures
            kept(*old(self), *final(self)),
            final(self).sp == old(self).sp,
            final(self).p == old(self).p,
            final(self).pb == old(self).pb,
            final(self).a == old(self).a,
            v < 0x100_0000,
            traced(past_operand(*old(self), 3), *final(self), Seq::empty()),
    {
        let ghost c = *self;
        let lo = self.fetch16(bus) as u32;
        let ghost m = *self;
        let bank = self.fetch8(bus) as u32;
        proof {
            lemma_trace_trans(c.trace_data_reads, m.trace_data_reads, self.trace_data_reads, Seq::empty(), Seq::empty());
            lemma_grows_trans(c, m, *self);
            assert(Seq::<(u32, u32)>::empty() + Seq::<(u32, u32)>::empty() =~= Seq::<(u32, u32)>::empty());
        }
        lo + bank * 0x1_0000
    }

    // --- Stack ---------------------------------------------------------
    fn push8<B: Bus>(&mut self, bus: &mut B, value: u8)
        ensures
            kept(*old(self), *final(self)),
            final(self).sp == sp_after_push(old(self).sp, old(self).emulation),
            final(self).p == old(self).p,
            final(self).pc == old(self).pc,
            final(self).pb == old(self).pb,
            final(self).a == old(self).a,
    {
        self.push_byte(bus, value);
    }

    /// [`Cpu::push8`], with all it hands to the bus: one write at the
    /// stack pointer.
    fn push_byte<B: Bus>(&mut self, bus: &mut B, value: u8)
        ensures
            kept(*old(self), *final(self)),
            *final(self) == (Cpu {
                sp: sp_after_push(old(self).sp, old(self).emulation),
                writes: ((old(self).writes + 1) % 0x1_0000_0000_0000_0000) as u64,
                log: final(self).log,
                ..*old(self)
            }),
            logged(*old(self), *final(self), push_writes(old(self).sp, old(self).emulation, seq![value])),
    {
        proof {
            assert(sp_after_pushes(old(self).sp, old(self).emulation, 0) == old(self).sp);
            assert(push_writes(old(self).sp, old(self).emulation, seq![value]) =~= seq![BusEvent::Write((old(self).sp as u32) & 0xFF_FFFF, value)]);
        }
        self.write8(bus, self.sp as u32, value);
        self.sp = self.sp.wrapping_sub(1);
        if self.emulation {
            self.sp = 0x0100 + self.sp % 0x100;
        }
    }

    fn push16<B: Bus>(&mut self, bus: &mut B, value: u16)
        ensures
            kept(*old(self), *final(self)),
            final(self).sp == sp_after_push(sp_after_push(old(self).sp, old(self).emulation), old(self).emulation),
            final(self).p == old(self).p,
            final(self).pc == old(self).pc,
            final(self).pb == old(self).pb,
            final(self).a == old(self).a,
    {
        self.push_word(bus, value);
        assert(sp_after_pushes(old(self).sp, old(self).emulation, 0) == old(self).sp);
        assert(sp_after_pushes(old(self).sp, old(self).emulation, 1) == sp_after_push(old(self).sp, old(self).emulation));
    }

    /// [`Cpu::push16`], with all it hands to the bus: the high byte, then
    /// the low one.
    fn push_word<B: Bus>(&mut self, bus: &mut B, value: u16)
        ensures
            kept(*old(self), *final(self)),
            *final(self) == (Cpu {
                sp: sp_after_pushes(old(self).sp, old(self).emulation, 2),
                writes: ((old(self).writes + 2) % 0x1_0000_0000_0000_0000) as u64,
                log: final(self).log,
                ..*old(self)
            }),
            logged(*old(self), *final(self), push_writes(old(self).sp, old(self).emulation, seq![(value >> 8u16) as u8, value as u8])),
    {
        let ghost c = *self;
        self.push_byte(bus, (value >> 8) as u8);
        let ghost m = *self;
        self.push_byte(bus, value as u8);
        proof {
            let e = c.emulation;
            assert(sp_after_pushes(c.sp, e, 0) == c.sp);
            assert(sp_after_pushes(c.sp, e, 1) == sp_after_push(c.sp, e));
            assert(sp_after_pushes(c.sp, e, 2) == sp_after_push(sp_after_pushes(c.sp, e, 1), e));
            lemma_push_writes_add(c.sp, e, seq![(value >> 8u16) as u8], seq![value as u8]);
            assert(seq![(value >> 8u16) as u8] + seq![value as u8] =~= seq![(value >> 8u16) as u8, value as u8]);
        }
    }

    fn pull8<B: Bus>(&mut self, bus: &mut B) -> (v: u8)
        ensures
            kept(*old(self), *final(self)),
            final(self).p == old(self).p,
            final(self).pc == old(self).pc,
            final(self).pb == old(self).pb,
            final(self).a == old(self).a,
            ({
                let sp = sp_after_pull(old(self).sp, old(self).emulation);
                traced(Cpu { sp, ..*old(self) }, *final(self), data_reads(*old(self), seq![(sp as u32) & 0xFF_FFFF]))
                    && logged(*old(self), *final(self), seq![BusEvent::Read((sp as u32) & 0xFF_FFFF, v)])
            }),
    {
        self.sp = self.sp.wrapping_add(1);
        if self.emulation {
            self.sp = 0x0100 | (self.sp & 0xFF);
        }
        self.read8(bus, self.sp as u32)
    }

    fn pull16<B: Bus>(&mut self, bus: &mut B) -> (v: u16)
        ensures
            kept(*old(self), *final(self)),
            final(self).p == old(self).p,
            final(self).pc == old(self).pc,
            final(self).pb == old(self).pb,
            final(self).a == old(self).a,
            ({
                let sp1 = sp_after_pull(old(self).sp, old(self).emulation);
                let sp2 = sp_after_pull(sp1, old(self).emulation);
                traced(
                    Cpu { sp: sp2, ..*old(self) },
                    *final(self),
                    data_reads(*old(self), seq![(sp1 as u32) & 0xFF_FFFF, (sp2 as u32) & 0xFF_FFFF]),
                )
            }),
            logged(*old(self), *final(self), pull_reads(old(self).sp, old(self).emulation, v)),
    {
        let ghost c = *self;
        let lo = self.pull8(bus) as u16;
        let ghost m = *self;
        let hi = self.pull8(bus) as u16;
        proof {
            let sp1 = sp_after_pull(c.sp, c.emulation);
            let sp2 = sp_after_pull(sp1, c.emulation);
            lemma_trace_trans(
                c.trace_data_reads,
                m.trace_data_reads,
                self.trace_data_reads,
                data_reads(c, seq![(sp1 as u32) & 0xFF_FFFF]),
                data_reads(m, seq![(sp2 as u32) & 0xFF_FFFF]),
            );
            lemma_grows_trans(c, m, *self);
            assert(data_reads(c, seq![(sp1 as u32) & 0xFF_FFFF]) + data_reads(m, seq![(sp2 as u32) & 0xFF_FFFF])
                =~= data_reads(c, seq![(sp1 as u32) & 0xFF_FFFF, (sp2 as u32) & 0xFF_FFFF]));
            lemma_bytes(lo, hi);
            assert(self.log@ =~= c.log@ + pull_reads(c.sp, c.emulation, lo | (hi << 8)));
        }
        lo | (hi << 8)
    }

    // --- Addressing modes ---------------------------------------------
    // Each returns the 24-bit effective address.
    fn db_addr(&self, offset: u16) -> (r: u32)
        ensures
            r == self.db * 0x1_0000 + offset,
    {
        proof {
            lemma_bank_offset(self.db, offset);
        }
        ((self.db as u32) << 16) | offset as u32
    }

    fn am_abs<B: Bus>(&mut self, bus: &mut B) -> (r: u32)
        ensures
            kept(*old(self), *final(self)),
            final(self).p == old(self).p,
            traced(past_operand(*old(self), 2), *final(self), Seq::empty()),
            r / 0x1_0000 == old(self).db,
            r < 0x100_0000,
            logged(*old(self), *final(self), fetch_reads(*old(self), word_bytes((r % 0x1_0000) as u16))),
    {
        let o = self.fetch16(bus);
        self.db_addr(o)
    }

    fn am_abs_x<B: Bus>(&mut self, bus: &mut B) -> (r: u32)
        ensures
            kept(*old(self), *final(self)),
            final(self).p == old(self).p,
            traced(past_operand(*old(self), 2), *final(self), Seq::empty()),
            exists|o: int| #[trigger] is_word(o) && r == (old(self).db * 0x1_0000 + o + old(self).x) % 0x100_0000,
    {
        let o = self.fetch16(bus);
        let sum = self.db_addr(o).wrapping_add(self.x as u32);
        let r = sum & 0xFF_FFFF;
        proof {
            lemma_masks(sum, 0);
            assert(is_word(o as int));
        }
        r
    }

    fn am_abs_y<B: Bus>(&mut self, bus: &mut B) -> (r: u32)
        ensures
            kept(*old(self), *final(self)),
            final(self).p == old(self).p,
            traced(past_operand(*old(self), 2), *final(self), Seq::empty()),
            exists|o: int| #[trigger] is_word(o) && r == (old(self).db * 0x1_0000 + o + old(self).y) % 0x100_0000,
    {
        let o = self.fetch16(bus);
        let sum = self.db_addr(o).wrapping_add(self.y as u32);
        let r = sum & 0xFF_FFFF;
        proof {
            lemma_masks(sum, 0);
            assert(is_word(o as int));
        }
        r
    }

    fn am_long<B: Bus>(&mut self, bus: &mut B) -> (r: u32)
        ensures
            kept(*old(self), *final(self)),
            final(self).p == old(self).p,
            traced(past_operand(*old(self), 3), *final(self), Seq::empty()),
            r < 0x100_0000,
    {
        self.fetch24(bus)
    }

    fn am_long_x<B: Bus>(&mut self, bus: &mut B) -> (r: u32)
        ensures
            kept(*old(self), *final(self)),
            final(self).p == old(self).p,
            traced(past_operand(*old(self), 3), *final(self), Seq::empty()),
            exists|l: int| #[trigger] is_long(l) && r == (l + old(self).x) % 0x100_0000,
    {
        let l = self.fetch24(bus);
        let r = (l + self.x as u32) & 0xFF_FFFF;
        proof {
            lemma_masks((l + self.x as u32) as u32, 0);
            assert(is_long(l as int));
        }
        r
    }

    fn dp_base<B: Bus>(&mut self, bus: &mut B) -> (r: u16)
        ensures
            kept(*old(self), *final(self)),
            final(self).p == old(self).p,
            final(self).sp == old(self).sp,
            final(self).pb == old(self).pb,
            traced(past_operand(*old(self), 1), *final(self), Seq::empty()),
            exists|o: int| #[trigger] is_byte(o) && r == add16(old(self).dp, o),
            exists|o: u8|
                #![trigger fetch_reads(*old(self), seq![o])]
                r == add16(old(self).dp, o as int) && logged(*old(self), *final(self), fetch_reads(*old(self), seq![o])),
    {
        let b = self.fetch8(bus);
        let o = b as u16;
        proof {
            assert(is_byte(o as int));
            assert(past_operand(*old(self), 0).spec_pc_addr() == old(self).spec_pc_addr());
            assert(fetch_reads(*old(self), seq![b]) =~= seq![BusEvent::Read(old(self).spec_pc_addr() & 0xFF_FFFF, b)]);
        }
        self.dp.wrapping_add(o)
    }

    fn am_dp<B: Bus>(&mut self, bus: &mut B) -> (r: u32)
        ensures
            kept(*old(self), *final(self)),
            final(self).p == old(self).p,
            traced(past_operand(*old(self), 1), *final(self), Seq::empty()),
            exists|o: int| #[trigger] is_byte(o) && r == add16(old(self).dp, o) + WRAPS_IN_BANK,
            exists|o: u8|
                #![trigger fetch_reads(*old(self), seq![o])]
                r == add16(old(self).dp, o as int) + WRAPS_IN_BANK && logged(*old(self), *final(self), fetch_reads(*old(self), seq![o])),
    {
        let d = self.dp_base(bus);
        proof {
            lemma_masks(0, d as u32);
        }
        d as u32 | WRAPS_IN_BANK
    }

    fn am_dp_x<B: Bus>(&mut self, bus: &mut B) -> (r: u32)
        ensures
            kept(*old(self), *final(self)),
            final(self).p == old(self).p,
            traced(past_operand(*old(self), 1), *final(self), Seq::empty()),
            exists|o: int| #[trigger] is_byte(o) && r == add16(add16(old(self).dp, o), old(self).x as int) + WRAPS_IN_BANK,
    {
        let d = self.dp_base(bus).wrapping_add(self.x);
        proof {
            lemma_masks(0, d as u32);
        }
        d as u32 | WRAPS_IN_BANK
    }

    fn am_dp_y<B: Bus>(&mut self, bus: &mut B) -> (r: u32)
        ensures
            kept(*old(self), *final(self)),
            final(self).p == old(self).p,
            traced(past_operand(*old(self), 1), *final(self), Seq::empty()),
            exists|o: int| #[trigger] is_byte(o) && r == add16(add16(old(self).dp, o), old(self).y as int) + WRAPS_IN_BANK,
    {
        let d = self.dp_base(bus).wrapping_add(self.y);
        proof {
            lemma_masks(0, d as u32);
        }
        d as u32 | WRAPS_IN_BANK
    }

    fn am_dp_ind<B: Bus>(&mut self, bus: &mut B) -> (r: u32)
        ensures
            kept(*old(self), *final(self)),
            final(self).p == old(self).p,
            exists|o: int| #[trigger] is_byte(o) && traced(past_operand(*old(self), 1), *final(self), pointer_reads(*old(self), add16(old(self).dp, o), 2)) && r / 0x1_0000 == old(self).db && r < 0x100_0000,
    {
        let ghost c = *self;
        let d = self.dp_base(bus);
        let ghost m = *self;
        let ghost od: int = choose|o: int| #[trigger] is_byte(o) && d == add16(c.dp, o);
        let p = self.read16_bank0(bus, d);
        let r = self.db_addr(p);
        proof {
            let pr = pointer_reads(c, d, 2);
            assert(Seq::new(2 as nat, |k: int| (add16(d, k) as u32) & 0xFF_FFFF) =~= seq![(d as u32) & 0xFF_FFFF, (add16(d, 1) as u32) & 0xFF_FFFF]);
            assert(data_reads(m, Seq::new(2 as nat, |k: int| (add16(d, k) as u32) & 0xFF_FFFF)) =~= pr);
            lemma_trace_trans(c.trace_data_reads, m.trace_data_reads, self.trace_data_reads, Seq::empty(), pr);
            lemma_grows_trans(c, m, *self);
            assert(Seq::<(u32, u32)>::empty() + pr =~= pr);
            assert(is_byte(od));
        }
        r
    }

    fn am_dp_x_ind<B: Bus>(&mut self, bus: &mut B) -> (r: u32)
        ensures
            kept(*old(self), *final(self)),
            final(self).p == old(self).p,
            exists|o: int| #[trigger] is_byte(o) && traced(past_operand(*old(self), 1), *final(self), pointer_reads(*old(self), add16(add16(old(self).dp, o), old(self).x as int), 2)) && r / 0x1_0000 == old(self).db && r < 0x100_0000,
    {
        let ghost c = *self;
        let d = self.dp_base(bus).wrapping_add(self.x);
        let ghost m = *self;
        let ghost od: int = choose|o: int| #[trigger] is_byte(o) && d == add16(add16(c.dp, o), c.x as int);
        let p = self.read16_bank0(bus, d);
        let r = self.db_addr(p);
        proof {
            let pr = pointer_reads(c, d, 2);
            assert(Seq::new(2 as nat, |k: int| (add16(d, k) as u32) & 0xFF_FFFF) =~= seq![(d as u32) & 0xFF_FFFF, (add16(d, 1) as u32) & 0xFF_FFFF]);
            assert(data_reads(m, Seq::new(2 as nat, |k: int| (add16(d, k) as u32) & 0xFF_FFFF)) =~= pr);
            lemma_trace_trans(c.trace_data_reads, m.trace_data_reads, self.trace_data_reads, Seq::empty(), pr);
            lemma_grows_trans(c, m, *self);
            assert(Seq::<(u32, u32)>::empty() + pr =~= pr);
            assert(is_byte(od));
        }
        r
    }

    fn am_dp_ind_y<B: Bus>(&mut self, bus: &mut B) -> (r: u32)
        ensures
            kept(*old(self), *final(self)),
            final(self).p == old(self).p,
            exists|o: int| #[trigger] is_byte(o) && traced(past_operand(*old(self), 1), *final(self), pointer_reads(*old(self), add16(old(self).dp, o), 2)) && exists|w: int| #[trigger] is_word(w) && r == (old(self).db * 0x1_0000 + w + old(self).y) % 0x100_0000,
    {
        let ghost c = *self;
        let d = self.dp_base(bus);
        let ghost m = *self;
        let ghost od: int = choose|o: int| #[trigger] is_byte(o) && d == add16(c.dp, o);
        let p = self.read16_bank0(bus, d);
        let sum = self.db_addr(p).wrapping_add(self.y as u32);
        let r = sum & 0xFF_FFFF;
        proof {
            let pr = pointer_reads(c, d, 2);
            assert(Seq::new(2 as nat, |k: int| (add16(d, k) as u32) & 0xFF_FFFF) =~= seq![(d as u32) & 0xFF_FFFF, (add16(d, 1) as u32) & 0xFF_FFFF]);
            assert(data_reads(m, Seq::new(2 as nat, |k: int| (add16(d, k) as u32) & 0xFF_FFFF)) =~= pr);
            lemma_trace_trans(c.trace_data_reads, m.trace_data_reads, self.trace_data_reads, Seq::empty(), pr);
            lemma_grows_trans(c, m, *self);
            assert(Seq::<(u32, u32)>::empty() + pr =~= pr);
            lemma_masks(sum, 0);
            assert(is_word(p as int));
            assert(is_byte(od));
        }
        r
    }

    fn am_dp_ind_long<B: Bus>(&mut self, bus: &mut B) -> (r: u32)
        ensures
            kept(*old(self), *final(self)),
            final(self).p == old(self).p,
            exists|o: int| #[trigger] is_byte(o) && traced(past_operand(*old(self), 1), *final(self), pointer_reads(*old(self), add16(old(self).dp, o), 3)) && r < 0x100_0000,
    {
        let ghost c = *self;
        let d = self.dp_base(bus);
        let ghost m = *self;
        let ghost od: int = choose|o: int| #[trigger] is_byte(o) && d == add16(c.dp, o);
        let r = self.read24_bank0(bus, d);
        proof {
            let pr = pointer_reads(c, d, 3);
            assert(Seq::new(3 as nat, |k: int| (add16(d, k) as u32) & 0xFF_FFFF) =~= seq![(d as u32) & 0xFF_FFFF, (add16(d, 1) as u32) & 0xFF_FFFF, (add16(d, 2) as u32) & 0xFF_FFFF]);
            assert(data_reads(m, Seq::new(3 as nat, |k: int| (add16(d, k) as u32) & 0xFF_FFFF)) =~= pr);
            lemma_trace_trans(c.trace_data_reads, m.trace_data_reads, self.trace_data_reads, Seq::empty(), pr);
            lemma_grows_trans(c, m, *self);
            assert(Seq::<(u32, u32)>::empty() + pr =~= pr);
            assert(is_byte(od));
        }
        r
    }

    fn am_dp_ind_long_y<B: Bus>(&mut self, bus: &mut B) -> (r: u32)
        ensures
            kept(*old(self), *final(self)),
            final(self).p == old(self).p,
            exists|o: int| #[trigger] is_byte(o) && traced(past_operand(*old(self), 1), *final(self), pointer_reads(*old(self), add16(old(self).dp, o), 3)) && exists|l: int| #[trigger] is_long(l) && r == (l + old(self).y) % 0x100_0000,
    {
        let ghost c = *self;
        let d = self.dp_base(bus);
        let ghost m = *self;
        let ghost od: int = choose|o: int| #[trigger] is_byte(o) && d == add16(c.dp, o);
        let l = self.read24_bank0(bus, d);
        let r = (l + self.y as u32) & 0xFF_FFFF;
        proof {
            let pr = pointer_reads(c, d, 3);
            assert(Seq::new(3 as nat, |k: int| (add16(d, k) as u32) & 0xFF_FFFF) =~= seq![(d as u32) & 0xFF_FFFF, (add16(d, 1) as u32) & 0xFF_FFFF, (add16(d, 2) as u32) & 0xFF_FFFF]);
            assert(data_reads(m, Seq::new(3 as nat, |k: int| (add16(d, k) as u32) & 0xFF_FFFF)) =~= pr);
            lemma_trace_trans(c.trace_data_reads, m.trace_data_reads, self.trace_data_reads, Seq::empty(), pr);
            lemma_grows_trans(c, m, *self);
            assert(Seq::<(u32, u32)>::empty() + pr =~= pr);
            lemma_masks((l + self.y as u32) as u32, 0);
            assert(is_long(l as int));
            assert(is_byte(od));
        }
        r
    }

    fn am_sr<B: Bus>(&mut self, bus: &mut B) -> (r: u32)
        ensures
            kept(*old(self), *final(self)),
            final(self).p == old(self).p,
            traced(past_operand(*old(self), 1), *final(self), Seq::empty()),
            exists|o: int| #[trigger] is_byte(o) && r == add16(old(self).sp, o) + WRAPS_IN_BANK,
    {
        let o = self.fetch8(bus) as u16;
        let d = self.sp.wrapping_add(o);
        proof {
            lemma_masks(0, d as u32);
            assert(is_byte(o as int));
        }
        d as u32 | WRAPS_IN_BANK
    }

    fn am_sr_ind_y<B: Bus>(&mut self, bus: &mut B) -> (r: u32)
        ensures
            kept(*old(self), *final(self)),
            final(self).p == old(self).p,
            exists|o: int| #[trigger] is_byte(o) && traced(past_operand(*old(self), 1), *final(self), pointer_reads(*old(self), add16(old(self).sp, o), 2)) && exists|w: int| #[trigger] is_word(w) && r == (old(self).db * 0x1_0000 + w + old(self).y) % 0x100_0000,
    {
        let ghost c = *self;
        let o = self.fetch8(bus) as u16;
        let d = self.sp.wrapping_add(o);
        let ghost m = *self;
        let p = self.read16_bank0(bus, d);
        let sum = self.db_addr(p).wrapping_add(self.y as u32);
        let r = sum & 0xFF_FFFF;
        proof {
            let pr = pointer_reads(c, d, 2);
            assert(Seq::new(2 as nat, |k: int| (add16(d, k) as u32) & 0xFF_FFFF) =~= seq![(d as u32) & 0xFF_FFFF, (add16(d, 1) as u32) & 0xFF_FFFF]);
            assert(data_reads(m, Seq::new(2 as nat, |k: int| (add16(d, k) as u32) & 0xFF_FFFF)) =~= pr);
            lemma_trace_trans(c.trace_data_reads, m.trace_data_reads, self.trace_data_reads, Seq::empty(), pr);
            lemma_grows_trans(c, m, *self);
            assert(Seq::<(u32, u32)>::empty() + pr =~= pr);
            lemma_masks(sum, 0);
            assert(is_word(p as int));
            assert(is_byte(o as int));
        }
        r
    }

    fn am_imm_m<B: Bus>(&mut self, _bus: &mut B) -> (r: u32)
        ensures
            kept(*old(self), *final(self)),
            final(self).p == old(self).p,
            *final(self) == (Cpu { pc: add16(old(self).pc, if acc8(*old(self)) { 1int } else { 2int }), ..*old(self) }),
            r == old(self).spec_pc_addr() + WRAPS_IN_BANK,
    {
        let pa = self.pc_addr();
        proof {
            lemma_masks(0, pa);
        }
        let a = pa | WRAPS_IN_BANK;
        self.pc = self.pc.wrapping_add(if self.m8() { 1 } else { 2 });
        a
    }

    fn am_imm_x<B: Bus>(&mut self, _bus: &mut B) -> (r: u32)
        ensures
            kept(*old(self), *final(self)),
            final(self).p == old(self).p,
            *final(self) == (Cpu { pc: add16(old(self).pc, if index8(*old(self)) { 1int } else { 2int }), ..*old(self) }),
            r == old(self).spec_pc_addr() + WRAPS_IN_BANK,
    {
        let pa = self.pc_addr();
        proof {
            lemma_masks(0, pa);
        }
        let a = pa | WRAPS_IN_BANK;
        self.pc = self.pc.wrapping_add(if self.x8() { 1 } else { 2 });
        a
    }

    // --- ALU -----------------------------------------------------------
    fn op_ora(&mut self, v: u16)
        ensures
            kept(*old(self), *final(self)),
            *final(self) == (Cpu {
                a: acc_merge(*old(self), old(self).a | v),
                p: with_nz(old(self).p, acc_merge(*old(self), old(self).a | v), acc8(*old(self))),
                ..*old(self)
            }),
    {
        self.a = if self.m8() {
            (self.a & 0xFF00) | ((self.a | v) & 0xFF)
        } else {
            self.a | v
        };
        self.set_nz(self.a, self.m8());
    }

    fn op_and(&mut self, v: u16)
        ensures
            kept(*old(self), *final(self)),
            *final(self) == (Cpu {
                a: acc_merge(*old(self), old(self).a & v),
                p: with_nz(old(self).p, acc_merge(*old(self), old(self).a & v), acc8(*old(self))),
                ..*old(self)
            }),
    {
        self.a = if self.m8() {
            (self.a & 0xFF00) | ((self.a & v) & 0xFF)
        } else {
            self.a & v
        };
        self.set_nz(self.a, self.m8());
    }

    fn op_eor(&mut self, v: u16)
        ensures
            kept(*old(self), *final(self)),
            *final(self) == (Cpu {
                a: acc_merge(*old(self), old(self).a ^ v),
                p: with_nz(old(self).p, acc_merge(*old(self), old(self).a ^ v), acc8(*old(self))),
                ..*old(self)
            }),
    {
        self.a = if self.m8() {
            (self.a & 0xFF00) | ((self.a ^ v) & 0xFF)
        } else {
            self.a ^ v
        };
        self.set_nz(self.a, self.m8());
    }

    fn op_adc(&mut self, v: u16)
        ensures
            kept(*old(self), *final(self)),
            *final(self) == adc_effect(*old(self), v, false),
    {
        self.add_to_a(v, false);
    }

    /// A - M - !C is A + !M + C.
    fn op_sbc(&mut self, v: u16)
        ensures
            kept(*old(self), *final(self)),
            *final(self) == adc_effect(*old(self), !v, true),
    {
        self.add_to_a(!v, true);
    }

    /// Adds `v` and the carry to the accumulator; `subtract` says `v` is
    /// an inverted subtrahend. In decimal mode the ALU adds a digit at a
    /// time and corrects each before carrying into the next: after an
    /// addition a digit over 9 has 6 added, after a subtraction a digit
    /// that produced no carry has 6 taken away. The overflow flag comes
    /// from the sum before the top digit is corrected. Digits that are
    /// not valid BCD come out as they do on the hardware.
    fn add_to_a(&mut self, v: u16, subtract: bool)
        ensures
            kept(*old(self), *final(self)),
            *final(self) == adc_effect(*old(self), v, subtract),
    {
        let width8 = self.m8();
        let (mask, sign, digits): (u16, i32, u32) = if width8 {
            (0xFF, 0x80, 2)
        } else {
            (0xFFFF, 0x8000, 4)
        };
        let a = (self.a & mask) as i32;
        let v = (v & mask) as i32;
        let mut carry: i32 = if self.flag(Flags::C) {
            1
        } else {
            0
        };
        let decimal = self.flag(Flags::D);
        let ghost c0 = carry;
        let mut sum = a + v + carry;
        if decimal {
            sum = 0;
            let mut digit: u32 = 0;
            while digit < digits
                invariant
                    digit <= digits,
                    digits == 2 || digits == 4,
                    0 <= a <= 0xFFFF,
                    0 <= v <= 0xFFFF,
                    0 <= carry <= 1,
                    -0x10_0000 <= sum <= 0x10_0000,
                    digit < digits ==> (sum, carry) == bcd_before(a, v, c0, subtract, digit as nat),
                    digit == digits ==> ({
                        let top = bcd_before(a, v, c0, subtract, (digits - 1) as nat);
                        sum == bcd_raw(a, v, digits - 1, top.0, top.1)
                    }),
                decreases digits - digit,
            {
                let unit: i32 = if digit == 0 {
                    1
                } else if digit == 1 {
                    0x10
                } else if digit == 2 {
                    0x100
                } else {
                    0x1000
                };
                let below = unit - 1;
                let nibble = 0xF * unit;
                assert(0 <= a & nibble <= nibble && 0 <= v & nibble <= nibble && 0 <= sum & below <= below)
                    by (bit_vector)
                    requires
                        0 <= a <= 0xFFFF,
                        0 <= v <= 0xFFFF,
                        0 <= nibble <= 0xF000,
                        0 <= below <= 0xFFF,
                ;
                proof {
                    assert(unit == digit_unit(digit as int));
                    assert((nibble | below) == 0x10 * unit - 1) by (bit_vector)
                        requires
                            unit == 1 || unit == 0x10 || unit == 0x100 || unit == 0x1000,
                            nibble == 0xF * unit,
                            below == unit - 1,
                    ;
                }
                sum = (a & nibble) + (v & nibble) + carry * unit + (sum & below);
                if digit + 1 < digits {
                    sum = correct(sum, digit, subtract);
                    carry = if sum > (nibble | below) {
                        1
                    } else {
                        0
                    };
                }
                digit = digit + 1;
            }
        }
        self.set_flag(Flags::V, !(a ^ v) & (a ^ sum) & sign != 0);
        if decimal {
            sum = correct(sum, digits - 1, subtract);
        }
        self.set_flag(Flags::C, sum > mask as i32);
        let low = (sum as u16) & mask;
        self.a = (self.a & !mask) | low;
        self.set_nz(self.a, width8);
    }

    fn op_compare(&mut self, reg: u16, v: u16, width8: bool)
        ensures
            kept(*old(self), *final(self)),
            final(self).a == old(self).a,
            ({
                let r: u16 = if width8 { reg & 0xFF } else { reg };
                let m: u16 = if width8 { v & 0xFF } else { v };
                *final(self) == (Cpu {
                    p: with_nz(set_bit(old(self).p, 1, r >= m), ((r - m + 0x1_0000) % 0x1_0000) as u16, width8),
                    ..*old(self)
                })
            }),
    {
        let (r, m) = if width8 {
            (reg & 0xFF, v & 0xFF)
        } else {
            (reg, v)
        };
        let diff = r.wrapping_sub(m);
        self.set_flag(Flags::C, r >= m);
        self.set_nz(diff, width8);
    }

    fn op_bit(&mut self, v: u16)
        ensures
            kept(*old(self), *final(self)),
            final(self).a == old(self).a,
            *final(self) == (Cpu {
                p: if acc8(*old(self)) {
                    set_bit(set_bit(set_bit(old(self).p, 2, old(self).a & v & 0xFF == 0), 0x80, v & 0x80 != 0), 0x40, v & 0x40 != 0)
                } else {
                    set_bit(set_bit(set_bit(old(self).p, 2, old(self).a & v == 0), 0x80, v & 0x8000 != 0), 0x40, v & 0x4000 != 0)
                },
                ..*old(self)
            }),
    {
        if self.m8() {
            self.set_flag(Flags::Z, (self.a & v & 0xFF) == 0);
            self.set_flag(Flags::N, v & 0x80 != 0);
            self.set_flag(Flags::V, v & 0x40 != 0);
        } else {
            self.set_flag(Flags::Z, (self.a & v) == 0);
            self.set_flag(Flags::N, v & 0x8000 != 0);
            self.set_flag(Flags::V, v & 0x4000 != 0);
        }
    }

    // Read-modify-write helpers operate on a value of accumulator width.
    fn rmw_asl(&mut self, v: u16) -> (r: u16)
        ensures
            kept(*old(self), *final(self)),
            final(self).a == old(self).a,
            r == acc_result(0x0A, v, acc8(*old(self)), old(self).p & 1 != 0),
            *final(self) == (Cpu { p: acc_status(0x0A, old(self).p, v, acc8(*old(self))), ..*old(self) }),
    {
        if self.m8() {
            self.set_flag(Flags::C, v & 0x80 != 0);
            let r = (v << 1) & 0xFF;
            self.set_nz(r, true);
            r
        } else {
            self.set_flag(Flags::C, v & 0x8000 != 0);
            let r = v << 1;
            self.set_nz(r, false);
            r
        }
    }

    fn rmw_lsr(&mut self, v: u16) -> (r: u16)
        ensures
            kept(*old(self), *final(self)),
            final(self).a == old(self).a,
            r == acc_result(0x4A, v, acc8(*old(self)), old(self).p & 1 != 0),
            *final(self) == (Cpu { p: acc_status(0x4A, old(self).p, v, acc8(*old(self))), ..*old(self) }),
    {
        let v = if self.m8() {
            v & 0xFF
        } else {
            v
        };
        self.set_flag(Flags::C, v & 1 != 0);
        let r = v >> 1;
        self.set_nz(r, self.m8());
        r
    }

    fn rmw_rol(&mut self, v: u16) -> (r: u16)
        ensures
            kept(*old(self), *final(self)),
            final(self).a == old(self).a,
            r == acc_result(0x2A, v, acc8(*old(self)), old(self).p & 1 != 0),
            *final(self) == (Cpu { p: acc_status(0x2A, old(self).p, v, acc8(*old(self))), ..*old(self) }),
    {
        let c: u16 = if self.flag(Flags::C) {
            1
        } else {
            0
        };
        if self.m8() {
            self.set_flag(Flags::C, v & 0x80 != 0);
            let r = ((v << 1) | c) & 0xFF;
            self.set_nz(r, true);
            r
        } else {
            self.set_flag(Flags::C, v & 0x8000 != 0);
            let r = (v << 1) | c;
            self.set_nz(r, false);
            r
        }
    }

    fn rmw_ror(&mut self, v: u16) -> (r: u16)
        ensures
            kept(*old(self), *final(self)),
            final(self).a == old(self).a,
            r == acc_result(0x6A, v, acc8(*old(self)), old(self).p & 1 != 0),
            *final(self) == (Cpu { p: acc_status(0x6A, old(self).p, v, acc8(*old(self))), ..*old(self) }),
    {
        let c: u16 = if self.flag(Flags::C) {
            1
        } else {
            0
        };
        if self.m8() {
            let v = v & 0xFF;
            self.set_flag(Flags::C, v & 1 != 0);
            let r = (v >> 1) | (c << 7);
            self.set_nz(r, true);
            r
        } else {
            self.set_flag(Flags::C, v & 1 != 0);
            let r = (v >> 1) | (c << 15);
            self.set_nz(r, false);
            r
        }
    }

    fn rmw_inc(&mut self, v: u16) -> (r: u16)
        ensures
            kept(*old(self), *final(self)),
            final(self).a == old(self).a,
            r == acc_result(0x1A, v, acc8(*old(self)), old(self).p & 1 != 0),
            *final(self) == (Cpu { p: acc_status(0x1A, old(self).p, v, acc8(*old(self))), ..*old(self) }),
    {
        let r = if self.m8() {
            (v.wrapping_add(1)) & 0xFF
        } else {
            v.wrapping_add(1)
        };
        self.set_nz(r, self.m8());
        r
    }

    fn rmw_dec(&mut self, v: u16) -> (r: u16)
        ensures
            kept(*old(self), *final(self)),
            final(self).a == old(self).a,
            r == acc_result(0x3A, v, acc8(*old(self)), old(self).p & 1 != 0),
            *final(self) == (Cpu { p: acc_status(0x3A, old(self).p, v, acc8(*old(self))), ..*old(self) }),
    {
        let r = if self.m8() {
            (v.wrapping_sub(1)) & 0xFF
        } else {
            v.wrapping_sub(1)
        };
        self.set_nz(r, self.m8());
        r
    }

    fn rmw(&mut self, op: Rmw, v: u16) -> (r: u16)
        ensures
            kept(*old(self), *final(self)),
            final(self).a == old(self).a,
            r == acc_result(op.opcode(), v, acc8(*old(self)), old(self).p & 1 != 0),
            *final(self) == (Cpu { p: acc_status(op.opcode(), old(self).p, v, acc8(*old(self))), ..*old(self) }),
    {
        match op {
            Rmw::Asl => self.rmw_asl(v),
            Rmw::Lsr => self.rmw_lsr(v),
            Rmw::Rol => self.rmw_rol(v),
            Rmw::Ror => self.rmw_ror(v),
            Rmw::Inc => self.rmw_inc(v),
            Rmw::Dec => self.rmw_dec(v),
        }
    }

    /// Reads the operand at `addr`, shifts, rotates, increments or
    /// decrements it, and writes it back: the flags follow the value read,
    /// which comes from the bus.
    fn rmw_mem<B: Bus>(&mut self, bus: &mut B, addr: u32, op: Rmw)
        ensures
            kept(*old(self), *final(self)),
            exists|v: u16|
                #![trigger acc_status(op.opcode(), old(self).p, v, acc8(*old(self)))]
                traced(
                    Cpu {
                        p: acc_status(op.opcode(), old(self).p, v, acc8(*old(self))),
                        writes: ((old(self).writes + if acc8(*old(self)) { 1int } else { 2int }) % 0x1_0000_0000_0000_0000) as u64,
                        ..*old(self)
                    },
                    *final(self),
                    data_reads(*old(self), if acc8(*old(self)) { seq![addr & 0xFF_FFFF] } else { seq![addr & 0xFF_FFFF, spec_next_addr(addr) & 0xFF_FFFF] }),
                ) && logged(*old(self), *final(self), value_reads(addr, v, acc8(*old(self))) + value_writes(
                    addr,
                    acc_result(op.opcode(), v, acc8(*old(self)), old(self).p & 1 != 0),
                    acc8(*old(self)),
                )),
    {
        let ghost c = *self;
        let v = self.read_m(bus, addr);
        let ghost m = *self;
        let r = self.rmw(op, v);
        let ghost k = *self;
        self.write_m(bus, addr, r);
        proof {
            assert(grows(m, k));
            lemma_grows_trans(m, k, *self);
            lemma_grows_trans(c, m, *self);
            assert(self.log@ =~= c.log@ + (value_reads(addr, v, acc8(c)) + value_writes(addr, r, acc8(c))));
        }
    }

    fn rmw_acc(&mut self, op: Rmw)
        ensures
            kept(*old(self), *final(self)),
            ({
                let m8 = acc8(*old(self));
                let v = if m8 {
                    old(self).a & 0xFF
                } else {
                    old(self).a
                };
                let r = acc_result(op.opcode(), v, m8, old(self).p & 1 != 0);
                *final(self) == (Cpu {
                    a: if m8 {
                        (old(self).a & 0xFF00) | (r & 0xFF)
                    } else {
                        r
                    },
                    p: acc_status(op.opcode(), old(self).p, v, m8),
                    ..*old(self)
                })
            }),
    {
        let v = if self.m8() {
            self.a & 0xFF
        } else {
            self.a
        };
        let r = self.rmw(op, v);
        self.a = if self.m8() {
            (self.a & 0xFF00) | (r & 0xFF)
        } else {
            r
        };
    }

    fn set_a(&mut self, v: u16)
        ensures
            kept(*old(self), *final(self)),
            ({
                let a = if acc8(*old(self)) {
                    (old(self).a & 0xFF00) | (v & 0xFF)
                } else {
                    v
                };
                *final(self) == (Cpu { a, p: with_nz(old(self).p, a, acc8(*old(self))), ..*old(self) })
            }),
    {
        self.a = if self.m8() {
            (self.a & 0xFF00) | (v & 0xFF)
        } else {
            v
        };
        self.set_nz(self.a, self.m8());
    }

    fn set_x(&mut self, v: u16)
        ensures
            old(self).wf() ==> final(self).wf(),
            same_mode(*old(self), *final(self)),
            final(self).y == old(self).y,
            final(self).steps == old(self).steps,
            ({
                let x = if index8(*old(self)) {
                    v % 0x100
                } else {
                    v
                };
                *final(self) == (Cpu { x, p: with_nz(old(self).p, x, index8(*old(self))), ..*old(self) })
            }),
    {
        let x8 = self.x8();
        self.x = if x8 {
            v % 0x100
        } else {
            v
        };
        self.set_nz(self.x, x8);
    }

    fn set_y(&mut self, v: u16)
        ensures
            old(self).wf() ==> final(self).wf(),
            same_mode(*old(self), *final(self)),
            final(self).x == old(self).x,
            final(self).steps == old(self).steps,
            ({
                let y = if index8(*old(self)) {
                    v % 0x100
                } else {
                    v
                };
                *final(self) == (Cpu { y, p: with_nz(old(self).p, y, index8(*old(self))), ..*old(self) })
            }),
    {
        let x8 = self.x8();
        self.y = if x8 {
            v % 0x100
        } else {
            v
        };
        self.set_nz(self.y, x8);
    }

    /// Fetches the displacement of a relative branch and, where `cond`
    /// holds, jumps by it; a jump back is noted as a loop.
    fn branch<B: Bus>(&mut self, bus: &mut B, cond: bool)
        ensures
            kept(*old(self), *final(self)),
            exists|rel: u8|
                #![trigger branch_target(*old(self), cond, rel)]
                traced(branch_target(*old(self), cond, rel), *final(self), Seq::empty()) && logged(
                    *old(self),
                    *final(self),
                    fetch_reads(*old(self), seq![rel]),
                ),
    {
        let b = self.fetch8(bus);
        let rel = b as i8;
        let ghost c1 = past_operand(*old(self), 1);
        let ghost t = *self;
        if cond {
            let pc = self.pc;
            proof {
                assert((rel as i16 as u16) as int == if b < 0x80 { b as int } else { b + 0xFF00 }) by (bit_vector)
                    requires
                        rel == b as i8,
                ;
                assert((rel < 0) == (b >= 0x80)) by (bit_vector)
                    requires
                        rel == b as i8,
                ;
            }
            self.pc = self.pc.wrapping_add(rel as i16 as u16);
            proof {
                assert(self.pc == add16(pc, if b < 0x80 { b as int } else { b - 0x100 }));
            }
            if rel < 0 {
                self.note_loop();
            }
        }
        proof {
            assert(traced(branch_target(*old(self), cond, b), *self, Seq::empty()));
            assert(past_operand(*old(self), 0).spec_pc_addr() == old(self).spec_pc_addr());
            assert(fetch_reads(*old(self), seq![b]) =~= seq![BusEvent::Read(old(self).spec_pc_addr() & 0xFF_FFFF, b)]);
        }
    }

    /// Called on a backward jump: sets `waiting` if nothing has changed
    /// since the last one to the same place.
    fn note_loop(&mut self)
        ensures
            kept(*old(self), *final(self)),
            final(self).p == old(self).p,
            final(self).pc == old(self).pc,
            final(self).pb == old(self).pb,
            final(self).sp == old(self).sp,
            *final(self) == noted(*old(self)),
    {
        let state = LoopState {
            target: self.pc_addr(),
            a: self.a,
            x: self.x,
            y: self.y,
            sp: self.sp,
            dp: self.dp,
            db: self.db,
            p: self.p,
            writes: self.writes,
        };
        self.waiting = match self.last_loop {
            Some(last) => last == state,
            None => false,
        };
        self.last_loop = Some(state);
    }

    // --- Execution -----------------------------------------------------
    /// The instruction at `self`'s program counter stopped the CPU with
    /// `e`: `BRK`, `COP` or `STP`, which name where they stand.
    pub closed spec fn stops_with(&self, e: CpuError) -> bool {
        stop_error(e, self.pb, self.pc)
    }

    /// `mid` is `self` with the opcode `op` fetched from its program
    /// counter: one read on the bus, the program counter past it, one
    /// more step counted.
    pub closed spec fn fetches(&self, op: u8, mid: Cpu) -> bool {
        let c = Cpu {
            op_addr: self.spec_pc_addr(),
            steps: if self.steps == u64::MAX { 0 } else { (self.steps + 1) as u64 },
            ..*self
        };
        &&& traced(past_operand(c, 1), mid, Seq::empty())
        &&& logged(*self, mid, seq![BusEvent::Read(self.spec_pc_addr() & 0xFF_FFFF, op)])
    }

    /// The instruction `op` fetched from `self`'s program counter took the
    /// CPU from `mid` to `d` with the result `r`, as [`executes`] says.
    pub closed spec fn executed(&self, op: u8, mid: Cpu, d: Cpu, r: Result<(), CpuError>) -> bool {
        executes(self.pb, self.pc, mid, op, d, r)
    }

    /// Executes one instruction. It counts as a step whatever it does;
    /// the only ones that fail are `BRK`, `COP` and `STP`, and the error
    /// names where they stand. The register widths stay consistent with
    /// the mode.
    pub fn step<B: Bus>(&mut self, bus: &mut B) -> (r: Result<(), CpuError>)
        ensures
            final(self).spec_steps() == if old(self).spec_steps() == u64::MAX {
                0
            } else {
                old(self).spec_steps() + 1
            },
            old(self).wf() ==> final(self).wf(),
            r matches Err(e) ==> old(self).stops_with(e),
            exists|op: u8, mid: Cpu|
                #![trigger old(self).executed(op, mid, *final(self), r)]
                old(self).fetches(op, mid) && old(self).executed(op, mid, *final(self), r),
    {
        let op_pb = self.pb;
        let op_pc = self.pc;
        self.op_addr = self.pc_addr();
        let opcode = self.fetch8(bus);
        self.steps = self.steps.wrapping_add(1);
        let ghost mid = *self;
        assert(old(self).fetches(opcode, mid));
        let r = if Self::memory_op(opcode) {
            if opcode == 0x20 || opcode == 0x60 || opcode == 0x6B {
                self.execute_call(bus, opcode);
            } else if opcode == 0x48 || opcode == 0x68 || opcode == 0x08 || opcode == 0x28 || opcode == 0x4C {
                self.execute_stack(bus, opcode, op_pc);
            } else if Self::access_op(opcode) {
                if Self::store_op(opcode) {
                    self.execute_store(bus, opcode);
                } else if Self::is_rmw(opcode) {
                    self.execute_rmw(bus, opcode);
                } else {
                    self.execute_load(bus, opcode);
                }
            } else {
                self.execute_flow(bus, opcode);
            }
            Ok(())
        } else if opcode < 0x20 {
            self.execute_0(bus, opcode, op_pb, op_pc)
        } else if opcode < 0x40 {
            self.execute_1(bus, opcode, op_pb, op_pc)
        } else if opcode < 0x60 {
            self.execute_2(bus, opcode, op_pb, op_pc)
        } else if opcode < 0x80 {
            self.execute_3(bus, opcode, op_pb, op_pc)
        } else if opcode < 0xA0 {
            self.execute_4(bus, opcode, op_pb, op_pc)
        } else if opcode < 0xC0 {
            self.execute_5(bus, opcode, op_pb, op_pc)
        } else if opcode < 0xC8 {
            self.execute_6a(bus, opcode, op_pb, op_pc)
        } else if opcode < 0xD0 {
            self.execute_6c(bus, opcode, op_pb, op_pc)
        } else if opcode < 0xE0 {
            self.execute_6b(bus, opcode, op_pb, op_pc)
        } else {
            self.execute_7(bus, opcode, op_pb, op_pc)
        };
        assert(old(self).executed(opcode, mid, *self, r));
        r
    }

    /// Whether `op` is one of the accesses [`is_access`] names.
    fn access_op(op: u8) -> (r: bool)
        ensures
            r == is_access(op),
    {
        op == 0xAD || op == 0xAE || op == 0xAC || op == 0x8D || op == 0x8E || op == 0x8C || op == 0x9C || op == 0x0D || op == 0x2D || op == 0x4D || op == 0x6D || op == 0xCD || op == 0xED || op == 0xEC || op == 0xCC || op == 0x0E || op == 0x4E || op == 0x2E || op == 0x6E || op == 0xEE || op == 0xCE || op == 0xBD || op == 0xBC || op == 0x9D || op == 0x9E || op == 0x1D || op == 0x3D || op == 0x5D || op == 0x7D || op == 0xDD || op == 0xFD || op == 0x1E || op == 0x5E || op == 0x3E || op == 0x7E || op == 0xFE || op == 0xDE || op == 0xB9 || op == 0xBE || op == 0x99 || op == 0x19 || op == 0x39 || op == 0x59 || op == 0x79 || op == 0xD9 || op == 0xF9 || op == 0xA5 || op == 0xA6 || op == 0xA4 || op == 0x85 || op == 0x86 || op == 0x84 || op == 0x64 || op == 0x05 || op == 0x25 || op == 0x45 || op == 0x65 || op == 0xC5 || op == 0xE5 || op == 0xE4 || op == 0xC4 || op == 0x06 || op == 0x46 || op == 0x26 || op == 0x66 || op == 0xE6 || op == 0xC6 || op == 0xB5 || op == 0xB4 || op == 0x95 || op == 0x94 || op == 0x74 || op == 0x15 || op == 0x35 || op == 0x55 || op == 0x75 || op == 0xD5 || op == 0xF5 || op == 0x16 || op == 0x56 || op == 0x36 || op == 0x76 || op == 0xF6 || op == 0xD6 || op == 0xB6 || op == 0x96 || op == 0xAF || op == 0x8F || op == 0x0F || op == 0x2F || op == 0x4F || op == 0x6F || op == 0xCF || op == 0xEF || op == 0xBF || op == 0x9F || op == 0x1F || op == 0x3F || op == 0x5F || op == 0x7F || op == 0xDF || op == 0xFF
    }

    /// The addressing mode of the access `op`.
    fn mode_of(op: u8) -> (r: u8)
        ensures
            r == access_mode(op),
    {
        if op == 0xAD || op == 0xAE || op == 0xAC || op == 0x8D || op == 0x8E || op == 0x8C || op == 0x9C || op == 0x0D || op == 0x2D || op == 0x4D || op == 0x6D || op == 0xCD || op == 0xED || op == 0xEC || op == 0xCC || op == 0x0E || op == 0x4E || op == 0x2E || op == 0x6E || op == 0xEE || op == 0xCE {
            0
        } else if op == 0xBD || op == 0xBC || op == 0x9D || op == 0x9E || op == 0x1D || op == 0x3D || op == 0x5D || op == 0x7D || op == 0xDD || op == 0xFD || op == 0x1E || op == 0x5E || op == 0x3E || op == 0x7E || op == 0xFE || op == 0xDE {
            1
        } else if op == 0xB9 || op == 0xBE || op == 0x99 || op == 0x19 || op == 0x39 || op == 0x59 || op == 0x79 || op == 0xD9 || op == 0xF9 {
            2
        } else if op == 0xA5 || op == 0xA6 || op == 0xA4 || op == 0x85 || op == 0x86 || op == 0x84 || op == 0x64 || op == 0x05 || op == 0x25 || op == 0x45 || op == 0x65 || op == 0xC5 || op == 0xE5 || op == 0xE4 || op == 0xC4 || op == 0x06 || op == 0x46 || op == 0x26 || op == 0x66 || op == 0xE6 || op == 0xC6 {
            3
        } else if op == 0xB5 || op == 0xB4 || op == 0x95 || op == 0x94 || op == 0x74 || op == 0x15 || op == 0x35 || op == 0x55 || op == 0x75 || op == 0xD5 || op == 0xF5 || op == 0x16 || op == 0x56 || op == 0x36 || op == 0x76 || op == 0xF6 || op == 0xD6 {
            4
        } else if op == 0xB6 || op == 0x96 {
            5
        } else if op == 0xAF || op == 0x8F || op == 0x0F || op == 0x2F || op == 0x4F || op == 0x6F || op == 0xCF || op == 0xEF {
            6
        } else {
            7
        }
    }

    /// Whether `op` is a store with an absolute or direct page address.
    fn store_op(op: u8) -> (r: bool)
        ensures
            r == is_store(op),
    {
        op == 0x8D || op == 0x8E || op == 0x8C || op == 0x9C || op == 0x85 || op == 0x86 || op == 0x84 || op == 0x64 || op == 0x9D || op == 0x99 || op == 0x95 || op == 0x9E || op == 0x74 || op == 0x96 || op == 0x94 || op == 0x8F || op == 0x9F
    }

    /// Whether `op` is a shift, rotate, increment or decrement on memory.
    fn is_rmw(op: u8) -> (r: bool)
        ensures
            r == is_rmw_access(op),
    {
        op == 0x0E || op == 0x06 || op == 0x1E || op == 0x16 || op == 0x4E || op == 0x46 || op == 0x5E || op == 0x56 || op == 0x2E || op == 0x26 || op == 0x3E || op == 0x36 || op == 0x6E || op == 0x66 || op == 0x7E || op == 0x76 || op == 0xEE || op == 0xE6 || op == 0xFE || op == 0xF6 || op == 0xCE || op == 0xC6 || op == 0xDE || op == 0xD6
    }

    /// Whether the access `op` is as wide as an index register.
    fn index_op(op: u8) -> (r: bool)
        ensures
            r == index_access(op),
    {
        op == 0xAE || op == 0xAC || op == 0x8E || op == 0x8C || op == 0xA6 || op == 0xA4 || op == 0x86 || op == 0x84 || op == 0xEC || op == 0xCC || op == 0xE4 || op == 0xC4 || op == 0xBE || op == 0xB6 || op == 0xBC || op == 0xB4 || op == 0x96 || op == 0x94
    }

    /// The operation a shift, rotate, increment or decrement on memory
    /// does.
    fn rmw_kind(op: u8) -> (r: Rmw)
        requires
            is_rmw_access(op),
        ensures
            r.opcode() == rmw_of(op),
    {
        if op == 0x0E || op == 0x06 || op == 0x1E || op == 0x16 {
            Rmw::Asl
        } else if op == 0x4E || op == 0x46 || op == 0x5E || op == 0x56 {
            Rmw::Lsr
        } else if op == 0x2E || op == 0x26 || op == 0x3E || op == 0x36 {
            Rmw::Rol
        } else if op == 0x6E || op == 0x66 || op == 0x7E || op == 0x76 {
            Rmw::Ror
        } else if op == 0xEE || op == 0xE6 || op == 0xFE || op == 0xF6 {
            Rmw::Inc
        } else {
            Rmw::Dec
        }
    }

    /// The immediate form of `op`, as [`imm_of`] gives it.
    fn imm_kind(op: u8) -> (r: u8)
        ensures
            r == imm_of(op),
    {
        if op == 0x0D || op == 0x05 || op == 0x1D || op == 0x19 || op == 0x15 || op == 0x0F || op == 0x1F {
            0x09
        } else if op == 0x2D || op == 0x25 || op == 0x3D || op == 0x39 || op == 0x35 || op == 0x2F || op == 0x3F {
            0x29
        } else if op == 0x4D || op == 0x45 || op == 0x5D || op == 0x59 || op == 0x55 || op == 0x4F || op == 0x5F {
            0x49
        } else if op == 0x6D || op == 0x65 || op == 0x7D || op == 0x79 || op == 0x75 || op == 0x6F || op == 0x7F {
            0x69
        } else if op == 0xCD || op == 0xC5 || op == 0xDD || op == 0xD9 || op == 0xD5 || op == 0xCF || op == 0xDF {
            0xC9
        } else if op == 0xED || op == 0xE5 || op == 0xFD || op == 0xF9 || op == 0xF5 || op == 0xEF || op == 0xFF {
            0xE9
        } else if op == 0xEC || op == 0xE4 {
            0xE0
        } else if op == 0xCC || op == 0xC4 {
            0xC0
        } else if op == 0xAD || op == 0xA5 || op == 0xBD || op == 0xB9 || op == 0xB5 || op == 0xAF || op == 0xBF {
            0xA9
        } else if op == 0xAE || op == 0xA6 || op == 0xBE || op == 0xB6 {
            0xA2
        } else {
            0xA0
        }
    }

    /// Whether `op` is one of the opcodes [`is_memory_op`] names.
    fn memory_op(op: u8) -> (r: bool)
        ensures
            r == is_memory_op(op),
    {
        op == 0x10 || op == 0x30 || op == 0x50 || op == 0x70 || op == 0x80 || op == 0x90 || op == 0xB0
            || op == 0xD0 || op == 0xF0 || op == 0xC2 || op == 0xE2 || Self::access_op(op) || op == 0x20
            || op == 0x60 || op == 0x6B || op == 0x48 || op == 0x68 || op == 0x08 || op == 0x28 || op
            == 0x4C
    }

    /// Whether the branch `op` is taken now.
    fn branch_taken(&self, op: u8) -> (r: bool)
        ensures
            r == branch_cond(op, self.p),
    {
        if op == 0x10 {
            !self.flag(Flags::N)
        } else if op == 0x30 {
            self.flag(Flags::N)
        } else if op == 0x50 {
            !self.flag(Flags::V)
        } else if op == 0x70 {
            self.flag(Flags::V)
        } else if op == 0x90 {
            !self.flag(Flags::C)
        } else if op == 0xB0 {
            self.flag(Flags::C)
        } else if op == 0xD0 {
            !self.flag(Flags::Z)
        } else if op == 0xF0 {
            self.flag(Flags::Z)
        } else {
            true
        }
    }

    /// Executes a branch, `REP` or `SEP`, already fetched.
    fn execute_flow<B: Bus>(&mut self, bus: &mut B, opcode: u8)
        requires
            is_branch(opcode) || opcode == 0xC2 || opcode == 0xE2,
        ensures
            old(self).wf() ==> final(self).wf(),
            mem_effect(*old(self), opcode, *final(self)),
            final(self).steps == old(self).steps,
    {
        proof {
            reveal(mem_effect);
        }
        let ghost c = *self;
        if opcode == 0xC2 || opcode == 0xE2 {
            let m = self.fetch8(bus);
            let p = if opcode == 0xC2 {
                self.p & !m
            } else {
                self.p | m
            };
            self.set_p(p);
            proof {
                assert(past_operand(c, 0).spec_pc_addr() == c.spec_pc_addr());
                assert(fetch_reads(c, seq![m]) =~= seq![BusEvent::Read(c.spec_pc_addr() & 0xFF_FFFF, m)]);
                assert(status_with(c, opcode, *self, m));
            }
        } else {
            let cond = self.branch_taken(opcode);
            self.branch(bus, cond);
            proof {
                let rel = choose|rel: u8|
                    traced(branch_target(c, cond, rel), *self, Seq::empty()) && logged(c, *self, fetch_reads(c, seq![rel]));
                assert(branch_with(c, opcode, *self, rel));
            }
        }
    }

    /// Fetches the operand of an access in `mode` and computes the address
    /// it names; the ghost result is the operand's bytes.
    #[verifier::rlimit(100)]
    #[verifier::spinoff_prover]
    fn operand_address<B: Bus>(&mut self, bus: &mut B, mode: u8) -> (r: (u32, Ghost<Seq<u8>>))
        requires
            mode < 8,
        ensures
            kept(*old(self), *final(self)),
            final(self).p == old(self).p,
            r.1@.len() == operand_len(mode as int),
            traced(past_operand(*old(self), operand_len(mode as int)), *final(self), Seq::empty()),
            logged(*old(self), *final(self), fetch_reads(*old(self), r.1@)),
            r.0 == access_addr(*old(self), mode as int, r.1@),
    {
        let ghost c = *self;
        if mode >= 6 {
            let w = self.fetch16(bus);
            let ghost m = *self;
            let bank = self.fetch8(bus);
            let i: u32 = if mode == 7 {
                self.x as u32
            } else {
                0
            };
            let sum = (w as u32) + (bank as u32) * 0x1_0000 + i;
            proof {
                lemma_masks(sum, 0);
                lemma_word_split(w);
                lemma_trace_trans(c.trace_data_reads, m.trace_data_reads, self.trace_data_reads, Seq::empty(), Seq::empty());
                lemma_grows_trans(c, m, *self);
                assert(Seq::<(u32, u32)>::empty() + Seq::<(u32, u32)>::empty() =~= Seq::<(u32, u32)>::empty());
                assert(past_operand(c, 2).spec_pc_addr() == m.spec_pc_addr());
                assert(fetch_reads(c, word_bytes(w).push(bank)) =~= fetch_reads(c, word_bytes(w)) + seq![BusEvent::Read(m.spec_pc_addr() & 0xFF_FFFF, bank)]);
            }
            let g: Ghost<Seq<u8>> = Ghost(word_bytes(w).push(bank));
            (sum & 0xFF_FFFF, g)
        } else if mode < 3 {
            let w = self.fetch16(bus);
            let base = self.db_addr(w);
            let i: u32 = if mode == 1 {
                self.x as u32
            } else if mode == 2 {
                self.y as u32
            } else {
                0
            };
            let sum = base + i;
            proof {
                lemma_masks(sum, 0);
                lemma_word_split(w);
            }
            let g: Ghost<Seq<u8>> = Ghost(word_bytes(w));
            (sum & 0xFF_FFFF, g)
        } else {
            let b = self.fetch8(bus);
            let i: u16 = if mode == 4 {
                self.x
            } else if mode == 5 {
                self.y
            } else {
                0
            };
            let d = self.dp.wrapping_add(b as u16).wrapping_add(i);
            proof {
                lemma_masks(0, d as u32);
                assert(past_operand(c, 0).spec_pc_addr() == c.spec_pc_addr());
                assert(fetch_reads(c, seq![b]) =~= seq![BusEvent::Read(c.spec_pc_addr() & 0xFF_FFFF, b)]);
            }
            let g: Ghost<Seq<u8>> = Ghost(Seq::empty().push(b));
            (d as u32 | WRAPS_IN_BANK, g)
        }
    }

    /// Executes a store with an absolute or direct page address, already
    /// fetched.
    #[verifier::rlimit(100)]
    #[verifier::spinoff_prover]
    fn execute_store<B: Bus>(&mut self, bus: &mut B, opcode: u8)
        requires
            is_access(opcode),
            is_store(opcode),
        ensures
            old(self).wf() ==> final(self).wf(),
            mem_effect(*old(self), opcode, *final(self)),
            final(self).steps == old(self).steps,
    {
        proof {
            reveal(mem_effect);
        }
        let ghost c = *self;
        let (a, operand) = self.operand_address(bus, Self::mode_of(opcode));
        let ghost s1 = *self;
        proof {
            lemma_logged_grows(c, s1, fetch_reads(c, operand@));
        }
        let ghost mut v: u16 = 0;
        let ghost w8 = if index_access(opcode) { index8(c) } else { acc8(c) };
        if opcode == 0x8D || opcode == 0x85 || opcode == 0x9D || opcode == 0x99 || opcode == 0x95 || opcode == 0x8F || opcode == 0x9F {
            self.write_m(bus, a, self.a);
        } else if opcode == 0x8E || opcode == 0x86 || opcode == 0x96 {
            self.write_x(bus, a, self.x);
        } else if opcode == 0x8C || opcode == 0x84 || opcode == 0x94 {
            self.write_x(bus, a, self.y);
        } else {
            self.write_m(bus, a, 0);
        }

        proof {
            let tail = if is_store(opcode) {
                value_writes(a, store_value(c, opcode), w8)
            } else if is_rmw_access(opcode) {
                value_reads(a, v, w8) + value_writes(a, acc_result(rmw_of(opcode), v, w8, c.p & 1 != 0), w8)
            } else {
                value_reads(a, v, w8)
            };
            assert(self.log@ =~= c.log@ + (fetch_reads(c, operand@) + tail));
            lemma_logged_grows(c, *self, fetch_reads(c, operand@) + tail);
            assert(access_with(c, opcode, *self, operand@, access_addr(c, access_mode(opcode), operand@), v));
        }
    }


    /// Executes a shift, rotate, increment or decrement of memory with an
    /// absolute or direct page address, already fetched.
    #[verifier::rlimit(100)]
    #[verifier::spinoff_prover]
    fn execute_rmw<B: Bus>(&mut self, bus: &mut B, opcode: u8)
        requires
            is_access(opcode),
            is_rmw_access(opcode),
        ensures
            old(self).wf() ==> final(self).wf(),
            mem_effect(*old(self), opcode, *final(self)),
            final(self).steps == old(self).steps,
    {
        proof {
            reveal(mem_effect);
        }
        let ghost c = *self;
        let (a, operand) = self.operand_address(bus, Self::mode_of(opcode));
        let ghost s1 = *self;
        proof {
            lemma_logged_grows(c, s1, fetch_reads(c, operand@));
        }
        let ghost mut v: u16 = 0;
        let ghost w8 = if index_access(opcode) { index8(c) } else { acc8(c) };
        {
            let kind = Self::rmw_kind(opcode);
            self.rmw_mem(bus, a, kind);
            proof {
                let m8 = acc8(s1);
                v = choose|v: u16|
                    #![trigger acc_status(kind.opcode(), s1.p, v, m8)]
                    traced(
                        Cpu {
                            p: acc_status(kind.opcode(), s1.p, v, m8),
                            writes: ((s1.writes + if m8 { 1int } else { 2int }) % 0x1_0000_0000_0000_0000) as u64,
                            ..s1
                        },
                        *self,
                        data_reads(s1, if m8 { seq![a & 0xFF_FFFF] } else { seq![a & 0xFF_FFFF, spec_next_addr(a) & 0xFF_FFFF] }),
                    ) && logged(s1, *self, value_reads(a, v, m8) + value_writes(a, acc_result(kind.opcode(), v, m8, s1.p & 1 != 0), m8));
                let addrs = if m8 { seq![a & 0xFF_FFFF] } else { seq![a & 0xFF_FFFF, spec_next_addr(a) & 0xFF_FFFF] };
                lemma_trace_trans(c.trace_data_reads, s1.trace_data_reads, self.trace_data_reads, Seq::empty(), data_reads(s1, addrs));
                assert(Seq::<(u32, u32)>::empty() + data_reads(s1, addrs) =~= data_reads(past_operand(c, operand@.len() as int), addrs));
            }
        }

        proof {
            let tail = if is_store(opcode) {
                value_writes(a, store_value(c, opcode), w8)
            } else if is_rmw_access(opcode) {
                value_reads(a, v, w8) + value_writes(a, acc_result(rmw_of(opcode), v, w8, c.p & 1 != 0), w8)
            } else {
                value_reads(a, v, w8)
            };
            assert(self.log@ =~= c.log@ + (fetch_reads(c, operand@) + tail));
            lemma_logged_grows(c, *self, fetch_reads(c, operand@) + tail);
            assert(access_with(c, opcode, *self, operand@, access_addr(c, access_mode(opcode), operand@), v));
        }
    }


    /// Executes a load, logical or arithmetic operation or comparison with
    /// an absolute or direct page address, already fetched.
    #[verifier::rlimit(100)]
    #[verifier::spinoff_prover]
    fn execute_load<B: Bus>(&mut self, bus: &mut B, opcode: u8)
        requires
            is_access(opcode),
            !is_store(opcode) && !is_rmw_access(opcode),
        ensures
            old(self).wf() ==> final(self).wf(),
            mem_effect(*old(self), opcode, *final(self)),
            final(self).steps == old(self).steps,
    {
        proof {
            reveal(mem_effect);
        }
        let ghost c = *self;
        let (a, operand) = self.operand_address(bus, Self::mode_of(opcode));
        let ghost s1 = *self;
        proof {
            lemma_logged_grows(c, s1, fetch_reads(c, operand@));
        }
        let ghost mut v: u16 = 0;
        let ghost w8 = if index_access(opcode) { index8(c) } else { acc8(c) };
        {
            let r = if Self::index_op(opcode) {
                self.read_x(bus, a)
            } else {
                self.read_m(bus, a)
            };
            let ghost s2 = *self;
            let k = Self::imm_kind(opcode);
            if k == 0x09 {
                self.op_ora(r);
            } else if k == 0x29 {
                self.op_and(r);
            } else if k == 0x49 {
                self.op_eor(r);
            } else if k == 0x69 {
                self.op_adc(r);
            } else if k == 0xE9 {
                self.op_sbc(r);
            } else if k == 0xC9 {
                self.op_compare(self.a, r, self.m8());
            } else if k == 0xE0 {
                self.op_compare(self.x, r, self.x8());
            } else if k == 0xC0 {
                self.op_compare(self.y, r, self.x8());
            } else if k == 0xA9 {
                self.set_a(r);
            } else if k == 0xA2 {
                self.set_x(r);
            } else {
                self.set_y(r);
            }
            proof {
                v = r;
                let addrs = if w8 { seq![a & 0xFF_FFFF] } else { seq![a & 0xFF_FFFF, spec_next_addr(a) & 0xFF_FFFF] };
                lemma_trace_trans(c.trace_data_reads, s1.trace_data_reads, s2.trace_data_reads, Seq::empty(), data_reads(s1, addrs));
                assert(Seq::<(u32, u32)>::empty() + data_reads(s1, addrs) =~= data_reads(past_operand(c, operand@.len() as int), addrs));
            }
        }
        proof {
            let tail = if is_store(opcode) {
                value_writes(a, store_value(c, opcode), w8)
            } else if is_rmw_access(opcode) {
                value_reads(a, v, w8) + value_writes(a, acc_result(rmw_of(opcode), v, w8, c.p & 1 != 0), w8)
            } else {
                value_reads(a, v, w8)
            };
            assert(self.log@ =~= c.log@ + (fetch_reads(c, operand@) + tail));
            lemma_logged_grows(c, *self, fetch_reads(c, operand@) + tail);
            assert(access_with(c, opcode, *self, operand@, access_addr(c, access_mode(opcode), operand@), v));
        }
    }


    /// Executes `PHA`, `PLA`, `PHP`, `PLP` or `JMP` with an absolute
    /// address, already fetched from `op_pc`.
    fn execute_stack<B: Bus>(&mut self, bus: &mut B, opcode: u8, op_pc: u16)
        requires
            is_stack_op(opcode),
            old(self).pc == add16(op_pc, 1),
        ensures
            old(self).wf() ==> final(self).wf(),
            mem_effect(*old(self), opcode, *final(self)),
            final(self).steps == old(self).steps,
    {
        proof {
            reveal(mem_effect);
        }
        let ghost c = *self;
        if opcode == 0x48 || opcode == 0x08 {
            if opcode == 0x08 {
                self.push_byte(bus, self.p);
                assert(sp_after_pushes(c.sp, c.emulation, 0) == c.sp);
            } else if self.m8() {
                self.push_byte(bus, self.a as u8);
                assert(sp_after_pushes(c.sp, c.emulation, 0) == c.sp);
            } else {
                self.push_word(bus, self.a);
            }
            assert(push_reg_with(c, opcode, *self));
        } else if opcode == 0x68 {
            let v = if self.m8() {
                self.pull8(bus) as u16
            } else {
                self.pull16(bus)
            };
            self.set_a(v);
            assert(pla_with(c, *self, v));
        } else if opcode == 0x28 {
            let b = self.pull8(bus);
            self.set_p(b);
            assert(plp_with(c, *self, b));
        } else {
            let w = self.fetch16(bus);
            self.pc = w;
            assert(op_pc as int == add16(c.pc, -1));
            if self.pc <= op_pc {
                self.note_loop();
            }
            assert(jmp_with(c, *self, w));
        }
    }

    /// Executes `JSR`, `RTS` or `RTL`, already fetched.
    fn execute_call<B: Bus>(&mut self, bus: &mut B, opcode: u8)
        requires
            opcode == 0x20 || opcode == 0x60 || opcode == 0x6B,
        ensures
            old(self).wf() ==> final(self).wf(),
            mem_effect(*old(self), opcode, *final(self)),
            final(self).steps == old(self).steps,
    {
        proof {
            reveal(mem_effect);
        }
        let ghost c = *self;
        if opcode == 0x20 {
            let t = self.fetch16(bus);
            let ret = self.pc.wrapping_sub(1);
            self.push_word(bus, ret);
            self.pc = t;
            proof {
                assert(self.log@ =~= c.log@ + (fetch_reads(c, word_bytes(t)) + push_writes(c.sp, c.emulation, seq![(ret >> 8u16) as u8, ret as u8])));
                lemma_logged_grows(c, *self, fetch_reads(c, word_bytes(t)) + push_writes(c.sp, c.emulation, seq![(ret >> 8u16) as u8, ret as u8]));
                assert(jsr_with(c, *self, t));
            }
        } else if opcode == 0x60 {
            let v = self.pull16(bus);
            self.pc = v.wrapping_add(1);
            proof {
                assert(rts_with(c, *self, v));
            }
        } else {
            let v = self.pull16(bus);
            self.pc = v.wrapping_add(1);
            let ghost s1 = *self;
            let b = self.pull8(bus);
            self.pb = b;
            proof {
                let sp1 = sp_after_pull(c.sp, c.emulation);
                let sp2 = sp_after_pull(sp1, c.emulation);
                let sp3 = sp_after_pull(sp2, c.emulation);
                lemma_trace_trans(c.trace_data_reads, s1.trace_data_reads, self.trace_data_reads, data_reads(c, seq![(sp1 as u32) & 0xFF_FFFF, (sp2 as u32) & 0xFF_FFFF]), data_reads(s1, seq![(sp3 as u32) & 0xFF_FFFF]));
                assert(data_reads(c, seq![(sp1 as u32) & 0xFF_FFFF, (sp2 as u32) & 0xFF_FFFF]) + data_reads(s1, seq![(sp3 as u32) & 0xFF_FFFF]) =~= data_reads(c, seq![(sp1 as u32) & 0xFF_FFFF, (sp2 as u32) & 0xFF_FFFF, (sp3 as u32) & 0xFF_FFFF]));
                assert(self.log@ =~= c.log@ + (pull_reads(c.sp, c.emulation, v) + seq![BusEvent::Read((sp3 as u32) & 0xFF_FFFF, b)]));
                lemma_logged_grows(c, *self, pull_reads(c.sp, c.emulation, v) + seq![BusEvent::Read((sp3 as u32) & 0xFF_FFFF, b)]);
                assert(rtl_with(c, *self, v, b));
            }
        }
    }

    /// Executes an opcode from $00 to $1F, already fetched from `op_pb:op_pc`.
    #[verifier::rlimit(100)]
    #[verifier::spinoff_prover]
    fn execute_0<B: Bus>(&mut self, bus: &mut B, opcode: u8, op_pb: u8, op_pc: u16) -> (r: Result<
        (),
        CpuError,
    >)
        requires
            opcode < 0x20,
            !is_memory_op(opcode),
        ensures
            old(self).wf() ==> final(self).wf(),
            executes(op_pb, op_pc, *old(self), opcode, *final(self), r),
            final(self).steps == old(self).steps,
    {
        match opcode {
            // ORA
            0x01 => {
                let a = self.am_dp_x_ind(bus);
                let v = self.read_m(bus, a);
                self.op_ora(v);
            }
            0x03 => {
                let a = self.am_sr(bus);
                let v = self.read_m(bus, a);
                self.op_ora(v);
            }
            0x07 => {
                let a = self.am_dp_ind_long(bus);
                let v = self.read_m(bus, a);
                self.op_ora(v);
            }
            0x09 => {
                let ghost c = *self;
                let a = self.am_imm_m(bus);
                let v = self.read_m(bus, a);
                self.op_ora(v);
                assert(imm_with(c, opcode, *self, v));
            }
            0x11 => {
                let a = self.am_dp_ind_y(bus);
                let v = self.read_m(bus, a);
                self.op_ora(v);
            }
            0x12 => {
                let a = self.am_dp_ind(bus);
                let v = self.read_m(bus, a);
                self.op_ora(v);
            }
            0x13 => {
                let a = self.am_sr_ind_y(bus);
                let v = self.read_m(bus, a);
                self.op_ora(v);
            }
            0x17 => {
                let a = self.am_dp_ind_long_y(bus);
                let v = self.read_m(bus, a);
                self.op_ora(v);
            }
            // Shifts and rotates
            0x0A => self.rmw_acc(Rmw::Asl),
            // INC / DEC
            0x1A => self.rmw_acc(Rmw::Inc),
            // TSB / TRB
            0x04 | 0x0C => {
                let a = if opcode == 0x04 {
                    self.am_dp(bus)
                } else {
                    self.am_abs(bus)
                };
                let v = self.read_m(bus, a);
                let acc = if self.m8() { self.a & 0xFF } else { self.a };
                self.set_flag(Flags::Z, (v & acc) == 0);
                self.write_m(bus, a, v | acc);
            }
            0x14 | 0x1C => {
                let a = if opcode == 0x14 {
                    self.am_dp(bus)
                } else {
                    self.am_abs(bus)
                };
                let v = self.read_m(bus, a);
                let acc = if self.m8() { self.a & 0xFF } else { self.a };
                self.set_flag(Flags::Z, (v & acc) == 0);
                self.write_m(bus, a, v & !acc);
            }
            // Branches
            0x0B => self.push16(bus, self.dp),
            0x1B => {
                self.sp = if self.emulation {
                    0x0100 | (self.a & 0xFF)
                } else {
                    self.a
                };
            }
            // Flags
            0x18 => self.set_flag(Flags::C, false),
            0x00 => {
                return Err(CpuError::Brk {
                    pb: op_pb,
                    pc: op_pc,
                });
            }
            0x02 => {
                return Err(CpuError::Cop {
                    pb: op_pb,
                    pc: op_pc,
                });
            }
            _ => {},
        }
        Ok(())
    }

    /// Executes an opcode from $20 to $3F, already fetched from `op_pb:op_pc`.
    #[verifier::rlimit(100)]
    #[verifier::spinoff_prover]
    fn execute_1<B: Bus>(&mut self, bus: &mut B, opcode: u8, op_pb: u8, op_pc: u16) -> (r: Result<
        (),
        CpuError,
    >)
        requires
            0x20 <= opcode < 0x40,
            !is_memory_op(opcode),
        ensures
            old(self).wf() ==> final(self).wf(),
            executes(op_pb, op_pc, *old(self), opcode, *final(self), r),
            final(self).steps == old(self).steps,
    {
        match opcode {
            // AND
            0x21 => {
                let a = self.am_dp_x_ind(bus);
                let v = self.read_m(bus, a);
                self.op_and(v);
            }
            0x23 => {
                let a = self.am_sr(bus);
                let v = self.read_m(bus, a);
                self.op_and(v);
            }
            0x27 => {
                let a = self.am_dp_ind_long(bus);
                let v = self.read_m(bus, a);
                self.op_and(v);
            }
            0x29 => {
                let ghost c = *self;
                let a = self.am_imm_m(bus);
                let v = self.read_m(bus, a);
                self.op_and(v);
                assert(imm_with(c, opcode, *self, v));
            }
            0x31 => {
                let a = self.am_dp_ind_y(bus);
                let v = self.read_m(bus, a);
                self.op_and(v);
            }
            0x32 => {
                let a = self.am_dp_ind(bus);
                let v = self.read_m(bus, a);
                self.op_and(v);
            }
            0x33 => {
                let a = self.am_sr_ind_y(bus);
                let v = self.read_m(bus, a);
                self.op_and(v);
            }
            0x37 => {
                let a = self.am_dp_ind_long_y(bus);
                let v = self.read_m(bus, a);
                self.op_and(v);
            }
            0x2A => self.rmw_acc(Rmw::Rol),
            0x3A => self.rmw_acc(Rmw::Dec),
            // BIT
            0x24 => {
                let a = self.am_dp(bus);
                let v = self.read_m(bus, a);
                self.op_bit(v);
            }
            0x2C => {
                let a = self.am_abs(bus);
                let v = self.read_m(bus, a);
                self.op_bit(v);
            }
            0x34 => {
                let a = self.am_dp_x(bus);
                let v = self.read_m(bus, a);
                self.op_bit(v);
            }
            0x3C => {
                let a = self.am_abs_x(bus);
                let v = self.read_m(bus, a);
                self.op_bit(v);
            }
            0x22 => {
                let t = self.fetch24(bus);
                let ret = self.pc.wrapping_sub(1);
                self.push8(bus, self.pb);
                self.push16(bus, ret);
                self.pb = (t >> 16) as u8;
                self.pc = t as u16;
            }
            0x2B => {
                self.dp = self.pull16(bus);
                self.set_nz(self.dp, false);
            }
            0x3B => {
                self.a = self.sp;
                self.set_nz(self.a, false);
            }
            0x38 => self.set_flag(Flags::C, true),
            _ => {},
        }
        Ok(())
    }

    /// Executes an opcode from $40 to $5F, already fetched from `op_pb:op_pc`.
    #[verifier::rlimit(100)]
    #[verifier::spinoff_prover]
    fn execute_2<B: Bus>(&mut self, bus: &mut B, opcode: u8, op_pb: u8, op_pc: u16) -> (r: Result<
        (),
        CpuError,
    >)
        requires
            0x40 <= opcode < 0x60,
            !is_memory_op(opcode),
        ensures
            old(self).wf() ==> final(self).wf(),
            executes(op_pb, op_pc, *old(self), opcode, *final(self), r),
            final(self).steps == old(self).steps,
    {
        match opcode {
            // EOR
            0x41 => {
                let a = self.am_dp_x_ind(bus);
                let v = self.read_m(bus, a);
                self.op_eor(v);
            }
            0x43 => {
                let a = self.am_sr(bus);
                let v = self.read_m(bus, a);
                self.op_eor(v);
            }
            0x47 => {
                let a = self.am_dp_ind_long(bus);
                let v = self.read_m(bus, a);
                self.op_eor(v);
            }
            0x49 => {
                let ghost c = *self;
                let a = self.am_imm_m(bus);
                let v = self.read_m(bus, a);
                self.op_eor(v);
                assert(imm_with(c, opcode, *self, v));
            }
            0x51 => {
                let a = self.am_dp_ind_y(bus);
                let v = self.read_m(bus, a);
                self.op_eor(v);
            }
            0x52 => {
                let a = self.am_dp_ind(bus);
                let v = self.read_m(bus, a);
                self.op_eor(v);
            }
            0x53 => {
                let a = self.am_sr_ind_y(bus);
                let v = self.read_m(bus, a);
                self.op_eor(v);
            }
            0x57 => {
                let a = self.am_dp_ind_long_y(bus);
                let v = self.read_m(bus, a);
                self.op_eor(v);
            }
            0x4A => self.rmw_acc(Rmw::Lsr),
            // Jumps and calls
            0x5C => {
                let t = self.fetch24(bus);
                self.pb = (t >> 16) as u8;
                self.pc = t as u16;
            }
            0x40 => {
                let p = self.pull8(bus);
                self.set_p(p);
                self.pc = self.pull16(bus);
                if !self.emulation {
                    self.pb = self.pull8(bus);
                }
            }
            // Stack
            0x5A => {
                if self.x8() {
                    self.push8(bus, self.y as u8)
                } else {
                    self.push16(bus, self.y)
                }
            }
            0x4B => self.push8(bus, self.pb),
            0x5B => {
                self.dp = self.a;
                self.set_nz(self.dp, false);
            }
            0x58 => self.set_flag(Flags::I, false),
            // Block moves: A holds count-1 (always 16-bit), X source, Y destination.
            0x54 | 0x44 => {
                let dst_bank = self.fetch8(bus);
                let src_bank = self.fetch8(bus);
                self.db = dst_bank;
                let step: u16 = if opcode == 0x54 {
                    1
                } else {
                    0xFFFF
                };
                let ghost entry: Cpu = *self;
                loop
                    invariant
                        same_mode(entry, *self),
                        self.steps == entry.steps,
                        entry.wf() ==> self.wf(),
                    decreases self.a,
                {
                    let v = self.read8(bus, ((src_bank as u32) << 16) | self.x as u32);
                    self.write8(bus, ((dst_bank as u32) << 16) | self.y as u32, v);
                    self.x = self.x.wrapping_add(step);
                    self.y = self.y.wrapping_add(step);
                    if self.x8() {
                        self.x = self.x % 0x100;
                        self.y = self.y % 0x100;
                    }
                    if self.a == 0 {
                        self.a = 0xFFFF;
                        break;
                    }
                    self.a = self.a.wrapping_sub(1);
                }
            }
            0x42 => {
                self.fetch8(bus);
            }
            _ => {},
        }
        Ok(())
    }

    /// Executes an opcode from $60 to $7F, already fetched from `op_pb:op_pc`.
    #[verifier::rlimit(100)]
    #[verifier::spinoff_prover]
    fn execute_3<B: Bus>(&mut self, bus: &mut B, opcode: u8, op_pb: u8, op_pc: u16) -> (r: Result<
        (),
        CpuError,
    >)
        requires
            0x60 <= opcode < 0x80,
            !is_memory_op(opcode),
        ensures
            old(self).wf() ==> final(self).wf(),
            executes(op_pb, op_pc, *old(self), opcode, *final(self), r),
            final(self).steps == old(self).steps,
    {
        match opcode {
            // ADC
            0x61 => {
                let a = self.am_dp_x_ind(bus);
                let v = self.read_m(bus, a);
                self.op_adc(v);
            }
            0x63 => {
                let a = self.am_sr(bus);
                let v = self.read_m(bus, a);
                self.op_adc(v);
            }
            0x67 => {
                let a = self.am_dp_ind_long(bus);
                let v = self.read_m(bus, a);
                self.op_adc(v);
            }
            0x69 => {
                let ghost c = *self;
                let a = self.am_imm_m(bus);
                let v = self.read_m(bus, a);
                self.op_adc(v);
                assert(imm_with(c, opcode, *self, v));
            }
            0x71 => {
                let a = self.am_dp_ind_y(bus);
                let v = self.read_m(bus, a);
                self.op_adc(v);
            }
            0x72 => {
                let a = self.am_dp_ind(bus);
                let v = self.read_m(bus, a);
                self.op_adc(v);
            }
            0x73 => {
                let a = self.am_sr_ind_y(bus);
                let v = self.read_m(bus, a);
                self.op_adc(v);
            }
            0x77 => {
                let a = self.am_dp_ind_long_y(bus);
                let v = self.read_m(bus, a);
                self.op_adc(v);
            }
            0x6A => self.rmw_acc(Rmw::Ror),
            0x6C => {
                let p = self.fetch16(bus);
                self.pc = self.read16_bank0(bus, p);
            }
            0x7C => {
                let p = self.fetch16(bus).wrapping_add(self.x);
                let a = ((self.pb as u32) << 16) | p as u32 | WRAPS_IN_BANK;
                self.pc = self.read16(bus, a);
            }
            0x7A => {
                let v = if self.x8() {
                    self.pull8(bus) as u16
                } else {
                    self.pull16(bus)
                };
                self.set_y(v);
            }
            0x62 => {
                let rel = self.fetch16(bus);
                let v = self.pc.wrapping_add(rel);
                self.push16(bus, v);
            }
            0x7B => {
                self.a = self.dp;
                self.set_nz(self.a, false);
            }
            0x78 => self.set_flag(Flags::I, true),
            _ => {},
        }
        Ok(())
    }

    /// Executes an opcode from $80 to $9F, already fetched from `op_pb:op_pc`.
    #[verifier::rlimit(100)]
    #[verifier::spinoff_prover]
    fn execute_4<B: Bus>(&mut self, bus: &mut B, opcode: u8, op_pb: u8, op_pc: u16) -> (r: Result<
        (),
        CpuError,
    >)
        requires
            0x80 <= opcode < 0xA0,
            !is_memory_op(opcode),
        ensures
            old(self).wf() ==> final(self).wf(),
            executes(op_pb, op_pc, *old(self), opcode, *final(self), r),
            final(self).steps == old(self).steps,
    {
        match opcode {
            // STA
            0x81 => {
                let a = self.am_dp_x_ind(bus);
                self.write_m(bus, a, self.a);
            }
            0x83 => {
                let a = self.am_sr(bus);
                self.write_m(bus, a, self.a);
            }
            0x87 => {
                let a = self.am_dp_ind_long(bus);
                self.write_m(bus, a, self.a);
            }
            0x91 => {
                let a = self.am_dp_ind_y(bus);
                self.write_m(bus, a, self.a);
            }
            0x92 => {
                let a = self.am_dp_ind(bus);
                self.write_m(bus, a, self.a);
            }
            0x93 => {
                let a = self.am_sr_ind_y(bus);
                self.write_m(bus, a, self.a);
            }
            0x97 => {
                let a = self.am_dp_ind_long_y(bus);
                self.write_m(bus, a, self.a);
            }
            0x88 => {
                let v = self.y.wrapping_sub(1);
                self.set_y(v);
            }
            0x89 => {
                let ghost c = *self;
                let a = self.am_imm_m(bus);
                let v = self.read_m(bus, a);
                let acc = if self.m8() { self.a & 0xFF } else { self.a };
                self.set_flag(Flags::Z, (v & acc) == 0);
                assert(imm_with(c, opcode, *self, v));
            }
            0x82 => {
                let rel = self.fetch16(bus);
                self.pc = self.pc.wrapping_add(rel);
            }
            0x8B => self.push8(bus, self.db),
            0x8A => {
                let v = self.x;
                self.set_a(v);
            }
            0x98 => {
                let v = self.y;
                self.set_a(v);
            }
            0x9A => {
                self.sp = if self.emulation {
                    0x0100 | (self.x & 0xFF)
                } else {
                    self.x
                };
            }
            0x9B => {
                let v = self.x;
                self.set_y(v);
            }
            _ => {},
        }
        Ok(())
    }

    /// Executes an opcode from $A0 to $BF, already fetched from `op_pb:op_pc`.
    #[verifier::rlimit(100)]
    #[verifier::spinoff_prover]
    fn execute_5<B: Bus>(&mut self, bus: &mut B, opcode: u8, op_pb: u8, op_pc: u16) -> (r: Result<
        (),
        CpuError,
    >)
        requires
            0xA0 <= opcode < 0xC0,
            !is_memory_op(opcode),
        ensures
            old(self).wf() ==> final(self).wf(),
            executes(op_pb, op_pc, *old(self), opcode, *final(self), r),
            final(self).steps == old(self).steps,
    {
        match opcode {
            // LDA
            0xA1 => {
                let a = self.am_dp_x_ind(bus);
                let v = self.read_m(bus, a);
                self.set_a(v);
            }
            0xA3 => {
                let a = self.am_sr(bus);
                let v = self.read_m(bus, a);
                self.set_a(v);
            }
            0xA7 => {
                let a = self.am_dp_ind_long(bus);
                let v = self.read_m(bus, a);
                self.set_a(v);
            }
            0xA9 => {
                let ghost c = *self;
                let a = self.am_imm_m(bus);
                let v = self.read_m(bus, a);
                self.set_a(v);
                assert(imm_with(c, opcode, *self, v));
            }
            0xB1 => {
                let a = self.am_dp_ind_y(bus);
                let v = self.read_m(bus, a);
                self.set_a(v);
            }
            0xB2 => {
                let a = self.am_dp_ind(bus);
                let v = self.read_m(bus, a);
                self.set_a(v);
            }
            0xB3 => {
                let a = self.am_sr_ind_y(bus);
                let v = self.read_m(bus, a);
                self.set_a(v);
            }
            0xB7 => {
                let a = self.am_dp_ind_long_y(bus);
                let v = self.read_m(bus, a);
                self.set_a(v);
            }
            // LDX / LDY / STX / STY / STZ
            0xA2 => {
                let ghost c = *self;
                let a = self.am_imm_x(bus);
                let v = self.read_x(bus, a);
                self.set_x(v);
                assert(imm_with(c, opcode, *self, v));
            }
            0xA0 => {
                let ghost c = *self;
                let a = self.am_imm_x(bus);
                let v = self.read_x(bus, a);
                self.set_y(v);
                assert(imm_with(c, opcode, *self, v));
            }
            0xAB => {
                self.db = self.pull8(bus);
                self.set_nz(self.db as u16, true);
            }
            // Transfers
            0xAA => {
                let v = self.a;
                self.set_x(v);
            }
            0xA8 => {
                let v = self.a;
                self.set_y(v);
            }
            0xBA => {
                let v = self.sp;
                self.set_x(v);
            }
            0xBB => {
                let v = self.y;
                self.set_x(v);
            }
            0xB8 => self.set_flag(Flags::V, false),
            _ => {},
        }
        Ok(())
    }

    /// Executes an opcode from $C0 to $C7, already fetched from `op_pb:op_pc`.
    #[verifier::rlimit(100)]
    #[verifier::spinoff_prover]
    fn execute_6a<B: Bus>(&mut self, bus: &mut B, opcode: u8, op_pb: u8, op_pc: u16) -> (r: Result<
        (),
        CpuError,
    >)
        requires
            0xC0 <= opcode < 0xC8,
            !is_memory_op(opcode),
        ensures
            old(self).wf() ==> final(self).wf(),
            executes(op_pb, op_pc, *old(self), opcode, *final(self), r),
            final(self).steps == old(self).steps,
    {
        match opcode {
            // CMP
            0xC1 => {
                let a = self.am_dp_x_ind(bus);
                let v = self.read_m(bus, a);
                self.op_compare(self.a, v, self.m8());
            }
            0xC3 => {
                let a = self.am_sr(bus);
                let v = self.read_m(bus, a);
                self.op_compare(self.a, v, self.m8());
            }
            0xC7 => {
                let a = self.am_dp_ind_long(bus);
                let v = self.read_m(bus, a);
                self.op_compare(self.a, v, self.m8());
            }
            0xC0 => {
                let ghost c = *self;
                let a = self.am_imm_x(bus);
                let v = self.read_x(bus, a);
                self.op_compare(self.y, v, self.x8());
                assert(imm_with(c, opcode, *self, v));
            }
            _ => {},
        }
        Ok(())
    }

    /// Executes an opcode from $C8 to $CF, already fetched from `op_pb:op_pc`.
    #[verifier::rlimit(100)]
    #[verifier::spinoff_prover]
    fn execute_6c<B: Bus>(&mut self, bus: &mut B, opcode: u8, op_pb: u8, op_pc: u16) -> (r: Result<
        (),
        CpuError,
    >)
        requires
            0xC8 <= opcode < 0xD0,
            !is_memory_op(opcode),
        ensures
            old(self).wf() ==> final(self).wf(),
            executes(op_pb, op_pc, *old(self), opcode, *final(self), r),
            final(self).steps == old(self).steps,
    {
        match opcode {
            0xC9 => {
                let ghost c = *self;
                let a = self.am_imm_m(bus);
                let v = self.read_m(bus, a);
                self.op_compare(self.a, v, self.m8());
                assert(imm_with(c, opcode, *self, v));
            }
            0xC8 => {
                let v = self.y.wrapping_add(1);
                self.set_y(v);
            }
            0xCA => {
                let v = self.x.wrapping_sub(1);
                self.set_x(v);
            }
            0xCB => self.waiting = true,
            _ => {},
        }
        Ok(())
    }

    /// Executes an opcode from $D0 to $DF, already fetched from `op_pb:op_pc`.
    #[verifier::rlimit(100)]
    #[verifier::spinoff_prover]
    fn execute_6b<B: Bus>(&mut self, bus: &mut B, opcode: u8, op_pb: u8, op_pc: u16) -> (r: Result<
        (),
        CpuError,
    >)
        requires
            0xD0 <= opcode < 0xE0,
            !is_memory_op(opcode),
        ensures
            old(self).wf() ==> final(self).wf(),
            executes(op_pb, op_pc, *old(self), opcode, *final(self), r),
            final(self).steps == old(self).steps,
    {
        match opcode {
            0xD1 => {
                let a = self.am_dp_ind_y(bus);
                let v = self.read_m(bus, a);
                self.op_compare(self.a, v, self.m8());
            }
            0xD2 => {
                let a = self.am_dp_ind(bus);
                let v = self.read_m(bus, a);
                self.op_compare(self.a, v, self.m8());
            }
            0xD3 => {
                let a = self.am_sr_ind_y(bus);
                let v = self.read_m(bus, a);
                self.op_compare(self.a, v, self.m8());
            }
            0xD7 => {
                let a = self.am_dp_ind_long_y(bus);
                let v = self.read_m(bus, a);
                self.op_compare(self.a, v, self.m8());
            }
            0xDC => {
                let p = self.fetch16(bus);
                let t = self.read24_bank0(bus, p);
                self.pb = (t >> 16) as u8;
                self.pc = t as u16;
            }
            0xDA => {
                if self.x8() {
                    self.push8(bus, self.x as u8)
                } else {
                    self.push16(bus, self.x)
                }
            }
            0xD4 => {
                let d = self.dp_base(bus);
                let v = self.read16_bank0(bus, d);
                self.push16(bus, v);
            }
            0xD8 => self.set_flag(Flags::D, false),
            0xDB => {
                return Err(CpuError::Halted {
                    pb: op_pb,
                    pc: op_pc,
                });
            }
            _ => {},
        }
        Ok(())
    }

    /// Executes an opcode from $E0 to $FF, already fetched from `op_pb:op_pc`.
    #[verifier::rlimit(100)]
    #[verifier::spinoff_prover]
    fn execute_7<B: Bus>(&mut self, bus: &mut B, opcode: u8, op_pb: u8, op_pc: u16) -> (r: Result<
        (),
        CpuError,
    >)
        requires
            0xE0 <= opcode,
            !is_memory_op(opcode),
        ensures
            old(self).wf() ==> final(self).wf(),
            executes(op_pb, op_pc, *old(self), opcode, *final(self), r),
            final(self).steps == old(self).steps,
    {
        match opcode {
            // SBC
            0xE1 => {
                let a = self.am_dp_x_ind(bus);
                let v = self.read_m(bus, a);
                self.op_sbc(v);
            }
            0xE3 => {
                let a = self.am_sr(bus);
                let v = self.read_m(bus, a);
                self.op_sbc(v);
            }
            0xE7 => {
                let a = self.am_dp_ind_long(bus);
                let v = self.read_m(bus, a);
                self.op_sbc(v);
            }
            0xE9 => {
                let ghost c = *self;
                let a = self.am_imm_m(bus);
                let v = self.read_m(bus, a);
                self.op_sbc(v);
                assert(imm_with(c, opcode, *self, v));
            }
            0xF1 => {
                let a = self.am_dp_ind_y(bus);
                let v = self.read_m(bus, a);
                self.op_sbc(v);
            }
            0xF2 => {
                let a = self.am_dp_ind(bus);
                let v = self.read_m(bus, a);
                self.op_sbc(v);
            }
            0xF3 => {
                let a = self.am_sr_ind_y(bus);
                let v = self.read_m(bus, a);
                self.op_sbc(v);
            }
            0xF7 => {
                let a = self.am_dp_ind_long_y(bus);
                let v = self.read_m(bus, a);
                self.op_sbc(v);
            }
            0xE8 => {
                let v = self.x.wrapping_add(1);
                self.set_x(v);
            }
            // CPX / CPY
            0xE0 => {
                let ghost c = *self;
                let a = self.am_imm_x(bus);
                let v = self.read_x(bus, a);
                self.op_compare(self.x, v, self.x8());
                assert(imm_with(c, opcode, *self, v));
            }
            0xFC => {
                let p = self.fetch16(bus);
                let ret = self.pc.wrapping_sub(1);
                self.push16(bus, ret);
                let a = ((self.pb as u32) << 16) | p.wrapping_add(self.x) as u32 | WRAPS_IN_BANK;
                self.pc = self.read16(bus, a);
            }
            0xFA => {
                let v = if self.x8() {
                    self.pull8(bus) as u16
                } else {
                    self.pull16(bus)
                };
                self.set_x(v);
            }
            0xF4 => {
                let v = self.fetch16(bus);
                self.push16(bus, v);
            }
            0xEB => {
                self.a = (self.a >> 8) | (self.a << 8);
                self.set_nz(self.a, true);
            }
            0xFB => {
                let c = self.flag(Flags::C);
                let e = self.emulation;
                self.set_flag(Flags::C, e);
                self.emulation = c;
                if self.emulation {
                    let p = self.p;
                    proof {
                        lemma_set_mx(p);
                    }
                    self.p = p | Flags::M | Flags::X;
                    self.x = self.x % 0x100;
                    self.y = self.y % 0x100;
                    self.sp = 0x0100 + self.sp % 0x100;
                }
            }
            0xF8 => self.set_flag(Flags::D, true),
            // Misc
            0xEA => {}
            _ => {},
        }
        Ok(())
    }

    /// Takes an IRQ: pushes the return frame and continues at the bus's
    /// vector with interrupts disabled.
    pub fn interrupt<B: Bus>(&mut self, bus: &mut B)
        ensures
            final(self).took_interrupt(*old(self)),
            old(self).wf() ==> final(self).wf(),
    {
        let ghost c = *self;
        if self.emulation {
            self.push_word(bus, self.pc);
            let ghost m = *self;
            self.push_byte(bus, self.p & !Flags::X);
            proof {
                let a = seq![(c.pc >> 8u16) as u8, c.pc as u8];
                lemma_push_writes_add(c.sp, true, a, seq![c.p & !0x10u8]);
                lemma_pushes_add(c.sp, true, 2, 1);
                assert(sp_after_pushes(m.sp, true, 1) == sp_after_push(sp_after_pushes(m.sp, true, 0), true));
                assert(a + seq![c.p & !0x10u8] =~= seq![(c.pc >> 8u16) as u8, c.pc as u8, c.p & !0x10u8]);
            }
        } else {
            self.push_byte(bus, self.pb);
            let ghost m1 = *self;
            self.push_word(bus, self.pc);
            let ghost m2 = *self;
            self.push_byte(bus, self.p);
            proof {
                assert(sp_after_pushes(c.sp, false, 1) == sp_after_push(sp_after_pushes(c.sp, false, 0), false));
                assert(sp_after_pushes(m2.sp, false, 1) == sp_after_push(sp_after_pushes(m2.sp, false, 0), false));
                let a = seq![c.pb];
                let b = seq![(c.pc >> 8u16) as u8, c.pc as u8];
                lemma_push_writes_add(c.sp, false, a, b);
                lemma_pushes_add(c.sp, false, 1, 2);
                lemma_push_writes_add(c.sp, false, a + b, seq![c.p]);
                lemma_pushes_add(c.sp, false, 3, 1);
                assert(a + b + seq![c.p] =~= seq![c.pb, (c.pc >> 8u16) as u8, c.pc as u8, c.p]);
            }
        }
        let p = self.p;
        proof {
            lemma_other_flag(p, 4);
            lemma_other_flag(p | 4, 8);
        }
        self.p = (p | Flags::I) & !Flags::D;
        self.pb = 0;
        let vector = bus.irq_vector(self.emulation);
        self.pc = vector;
        self.log = Ghost(self.log@.push(BusEvent::Vector(vector)));
        self.last_loop = None;
    }

    /// `self` is `before` with `frame` pushed onto the stack, byte by
    /// byte, and nothing else handed to the bus: the stack pointer is down
    /// by its length, and the accumulator, index, direct page and data
    /// bank registers and the mode are as they were.
    pub closed spec fn pushed_frame(&self, before: Cpu, frame: Seq<u8>) -> bool {
        &&& self.log@ =~= before.log@ + push_writes(before.sp, before.emulation, frame)
        &&& self.sp == sp_after_pushes(before.sp, before.emulation, frame.len())
        &&& self.a == before.a && self.x == before.x && self.y == before.y
        &&& self.dp == before.dp && self.db == before.db
        &&& self.emulation == before.emulation
    }

    /// `self` is `before` with the frame an interrupt at the sentinel
    /// address leaves pushed (the sentinel bank and offset, then the
    /// status) and the status then set for the handler: interrupts
    /// masked, decimal mode off.
    pub closed spec fn entered_handler(&self, before: Cpu) -> bool {
        &&& self.pushed_frame(before, seq![RETURN_PB, 0xFFu8, 0xFFu8, before.p])
        &&& self.p == (before.p | 4) & !8u8
    }

    /// `self` is `before` after taking an interrupt: in the same mode,
    /// with interrupts disabled, decimal mode off, in bank 0, and no loop
    /// seen, as many instructions on.
    pub closed spec fn took_interrupt(&self, before: Cpu) -> bool {
        let frame: Seq<u8> = if before.emulation {
            seq![(before.pc >> 8u16) as u8, before.pc as u8, before.p & !0x10u8]
        } else {
            seq![before.pb, (before.pc >> 8u16) as u8, before.pc as u8, before.p]
        };
        &&& self.log@ =~= before.log@ + push_writes(before.sp, before.emulation, frame) + seq![BusEvent::Vector(self.pc)]
        &&& self.sp == sp_after_pushes(before.sp, before.emulation, frame.len())
        &&& self.a == before.a && self.x == before.x && self.y == before.y
        &&& self.dp == before.dp && self.db == before.db
        &&& self.emulation == before.emulation
        &&& self.p == (before.p | 4) & !8u8
        &&& self.pb == 0
        &&& self.steps == before.steps
        &&& self.last_loop is None
    }

    /// `self` is `before` with `frame` pushed and the program counter at
    /// the 24-bit `addr`, nothing else of the machine changed: the state a
    /// routine is entered in.
    pub closed spec fn entered(&self, before: Cpu, addr: u32, frame: Seq<u8>) -> bool {
        &&& self.pushed_frame(before, frame)
        &&& self.is_at(addr)
        &&& self.p == before.p && self.steps == before.steps && self.waiting == before.waiting
        &&& self.last_loop == before.last_loop && self.in_fetch == before.in_fetch
    }

    /// Where the stack stands once [`Cpu::enter`] has pushed its frame:
    /// where a `JSR` frame pushed after it returns to.
    pub closed spec fn sp_after_jsl_frame(&self) -> u16 {
        sp_after_pushes(self.sp, self.emulation, 3)
    }

    /// `m` is `self` (the IRQ line just found asserted) with the interrupt
    /// taken.
    pub closed spec fn took_interrupt_into(&self, m: Cpu) -> bool {
        m.took_interrupt(*self)
    }

    /// From `self`, the IRQ line just found asserted, the interrupt is
    /// taken and a run then gets to `d`.
    pub closed spec fn interrupted_to(&self, d: Cpu) -> bool {
        exists|m: Cpu| #[trigger] self.took_interrupt_into(m) && m.leads_to(d)
    }

    /// From `self`, the IRQ line just found asserted, the interrupt is
    /// taken and a run from there ends as `d` with `r`, as [`Cpu::ran`]
    /// says.
    pub closed spec fn interrupted_ran(&self, d: Cpu, r: Result<Run, CpuError>) -> bool {
        exists|m: Cpu| #[trigger] self.took_interrupt_into(m) && m.ran(d, r)
    }

    /// `self` with the IRQ line polled and found `asserted`.
    pub closed spec fn polled(&self, asserted: bool) -> Cpu {
        Cpu { log: Ghost(self.log@.push(BusEvent::Irq(asserted))), ..*self }
    }

    /// One thing a run does between two looks at whether it is done, taking
    /// `self` to `d`: with interrupts enabled, it polls the IRQ line and,
    /// where the line is asserted, takes the interrupt; it executes an
    /// instruction that does not stop the CPU; or, the CPU waiting, it hands
    /// a wait to the bus that got somewhere.
    pub closed spec fn moves_to(&self, d: Cpu) -> bool {
        ||| self.p & 4 == 0 && d == self.polled(false)
        ||| self.p & 4 == 0 && d.took_interrupt(self.polled(true))
        ||| exists|op: u8, mid: Cpu| #[trigger] self.executed(op, mid, d, Ok(())) && self.fetches(op, mid)
        ||| self.waiting && d == Cpu { waiting: false, log: Ghost(self.log@.push(BusEvent::Wait(true))), ..*self }
    }

    /// Where a run stands after handing a wait, if the CPU is waiting, to
    /// a bus that got somewhere.
    pub closed spec fn after_wait(&self, d: Cpu) -> bool {
        if self.waiting {
            d == Cpu { waiting: false, log: Ghost(self.log@.push(BusEvent::Wait(true))), ..*self }
        } else {
            d == *self
        }
    }

    /// Where a run stands after polling the IRQ line, if interrupts are
    /// enabled, and taking the interrupt where the line is asserted.
    pub closed spec fn after_poll(&self, d: Cpu) -> bool {
        if self.p & 4 == 0 {
            d == self.polled(false) || d.took_interrupt(self.polled(true))
        } else {
            d == *self
        }
    }

    /// A run that looked at whether it is done in `self` and went on looks
    /// next in `d`: one instruction on, past a wait the bus answered and
    /// an IRQ poll.
    pub closed spec fn next_look(&self, d: Cpu) -> bool {
        exists|op: u8, mid: Cpu, s1: Cpu, s2: Cpu|
            #![trigger self.executed(op, mid, s1, Ok(())), s1.after_wait(s2)]
            self.fetches(op, mid) && self.executed(op, mid, s1, Ok(())) && s1.after_wait(s2)
                && s2.after_poll(d)
    }

    /// `looks` are the states a run from `self` looked at whether it is
    /// done in, in order: the first after the first IRQ poll, each next
    /// one look on.
    pub closed spec fn looked_at(&self, looks: Seq<Cpu>) -> bool {
        &&& looks.len() > 0 && self.after_poll(looks[0])
        &&& forall|i: int| 0 <= i < looks.len() - 1 ==> #[trigger] looks[i].next_look(looks[i + 1])
    }

    /// `t` is a run from `self` to `d`, move by move: it starts at `self`,
    /// ends at `d`, and each state moves to the next.
    pub closed spec fn traced(&self, t: Seq<Cpu>, d: Cpu) -> bool {
        &&& t.len() > 0 && t[0] == *self && t.last() == d
        &&& forall|i: int| 0 <= i < t.len() - 1 ==> #[trigger] t[i].moves_to(t[i + 1])
    }

    /// A run from `self` gets to `d`, move by move.
    pub closed spec fn leads_to(&self, d: Cpu) -> bool {
        exists|t: Seq<Cpu>| #[trigger] self.traced(t, d)
    }

    /// A run from `self` gets to a CPU waiting, hands the wait to the bus,
    /// gets nowhere, and so stands as `d`.
    pub closed spec fn waits_as(&self, d: Cpu) -> bool {
        exists|m: Cpu|
            #[trigger] self.leads_to(m) && m.waiting && d == Cpu {
                waiting: false,
                log: Ghost(m.log@.push(BusEvent::Wait(false))),
                ..m
            }
    }

    /// A run from `self` gets to a CPU whose next instruction stops it with
    /// `e`, and `d` is the CPU after that instruction.
    pub closed spec fn stops_as(&self, d: Cpu, e: CpuError) -> bool {
        exists|m: Cpu, op: u8, mid: Cpu|
            #![trigger self.leads_to(m), m.executed(op, mid, d, Err(e))]
            self.leads_to(m) && m.fetches(op, mid) && m.executed(op, mid, d, Err(e))
    }

    /// How a run from `self` that ended with `r` ended as `d`: done, or out
    /// of instructions, somewhere the run gets to; waiting after a wait the
    /// bus could not help; or stopped by an instruction.
    pub closed spec fn ran(&self, d: Cpu, r: Result<Run, CpuError>) -> bool {
        match r {
            Ok(Run::Done) => self.leads_to(d),
            Ok(Run::Waiting) => self.waits_as(d),
            Err(CpuError::Limit { .. }) => self.leads_to(d),
            Err(e) => self.stops_as(d, e),
        }
    }

    /// The same for a run whose waiting ends in the `Waiting` error.
    pub closed spec fn ran_to(&self, d: Cpu, r: Result<(), CpuError>) -> bool {
        match r {
            Ok(()) => self.leads_to(d),
            Err(CpuError::Limit { .. }) => self.leads_to(d),
            Err(CpuError::Waiting { .. }) => self.waits_as(d),
            Err(e) => self.stops_as(d, e),
        }
    }

    /// The routine has returned, or stands at one of `stop` having run
    /// since the step count stood at `start`.
    pub closed spec fn stopped_at(&self, stop: Seq<u32>, start: u64) -> bool {
        self.spec_returned() || (stop.contains(self.spec_pc_addr()) && self.steps != start)
    }

    /// A run from `self` looked at whether the routine stopped, as
    /// [`Cpu::stopped_at`] says, at each state it looked in, and `m` is the
    /// first where it had.
    pub closed spec fn first_stop(&self, m: Cpu, stop: Seq<u32>) -> bool {
        exists|looks: Seq<Cpu>|
            #[trigger] self.looked_at(looks) && looks.last() == m && m.stopped_at(stop, self.steps)
                && forall|i: int| 0 <= i < looks.len() - 1 ==> !(#[trigger] looks[i]).stopped_at(stop, self.steps)
    }

    /// `self` is `m`, a routine returned, with the `JSL` frame an `RTS`
    /// leaves dropped and the return no longer awaited.
    pub closed spec fn returned_from(&self, m: Cpu) -> bool {
        *self == Cpu {
            sp: if m.return_sp == Some(m.sp) { add16(m.sp, 3) } else { m.sp },
            return_sp: None,
            ..m
        }
    }

    /// How a run of an entered routine from `self`, stopping at `stop`,
    /// that gave `r` left it as `d`: where it returned first, the `JSL`
    /// frame an `RTS` leaves is dropped; where it got to a stop address
    /// first, it stands there.
    pub closed spec fn finished(&self, d: Cpu, r: Result<bool, CpuError>, stop: Seq<u32>) -> bool {
        match r {
            Ok(true) => exists|m: Cpu|
                #[trigger] self.first_stop(m, stop) && m.spec_returned() && d.returned_from(m),
            Ok(false) => self.first_stop(d, stop) && !d.spec_returned(),
            Err(e) => self.ran_to(d, Err(e)),
        }
    }

    /// `self` is `before` with the program counter at the 24-bit `addr`.
    pub closed spec fn moved_to(&self, before: Cpu, addr: u32) -> bool {
        *self == Cpu { pb: ((addr / 0x1_0000) % 0x100) as u8, pc: (addr % 0x1_0000) as u16, ..before }
    }

    /// Instructions executed since the step count stood at `start`, as
    /// the counter's own arithmetic gives it.
    pub closed spec fn steps_since(&self, start: u64) -> int {
        (self.steps as int - start as int + 0x1_0000_0000_0000_0000) % 0x1_0000_0000_0000_0000
    }

    /// Runs until `done`, taking IRQs from the bus. A CPU that stops to
    /// wait (`WAI`, or a loop that polls memory without changing
    /// anything) hands over to [`Bus::wait`] and carries on if that got
    /// anywhere; otherwise the run ends there, to be resumed by calling
    /// this again.
    ///
    /// It ends `Done` only where `done` holds, and with a `Limit` error
    /// naming `limit` only once `limit` instructions have run; no more
    /// than `limit` run in any case.
    #[verifier::rlimit(100)]
    #[verifier::spinoff_prover]
    pub fn run<B: Bus, F: Fn(&Cpu) -> bool>(&mut self, bus: &mut B, limit: u64, done: F) -> (r:
        Result<Run, CpuError>)
        requires
            forall|c: &Cpu| #[trigger] done.requires((c,)),
        ensures
            r == Ok::<Run, CpuError>(Run::Done) ==> done.ensures((final(self),), true),
            final(self).steps_since(old(self).spec_steps()) <= limit,
            r matches Err(CpuError::Limit { limit: l, .. }) ==> l == limit
                && final(self).steps_since(old(self).spec_steps()) == limit,
            old(self).wf() ==> final(self).wf(),
            old(self).irq_masked() && (forall|b: bool| done.ensures((old(self),), b) ==> b) ==> r
                == Ok::<Run, CpuError>(Run::Done) && *final(self) == *old(self),
            old(self).irq_masked() && limit == 0 && (forall|b: bool| done.ensures((old(self),), b) ==> !b)
                ==> (r matches Err(CpuError::Limit { limit: 0, pb, pc }) && old(self).stands_at(pb, pc))
                && *final(self) == *old(self),
            r == Ok::<Run, CpuError>(Run::Waiting) ==> final(self).bus_log().len() > 0
                && final(self).bus_log().last() == BusEvent::Wait(false),
            !(r matches Err(CpuError::Waiting { .. })),
            old(self).ran(*final(self), r),
            !old(self).irq_masked() && (forall|b: bool| done.ensures((&old(self).polled(false),), b) ==> b)
                ==> (r == Ok::<Run, CpuError>(Run::Done) && *final(self) == old(self).polled(false))
                || old(self).polled(true).interrupted_ran(*final(self), r),
            r == Ok::<Run, CpuError>(Run::Done) ==> exists|looks: Seq<Cpu>|
                #[trigger] old(self).looked_at(looks) && looks.last() == *final(self) && forall|i: int|
                    0 <= i < looks.len() - 1 ==> done.ensures((&#[trigger] looks[i],), false),
    {
        let start = self.steps;
        let ghost mut looks: Seq<Cpu> = Seq::empty();
        let ghost mut prev_op: u8 = 0;
        let ghost mut prev_mid: Cpu = *self;
        let ghost mut stepped: Cpu = *self;
        let ghost pd = !old(self).irq_masked() && (forall|b: bool| done.ensures((&old(self).polled(false),), b) ==> b);
        proof {
            lemma_leads_to_self(*old(self));
        }
        loop
            invariant
                forall|c: &Cpu| #[trigger] done.requires((c,)),
                old(self).leads_to(*self),
                pd == (!old(self).irq_masked() && (forall|b: bool| done.ensures((&old(self).polled(false),), b) ==> b)),
                pd ==> *self == *old(self) || old(self).polled(true).interrupted_to(*self),
                start == old(self).steps,
                self.steps_since(start) <= limit,
                old(self).wf() ==> self.wf(),
                self.steps_since(start) == 0 && old(self).p & 4 != 0 ==> *self == *old(self),
                old(self).p & 4 != 0 && (forall|b: bool| done.ensures((old(self),), b) ==> b) ==> self.steps_since(start) == 0,
                looks.len() == 0 ==> *self == *old(self),
                looks.len() > 0 ==> old(self).looked_at(looks) && looks.last().fetches(prev_op, prev_mid)
                    && looks.last().executed(prev_op, prev_mid, stepped, Ok(())) && stepped.after_wait(*self),
                forall|i: int| 0 <= i < looks.len() ==> done.ensures((&#[trigger] looks[i],), false),
            decreases limit - self.steps_since(start),
        {
            // Before `done`: an IRQ raised as the routine returned is
            // still work it caused.
            let ghost before_poll = *self;
            if !self.flag(Flags::I) {
                let irq = bus.irq();
                self.log = Ghost(self.log@.push(BusEvent::Irq(irq)));
                proof {
                    assert(*self == before_poll.polled(irq));
                }
                if irq {
                    self.interrupt(bus);
                }
                proof {
                    assert(before_poll.moves_to(*self));
                    lemma_leads_to_move(*old(self), before_poll, *self);
                    if pd {
                        if before_poll == *old(self) {
                            if irq {
                                lemma_leads_to_self(*self);
                                assert(old(self).polled(true).took_interrupt_into(*self));
                            }
                        } else {
                            let m = choose|m: Cpu| #[trigger] old(self).polled(true).took_interrupt_into(m) && m.leads_to(before_poll);
                            lemma_leads_to_move(m, before_poll, *self);
                        }
                    }
                }
            }
            assert(pd ==> *self == old(self).polled(false) || old(self).polled(true).interrupted_to(*self));
            proof {
                assert(before_poll.after_poll(*self));
                if looks.len() == 0 {
                    assert(looks.push(*self) =~= seq![*self]);
                    assert(old(self).looked_at(looks.push(*self)));
                } else {
                    assert(looks.last().next_look(*self));
                    lemma_look_again(*old(self), looks, *self);
                }
            }
            let ghost looks_now = looks.push(*self);
            if done(self) {
                proof {
                    if pd && *self != old(self).polled(false) {
                        let m = choose|m: Cpu| #[trigger] old(self).polled(true).took_interrupt_into(m) && m.leads_to(*self);
                        assert(m.ran(*self, Ok(Run::Done)));
                    }
                    assert(looks_now.last() == *self);
                    assert forall|i: int| 0 <= i < looks_now.len() - 1 implies done.ensures((&#[trigger] looks_now[i],), false) by {
                        assert(looks_now[i] == looks[i]);
                    }
                }
                return Ok(Run::Done);
            }
            proof {
                assert forall|i: int| 0 <= i < looks_now.len() implies done.ensures((&#[trigger] looks_now[i],), false) by {
                    if i < looks.len() {
                        assert(looks_now[i] == looks[i]);
                    }
                }
                looks = looks_now;
            }
            assert(pd ==> old(self).polled(true).interrupted_to(*self));
            let elapsed = self.steps.wrapping_sub(start);
            assert(elapsed == self.steps_since(start));
            if elapsed >= limit {
                proof {
                    if pd {
                        let m = choose|m: Cpu| #[trigger] old(self).polled(true).took_interrupt_into(m) && m.leads_to(*self);
                        assert(m.ran(*self, Err(CpuError::Limit { limit, pb: self.pb, pc: self.pc })));
                    }
                }
                return Err(CpuError::Limit { limit, pb: self.pb, pc: self.pc });
            }
            let ghost before_step = *self;
            let sr = self.step(bus);
            match sr {
                Ok(()) => {
                    proof {
                        let (op, mid) = choose|op: u8, mid: Cpu|
                            #[trigger] before_step.executed(op, mid, *self, sr) && before_step.fetches(op, mid);
                        assert(before_step.executed(op, mid, *self, Ok(())) && before_step.fetches(op, mid));
                        assert(before_step.moves_to(*self));
                        prev_op = op;
                        prev_mid = mid;
                        stepped = *self;
                        lemma_leads_to_move(*old(self), before_step, *self);
                        if pd {
                            let m = choose|m: Cpu| #[trigger] old(self).polled(true).took_interrupt_into(m) && m.leads_to(before_step);
                            lemma_leads_to_move(m, before_step, *self);
                        }
                    }
                },
                Err(e) => {
                    proof {
                        let (op, mid) = choose|op: u8, mid: Cpu|
                            #[trigger] before_step.executed(op, mid, *self, sr) && before_step.fetches(op, mid);
                        assert(old(self).leads_to(before_step) && before_step.fetches(op, mid) && before_step.executed(op, mid, *self, Err(e)));
                        assert(old(self).stops_as(*self, e));
                        if pd {
                            let m = choose|m: Cpu| #[trigger] old(self).polled(true).took_interrupt_into(m) && m.leads_to(before_step);
                            assert(m.leads_to(before_step) && before_step.fetches(op, mid) && before_step.executed(op, mid, *self, Err(e)));
                            assert(m.ran(*self, Err(e)));
                        }
                    }
                    return Err(e);
                },
            }
            assert(self.steps_since(start) == elapsed + 1);
            if self.waiting {
                let ghost w = *self;
                self.waiting = false;
                let more = bus.wait();
                self.log = Ghost(self.log@.push(BusEvent::Wait(more)));
                if !more {
                    proof {
                        assert(old(self).leads_to(w) && w.waiting);
                        if pd {
                            let m = choose|m: Cpu| #[trigger] old(self).polled(true).took_interrupt_into(m) && m.leads_to(w);
                            assert(m.leads_to(w) && w.waiting);
                            assert(m.ran(*self, Ok(Run::Waiting)));
                        }
                    }
                    return Ok(Run::Waiting);
                }
                proof {
                    assert(w.moves_to(*self));
                    lemma_leads_to_move(*old(self), w, *self);
                    if pd {
                        let m = choose|m: Cpu| #[trigger] old(self).polled(true).took_interrupt_into(m) && m.leads_to(w);
                        lemma_leads_to_move(m, w, *self);
                    }
                }
            }
        }
    }

    /// Bytes written so far: a measure of whether a run got anywhere.
    pub fn writes(&self) -> (r: u64)
        ensures
            r == self.spec_writes(),
    {
        self.writes
    }

    /// [`Cpu::run`] for a caller with nothing to resume: a wait that
    /// nothing answers is an error.
    fn run_to<B: Bus, F: Fn(&Cpu) -> bool>(&mut self, bus: &mut B, limit: u64, done: F) -> (r:
        Result<(), CpuError>)
        requires
            forall|c: &Cpu| #[trigger] done.requires((c,)),
        ensures
            r is Ok ==> done.ensures((final(self),), true),
            final(self).steps_since(old(self).spec_steps()) <= limit,
            old(self).wf() ==> final(self).wf(),
            old(self).irq_masked() && (forall|b: bool| done.ensures((old(self),), b) ==> b) ==> r
                == Ok::<(), CpuError>(()) && *final(self) == *old(self),
            old(self).irq_masked() && limit == 0 && (forall|b: bool| done.ensures((old(self),), b) ==> !b)
                ==> (r matches Err(CpuError::Limit { limit: 0, pb, pc }) && old(self).stands_at(pb, pc))
                && *final(self) == *old(self),
            r matches Err(CpuError::Waiting { .. }) ==> final(self).bus_log().len() > 0
                && final(self).bus_log().last() == BusEvent::Wait(false),
            old(self).ran_to(*final(self), r),
            r is Ok ==> exists|looks: Seq<Cpu>|
                #[trigger] old(self).looked_at(looks) && looks.last() == *final(self) && forall|i: int|
                    0 <= i < looks.len() - 1 ==> done.ensures((&#[trigger] looks[i],), false),
    {
        match self.run(bus, limit, done) {
            Ok(Run::Done) => Ok(()),
            Ok(Run::Waiting) => Err(CpuError::Waiting { pb: self.pb, pc: self.pc }),
            Err(e) => Err(e),
        }
    }

    /// True once the routine entered by [`Cpu::enter`] or
    /// [`Cpu::enter_jsr`] has returned.
    pub fn returned(&self) -> (r: bool)
        ensures
            r == self.spec_returned(),
    {
        (self.pb == RETURN_PB && self.pc == RETURN_PC) || (self.pc == RETURN_PC && match self.return_sp {
            Some(sp) => sp == self.sp,
            None => false,
        })
    }

    /// `self` is at the start of a routine at the 24-bit `addr`.
    pub closed spec fn is_at(&self, addr: u32) -> bool {
        self.pb == (addr / 0x1_0000) % 0x100 && self.pc == addr % 0x1_0000
    }

    /// Enters a subroutine as if by `JSL` from the sentinel address, so
    /// that its `RTL` leaves the CPU [`Cpu::returned`].
    pub fn enter<B: Bus>(&mut self, bus: &mut B, addr: u32)
        ensures
            final(self).is_at(addr),
            final(self).spec_return_sp() is None,
            final(self).spec_steps() == old(self).spec_steps(),
            old(self).wf() ==> final(self).wf(),
            final(self).irq_masked() == old(self).irq_masked(),
            final(self).pushed_frame(*old(self), seq![RETURN_PB, 0xFFu8, 0xFEu8]),
            final(self).entered(*old(self), addr, seq![RETURN_PB, 0xFFu8, 0xFEu8]),
    {
        let ghost c = *self;
        self.push_byte(bus, RETURN_PB);
        let ghost m = *self;
        self.push_word(bus, RETURN_PC.wrapping_sub(1));
        proof {
            lemma_sentinel_bytes();
            assert(RETURN_PC.wrapping_sub(1) == 0xFFFEu16);
            assert(sp_after_pushes(c.sp, c.emulation, 0) == c.sp);
            assert(sp_after_pushes(c.sp, c.emulation, 1) == sp_after_push(sp_after_pushes(c.sp, c.emulation, 0), c.emulation));
            assert(self.log@ =~= c.log@ + push_writes(c.sp, c.emulation, seq![RETURN_PB]) + push_writes(m.sp, c.emulation, seq![0xFFu8, 0xFEu8]));
            lemma_push_writes_add(c.sp, c.emulation, seq![RETURN_PB], seq![0xFFu8, 0xFEu8]);
            lemma_pushes_add(c.sp, c.emulation, 1, 2);
            assert(seq![RETURN_PB] + seq![0xFFu8, 0xFEu8] =~= seq![RETURN_PB, 0xFFu8, 0xFEu8]);
        }
        self.pb = ((addr / 0x1_0000) % 0x100) as u8;
        self.pc = (addr % 0x1_0000) as u16;
        self.return_sp = None;
    }

    /// Enters the interrupt handler at `handler` in bank 0 as if the
    /// interrupt had come at the sentinel address, in native mode, so
    /// that its `RTI` leaves the CPU [`Cpu::returned`].
    pub fn enter_handler<B: Bus>(&mut self, bus: &mut B, handler: u16)
        ensures
            final(self).is_at(handler as u32),
            final(self).spec_return_sp() is None,
            final(self).spec_steps() == old(self).spec_steps(),
            old(self).wf() ==> final(self).wf(),
            final(self).entered_handler(*old(self)),
    {
        let ghost c = *self;
        self.push_byte(bus, RETURN_PB);
        let ghost m1 = *self;
        self.push_word(bus, RETURN_PC);
        let ghost m2 = *self;
        self.push_byte(bus, self.p);
        proof {
            lemma_sentinel_bytes();
            assert(sp_after_pushes(c.sp, c.emulation, 0) == c.sp);
            assert(sp_after_pushes(m2.sp, c.emulation, 0) == m2.sp);
            assert(sp_after_pushes(c.sp, c.emulation, 1) == sp_after_push(sp_after_pushes(c.sp, c.emulation, 0), c.emulation));
            assert(sp_after_pushes(m2.sp, c.emulation, 1) == sp_after_push(sp_after_pushes(m2.sp, c.emulation, 0), c.emulation));
            assert(self.log@ =~= c.log@ + push_writes(c.sp, c.emulation, seq![RETURN_PB]) + push_writes(m1.sp, c.emulation, seq![0xFFu8, 0xFFu8]) + push_writes(m2.sp, c.emulation, seq![c.p]));
            let a = seq![RETURN_PB];
            let b = seq![0xFFu8, 0xFFu8];
            lemma_push_writes_add(c.sp, c.emulation, a, b);
            lemma_pushes_add(c.sp, c.emulation, 1, 2);
            lemma_push_writes_add(c.sp, c.emulation, a + b, seq![c.p]);
            lemma_pushes_add(c.sp, c.emulation, 3, 1);
            assert(a + b + seq![c.p] =~= seq![RETURN_PB, 0xFFu8, 0xFFu8, c.p]);
        }
        let p = self.p;
        proof {
            lemma_other_flag(p, 4);
            lemma_other_flag(p | 4, 8);
        }
        self.p = (p | Flags::I) & !Flags::D;
        self.pb = 0;
        self.pc = handler;
        self.return_sp = None;
    }

    /// Enters a subroutine as if by `JSR` from its own bank. An `RTS`
    /// stays in the routine's bank, so it cannot land on the bank `$FF`
    /// sentinel; the return is recognised instead by the program counter
    /// reaching the sentinel offset with the stack back where the call
    /// found it. A `JSL` frame sits under the `JSR` one, so a routine
    /// that ends in `RTL` after all returns to the sentinel proper.
    pub fn enter_jsr<B: Bus>(&mut self, bus: &mut B, addr: u32)
        ensures
            final(self).is_at(addr),
            final(self).spec_return_sp() == Some(old(self).sp_after_jsl_frame()),
            final(self).spec_steps() == old(self).spec_steps(),
            old(self).wf() ==> final(self).wf(),
            final(self).irq_masked() == old(self).irq_masked(),
            final(self).pushed_frame(*old(self), seq![RETURN_PB, 0xFFu8, 0xFEu8, 0xFFu8, 0xFEu8]),
            final(self).entered(*old(self), addr, seq![RETURN_PB, 0xFFu8, 0xFEu8, 0xFFu8, 0xFEu8]),
    {
        let ghost c = *self;
        self.enter(bus, addr);
        let sp = self.sp;
        self.push_word(bus, RETURN_PC.wrapping_sub(1));
        self.return_sp = Some(sp);
        proof {
            lemma_sentinel_bytes();
            assert(RETURN_PC.wrapping_sub(1) == 0xFFFEu16);
            let a = seq![RETURN_PB, 0xFFu8, 0xFEu8];
            assert(self.log@ =~= c.log@ + push_writes(c.sp, c.emulation, a) + push_writes(sp_after_pushes(c.sp, c.emulation, 3), c.emulation, seq![0xFFu8, 0xFEu8]));
            lemma_push_writes_add(c.sp, c.emulation, a, seq![0xFFu8, 0xFEu8]);
            lemma_pushes_add(c.sp, c.emulation, 3, 2);
            assert(a + seq![0xFFu8, 0xFEu8] =~= seq![RETURN_PB, 0xFFu8, 0xFEu8, 0xFFu8, 0xFEu8]);
        }
    }

    /// Runs the routine entered until it returns, or until the program
    /// counter gets to one of `stop` (without executing it) if that comes
    /// first. True if it has returned; otherwise the call is still open,
    /// and calling this again carries on with it: a `stop` it is already
    /// standing on is one to come round to again, not one reached.
    pub fn finish<B: Bus>(&mut self, bus: &mut B, limit: u64, stop: &[u32]) -> (r: Result<
        bool,
        CpuError,
    >)
        ensures
            r == Ok::<bool, CpuError>(false) ==> stop@.contains(final(self).spec_pc_addr())
                && !final(self).spec_returned() && final(self).spec_steps() != old(self).spec_steps(),
            r == Ok::<bool, CpuError>(true) ==> final(self).spec_return_sp() is None
                && final(self).spec_at_sentinel(),
            final(self).steps_since(old(self).spec_steps()) <= limit,
            old(self).wf() ==> final(self).wf(),
            old(self).irq_masked() && old(self).spec_returned() ==> r == Ok::<bool, CpuError>(true),
            old(self).irq_masked() && !old(self).spec_returned() && limit == 0 ==> (r matches Err(CpuError::Limit { limit: 0, pb, pc }) && old(self).stands_at(pb, pc)),
            r matches Err(CpuError::Waiting { .. }) ==> final(self).bus_log().len() > 0
                && final(self).bus_log().last() == BusEvent::Wait(false),
            old(self).finished(*final(self), r, stop@),
    {
        let start = self.steps;
        let done = |cpu: &Cpu| -> (b: bool)
            ensures
                b == (cpu.spec_returned() || (stop@.contains(cpu.spec_pc_addr()) && cpu.steps
                    != start)),
            { cpu.returned() || (contains(stop, cpu.pc_addr()) && cpu.steps != start) };
        match self.run_to(bus, limit, done) {
            Ok(()) => {},
            Err(e) => {
                return Err(e);
            },
        }
        proof {
            let looks = choose|looks: Seq<Cpu>|
                #[trigger] old(self).looked_at(looks) && looks.last() == *self && forall|i: int|
                    0 <= i < looks.len() - 1 ==> done.ensures((&#[trigger] looks[i],), false);
            assert forall|i: int| 0 <= i < looks.len() - 1 implies !(#[trigger] looks[i]).stopped_at(stop@, start) by {
                assert(done.ensures((&looks[i],), false));
            }
            assert(self.stopped_at(stop@, start));
            assert(old(self).first_stop(*self, stop@));
        }
        if !self.returned() {
            return Ok(false);
        }
        let ghost m = *self;
        // An `RTS` leaves the `JSL` frame behind.
        if self.return_sp.take() == Some(self.sp) {
            self.sp = self.sp.wrapping_add(3);
        }
        proof {
            assert(self.returned_from(m));
        }
        Ok(true)
    }

    /// Calls a subroutine as if by `JSL` and runs until it returns with
    /// `RTL`, or until `limit` instructions have executed.
    pub fn call<B: Bus>(&mut self, bus: &mut B, addr: u32, limit: u64) -> (r: Result<(), CpuError>)
        ensures
            r is Ok ==> final(self).spec_return_sp() is None && final(self).spec_at_sentinel(),
            final(self).steps_since(old(self).spec_steps()) <= limit,
            old(self).wf() ==> final(self).wf(),
            old(self).irq_masked() && addr % 0x100_0000 == 0xFF_FFFF ==> r is Ok,
            r matches Err(CpuError::Waiting { .. }) ==> final(self).bus_log().len() > 0
                && final(self).bus_log().last() == BusEvent::Wait(false),
            exists|e: Cpu|
                e.entered(*old(self), addr, seq![RETURN_PB, 0xFFu8, 0xFEu8])
                    && e.spec_return_sp() is None && #[trigger] e.finished(*final(self), call_outcome(r), Seq::empty()),
    {
        self.enter(bus, addr);
        let ghost e = *self;
        let none: &[u32] = &[];
        assert(none@ =~= Seq::<u32>::empty());
        match self.finish(bus, limit, none) {
            Ok(_) => {
                proof {
                    assert(e.finished(*self, call_outcome(Ok(())), Seq::empty()));
                }
                Ok(())
            },
            Err(x) => Err(x),
        }
    }

    /// Calls a subroutine as if by `JSR` from its own bank and runs until
    /// it returns with `RTS`.
    pub fn call_jsr<B: Bus>(&mut self, bus: &mut B, addr: u32, limit: u64) -> (r: Result<
        (),
        CpuError,
    >)
        ensures
            r is Ok ==> final(self).spec_return_sp() is None && final(self).spec_at_sentinel(),
            final(self).steps_since(old(self).spec_steps()) <= limit,
            old(self).wf() ==> final(self).wf(),
            old(self).irq_masked() && addr % 0x100_0000 == 0xFF_FFFF ==> r is Ok,
            r matches Err(CpuError::Waiting { .. }) ==> final(self).bus_log().len() > 0
                && final(self).bus_log().last() == BusEvent::Wait(false),
            exists|e: Cpu|
                e.entered(*old(self), addr, seq![RETURN_PB, 0xFFu8, 0xFEu8, 0xFFu8, 0xFEu8])
                    && e.spec_return_sp() == Some(old(self).sp_after_jsl_frame())
                    && #[trigger] e.finished(*final(self), call_outcome(r), Seq::empty()),
    {
        self.enter_jsr(bus, addr);
        let ghost e = *self;
        let none: &[u32] = &[];
        assert(none@ =~= Seq::<u32>::empty());
        match self.finish(bus, limit, none) {
            Ok(_) => {
                proof {
                    assert(e.finished(*self, call_outcome(Ok(())), Seq::empty()));
                }
                Ok(())
            },
            Err(x) => Err(x),
        }
    }

    /// Starts executing at `start` and stops when the program counter
    /// reaches `stop` (a 24-bit address), without executing it.
    pub fn run_until<B: Bus>(&mut self, bus: &mut B, start: u32, stop: &[u32], limit: u64) -> (r:
        Result<(), CpuError>)
        ensures
            r is Ok ==> stop@.contains(final(self).spec_pc_addr()),
            final(self).steps_since(old(self).spec_steps()) <= limit,
            old(self).irq_masked() && stop@.contains(start % 0x100_0000) ==> r is Ok,
            exists|s: Cpu| #[trigger] s.moved_to(*old(self), start) && s.ran_to(*final(self), r),
    {
        self.pb = (start >> 16) as u8;
        self.pc = start as u16;
        proof {
            let (pb, pc) = (self.pb, self.pc);
            assert(pb as u32 * 0x1_0000 + pc as u32 == start % 0x100_0000) by (bit_vector)
                requires
                    pb == (start >> 16) as u8,
                    pc == start as u16,
            ;
            assert(pb == ((start / 0x1_0000) % 0x100) as u8 && pc == (start % 0x1_0000) as u16) by (bit_vector)
                requires
                    pb == (start >> 16) as u8,
                    pc == start as u16,
            ;
            assert(self.moved_to(*old(self), start));
        }
        let ghost s = *self;
        let done = |cpu: &Cpu| -> (b: bool)
            ensures
                b == stop@.contains(cpu.spec_pc_addr()),
            { contains(stop, cpu.pc_addr()) };
        self.run_to(bus, limit, done)
    }
}

/// Whether `list` holds `v`.
fn contains(list: &[u32], v: u32) -> (r: bool)
    ensures
        r == list@.contains(v),
{
    let mut i: usize = 0;
    while i < list.len()
        invariant
            i <= list@.len(),
            forall|j: int| 0 <= j < i ==> list@[j] != v,
        decreases list@.len() - i,
    {
        if list[i] == v {
            assert(list@[i as int] == v);
            return true;
        }
        i = i + 1;
    }
    false
}

/// What [`Cpu::finish`] gave, for a call that returned `r`: a call
/// returns `Ok` where the routine returned.
pub open spec fn call_outcome(r: Result<(), CpuError>) -> Result<bool, CpuError> {
    match r {
        Ok(()) => Ok(true),
        Err(e) => Err(e),
    }
}

/// `BRK`, `COP` or `STP` at `pb:pc`.
pub open spec fn stop_error(e: CpuError, pb: u8, pc: u16) -> bool {
    e == CpuError::Brk { pb, pc } || e == CpuError::Cop { pb, pc } || e == CpuError::Halted { pb, pc }
}

/// Corrects the digit `digit` of a sum whose higher digits are still to
/// come.
fn correct(sum: i32, digit: u32, subtract: bool) -> (r: i32)
    requires
        digit <= 3,
        -0x10_0000 <= sum <= 0x10_0000,
    ensures
        sum - 0x6000 <= r <= sum + 0x6000,
        r == bcd_correct(sum as int, digit as int, subtract),
{
    let unit: i32 = if digit == 0 {
        1
    } else if digit == 1 {
        0x10
    } else if digit == 2 {
        0x100
    } else {
        0x1000
    };
    let digit_max = 0x10 * unit - 1;
    if subtract && sum <= digit_max {
        sum - 6 * unit
    } else if !subtract && sum > digit_max - 6 * unit {
        sum + 6 * unit
    } else {
        sum
    }
}


} // verus!
