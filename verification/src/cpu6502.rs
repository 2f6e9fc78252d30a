//! Minimal 6502 core (official opcodes only) for the headless machine.
//! Cycle counts are per-opcode base values (page-cross penalties ignored),
//! accurate enough to pace vblank and NMI for a program without cycle-timed
//! raster effects.

use vstd::prelude::*;

verus! {

/// Carry flag.
pub const C: u8 = 0x01;

/// Zero flag.
pub const Z: u8 = 0x02;

/// Interrupt-disable flag.
pub const I: u8 = 0x04;

/// Decimal flag (kept, never acted on).
pub const D: u8 = 0x08;

/// Break flag (only ever set in pushed copies of the status register).
pub const B: u8 = 0x10;

/// The unused status bit, which always reads as set.
pub const U: u8 = 0x20;

/// Overflow flag.
pub const V: u8 = 0x40;

/// Negative flag.
pub const N: u8 = 0x80;

/// What the processor is wired to. A device has a mathematical state; a read
/// may change it (status registers, shift registers), a write always may.
pub trait Bus: Sized {
    /// The device's state as contracts see it.
    type State;

    /// The state of this device.
    spec fn state(&self) -> Self::State;

    /// The states a device can be in.
    spec fn sound(s: Self::State) -> bool;

    /// A read at `addr`: the state after it and the byte it delivers.
    spec fn reading(s: Self::State, addr: u16) -> (Self::State, u8);

    /// A write of `val` at `addr`: the state after it.
    spec fn writing(s: Self::State, addr: u16, val: u8) -> Self::State;

    fn read(&mut self, addr: u16) -> (val: u8)
        requires
            Self::sound(old(self).state()),
        ensures
            Self::sound(final(self).state()),
            (final(self).state(), val) == Self::reading(old(self).state(), addr),
    ;

    fn write(&mut self, addr: u16, val: u8)
        requires
            Self::sound(old(self).state()),
        ensures
            Self::sound(final(self).state()),
            final(self).state() == Self::writing(old(self).state(), addr, val),
    ;
}

/// The register file.
pub struct Cpu {
    pub a: u8,
    pub x: u8,
    pub y: u8,
    pub sp: u8,
    pub pc: u16,
    pub p: u8,
}

/// Registers plus everything on the bus.
pub struct Machine<S> {
    pub cpu: Cpu,
    pub bus: S,
}

/// The machine made of a processor and a device.
pub open spec fn machine<T: Bus>(cpu: Cpu, bus: T) -> Machine<T::State> {
    Machine { cpu, bus: bus.state() }
}

/// The registers that loads, stores and compares name.
pub enum Reg {
    A,
    X,
    Y,
}

/// Addressing modes.
pub enum Mode {
    Imm,
    Zp,
    ZpX,
    ZpY,
    Abs,
    AbsX,
    AbsY,
    IndX,
    IndY,
}

/// Bitwise operations on the accumulator.
pub enum Logic {
    And,
    Or,
    Xor,
}

/// Shifts and rotates by one bit.
pub enum Shift {
    Asl,
    Lsr,
    Rol,
    Ror,
}

/// One instruction with its operand's addressing mode. `Branch(f, b)` is taken
/// when flag `f` equals `b`; `Flag(f, b)` sets flag `f` to `b`.
pub enum Instr {
    Load(Reg, Mode),
    Store(Reg, Mode),
    Tax,
    Tay,
    Txa,
    Tya,
    Tsx,
    Txs,
    Pha,
    Php,
    Pla,
    Plp,
    Logic(Logic, Mode),
    Bit(Mode),
    Adc(Mode),
    Sbc(Mode),
    Compare(Reg, Mode),
    Inc(Mode),
    Dec(Mode),
    Inx,
    Iny,
    Dex,
    Dey,
    ShiftA(Shift),
    ShiftMem(Shift, Mode),
    Jmp,
    JmpInd,
    Jsr,
    Rts,
    Rti,
    Brk,
    Branch(u8, bool),
    Flag(u8, bool),
    Nop,
}

/// The opcode table: the instruction and its base cycle count, `None` for an
/// opcode that is not official.
pub open spec fn decode_of(op: u8) -> Option<(Instr, u32)> {
    match op {
        // LDA, LDX, LDY
        0xA9 => Some((Instr::Load(Reg::A, Mode::Imm), 2)),
        0xA5 => Some((Instr::Load(Reg::A, Mode::Zp), 3)),
        0xB5 => Some((Instr::Load(Reg::A, Mode::ZpX), 4)),
        0xAD => Some((Instr::Load(Reg::A, Mode::Abs), 4)),
        0xBD => Some((Instr::Load(Reg::A, Mode::AbsX), 4)),
        0xB9 => Some((Instr::Load(Reg::A, Mode::AbsY), 4)),
        0xA1 => Some((Instr::Load(Reg::A, Mode::IndX), 6)),
        0xB1 => Some((Instr::Load(Reg::A, Mode::IndY), 5)),
        0xA2 => Some((Instr::Load(Reg::X, Mode::Imm), 2)),
        0xA6 => Some((Instr::Load(Reg::X, Mode::Zp), 3)),
        0xB6 => Some((Instr::Load(Reg::X, Mode::ZpY), 4)),
        0xAE => Some((Instr::Load(Reg::X, Mode::Abs), 4)),
        0xBE => Some((Instr::Load(Reg::X, Mode::AbsY), 4)),
        0xA0 => Some((Instr::Load(Reg::Y, Mode::Imm), 2)),
        0xA4 => Some((Instr::Load(Reg::Y, Mode::Zp), 3)),
        0xB4 => Some((Instr::Load(Reg::Y, Mode::ZpX), 4)),
        0xAC => Some((Instr::Load(Reg::Y, Mode::Abs), 4)),
        0xBC => Some((Instr::Load(Reg::Y, Mode::AbsX), 4)),
        // STA, STX, STY
        0x85 => Some((Instr::Store(Reg::A, Mode::Zp), 3)),
        0x95 => Some((Instr::Store(Reg::A, Mode::ZpX), 4)),
        0x8D => Some((Instr::Store(Reg::A, Mode::Abs), 4)),
        0x9D => Some((Instr::Store(Reg::A, Mode::AbsX), 5)),
        0x99 => Some((Instr::Store(Reg::A, Mode::AbsY), 5)),
        0x81 => Some((Instr::Store(Reg::A, Mode::IndX), 6)),
        0x91 => Some((Instr::Store(Reg::A, Mode::IndY), 6)),
        0x86 => Some((Instr::Store(Reg::X, Mode::Zp), 3)),
        0x96 => Some((Instr::Store(Reg::X, Mode::ZpY), 4)),
        0x8E => Some((Instr::Store(Reg::X, Mode::Abs), 4)),
        0x84 => Some((Instr::Store(Reg::Y, Mode::Zp), 3)),
        0x94 => Some((Instr::Store(Reg::Y, Mode::ZpX), 4)),
        0x8C => Some((Instr::Store(Reg::Y, Mode::Abs), 4)),
        // Transfers
        0xAA => Some((Instr::Tax, 2)),
        0xA8 => Some((Instr::Tay, 2)),
        0x8A => Some((Instr::Txa, 2)),
        0x98 => Some((Instr::Tya, 2)),
        0xBA => Some((Instr::Tsx, 2)),
        0x9A => Some((Instr::Txs, 2)),
        // Stack
        0x48 => Some((Instr::Pha, 3)),
        0x08 => Some((Instr::Php, 3)),
        0x68 => Some((Instr::Pla, 4)),
        0x28 => Some((Instr::Plp, 4)),
        // AND, ORA, EOR
        0x29 => Some((Instr::Logic(Logic::And, Mode::Imm), 2)),
        0x25 => Some((Instr::Logic(Logic::And, Mode::Zp), 3)),
        0x35 => Some((Instr::Logic(Logic::And, Mode::ZpX), 4)),
        0x2D => Some((Instr::Logic(Logic::And, Mode::Abs), 4)),
        0x3D => Some((Instr::Logic(Logic::And, Mode::AbsX), 4)),
        0x39 => Some((Instr::Logic(Logic::And, Mode::AbsY), 4)),
        0x21 => Some((Instr::Logic(Logic::And, Mode::IndX), 6)),
        0x31 => Some((Instr::Logic(Logic::And, Mode::IndY), 5)),
        0x09 => Some((Instr::Logic(Logic::Or, Mode::Imm), 2)),
        0x05 => Some((Instr::Logic(Logic::Or, Mode::Zp), 3)),
        0x15 => Some((Instr::Logic(Logic::Or, Mode::ZpX), 4)),
        0x0D => Some((Instr::Logic(Logic::Or, Mode::Abs), 4)),
        0x1D => Some((Instr::Logic(Logic::Or, Mode::AbsX), 4)),
        0x19 => Some((Instr::Logic(Logic::Or, Mode::AbsY), 4)),
        0x01 => Some((Instr::Logic(Logic::Or, Mode::IndX), 6)),
        0x11 => Some((Instr::Logic(Logic::Or, Mode::IndY), 5)),
        0x49 => Some((Instr::Logic(Logic::Xor, Mode::Imm), 2)),
        0x45 => Some((Instr::Logic(Logic::Xor, Mode::Zp), 3)),
        0x55 => Some((Instr::Logic(Logic::Xor, Mode::ZpX), 4)),
        0x4D => Some((Instr::Logic(Logic::Xor, Mode::Abs), 4)),
        0x5D => Some((Instr::Logic(Logic::Xor, Mode::AbsX), 4)),
        0x59 => Some((Instr::Logic(Logic::Xor, Mode::AbsY), 4)),
        0x41 => Some((Instr::Logic(Logic::Xor, Mode::IndX), 6)),
        0x51 => Some((Instr::Logic(Logic::Xor, Mode::IndY), 5)),
        // BIT
        0x24 => Some((Instr::Bit(Mode::Zp), 3)),
        0x2C => Some((Instr::Bit(Mode::Abs), 4)),
        // ADC, SBC
        0x69 => Some((Instr::Adc(Mode::Imm), 2)),
        0x65 => Some((Instr::Adc(Mode::Zp), 3)),
        0x75 => Some((Instr::Adc(Mode::ZpX), 4)),
        0x6D => Some((Instr::Adc(Mode::Abs), 4)),
        0x7D => Some((Instr::Adc(Mode::AbsX), 4)),
        0x79 => Some((Instr::Adc(Mode::AbsY), 4)),
        0x61 => Some((Instr::Adc(Mode::IndX), 6)),
        0x71 => Some((Instr::Adc(Mode::IndY), 5)),
        0xE9 => Some((Instr::Sbc(Mode::Imm), 2)),
        0xE5 => Some((Instr::Sbc(Mode::Zp), 3)),
        0xF5 => Some((Instr::Sbc(Mode::ZpX), 4)),
        0xED => Some((Instr::Sbc(Mode::Abs), 4)),
        0xFD => Some((Instr::Sbc(Mode::AbsX), 4)),
        0xF9 => Some((Instr::Sbc(Mode::AbsY), 4)),
        0xE1 => Some((Instr::Sbc(Mode::IndX), 6)),
        0xF1 => Some((Instr::Sbc(Mode::IndY), 5)),
        // CMP, CPX, CPY
        0xC9 => Some((Instr::Compare(Reg::A, Mode::Imm), 2)),
        0xC5 => Some((Instr::Compare(Reg::A, Mode::Zp), 3)),
        0xD5 => Some((Instr::Compare(Reg::A, Mode::ZpX), 4)),
        0xCD => Some((Instr::Compare(Reg::A, Mode::Abs), 4)),
        0xDD => Some((Instr::Compare(Reg::A, Mode::AbsX), 4)),
        0xD9 => Some((Instr::Compare(Reg::A, Mode::AbsY), 4)),
        0xC1 => Some((Instr::Compare(Reg::A, Mode::IndX), 6)),
        0xD1 => Some((Instr::Compare(Reg::A, Mode::IndY), 5)),
        0xE0 => Some((Instr::Compare(Reg::X, Mode::Imm), 2)),
        0xE4 => Some((Instr::Compare(Reg::X, Mode::Zp), 3)),
        0xEC => Some((Instr::Compare(Reg::X, Mode::Abs), 4)),
        0xC0 => Some((Instr::Compare(Reg::Y, Mode::Imm), 2)),
        0xC4 => Some((Instr::Compare(Reg::Y, Mode::Zp), 3)),
        0xCC => Some((Instr::Compare(Reg::Y, Mode::Abs), 4)),
        // INC, DEC
        0xE6 => Some((Instr::Inc(Mode::Zp), 5)),
        0xF6 => Some((Instr::Inc(Mode::ZpX), 6)),
        0xEE => Some((Instr::Inc(Mode::Abs), 6)),
        0xFE => Some((Instr::Inc(Mode::AbsX), 7)),
        0xC6 => Some((Instr::Dec(Mode::Zp), 5)),
        0xD6 => Some((Instr::Dec(Mode::ZpX), 6)),
        0xCE => Some((Instr::Dec(Mode::Abs), 6)),
        0xDE => Some((Instr::Dec(Mode::AbsX), 7)),
        0xE8 => Some((Instr::Inx, 2)),
        0xC8 => Some((Instr::Iny, 2)),
        0xCA => Some((Instr::Dex, 2)),
        0x88 => Some((Instr::Dey, 2)),
        // Shifts and rotates
        0x0A => Some((Instr::ShiftA(Shift::Asl), 2)),
        0x06 => Some((Instr::ShiftMem(Shift::Asl, Mode::Zp), 5)),
        0x16 => Some((Instr::ShiftMem(Shift::Asl, Mode::ZpX), 6)),
        0x0E => Some((Instr::ShiftMem(Shift::Asl, Mode::Abs), 6)),
        0x1E => Some((Instr::ShiftMem(Shift::Asl, Mode::AbsX), 7)),
        0x4A => Some((Instr::ShiftA(Shift::Lsr), 2)),
        0x46 => Some((Instr::ShiftMem(Shift::Lsr, Mode::Zp), 5)),
        0x56 => Some((Instr::ShiftMem(Shift::Lsr, Mode::ZpX), 6)),
        0x4E => Some((Instr::ShiftMem(Shift::Lsr, Mode::Abs), 6)),
        0x5E => Some((Instr::ShiftMem(Shift::Lsr, Mode::AbsX), 7)),
        0x2A => Some((Instr::ShiftA(Shift::Rol), 2)),
        0x26 => Some((Instr::ShiftMem(Shift::Rol, Mode::Zp), 5)),
        0x36 => Some((Instr::ShiftMem(Shift::Rol, Mode::ZpX), 6)),
        0x2E => Some((Instr::ShiftMem(Shift::Rol, Mode::Abs), 6)),
        0x3E => Some((Instr::ShiftMem(Shift::Rol, Mode::AbsX), 7)),
        0x6A => Some((Instr::ShiftA(Shift::Ror), 2)),
        0x66 => Some((Instr::ShiftMem(Shift::Ror, Mode::Zp), 5)),
        0x76 => Some((Instr::ShiftMem(Shift::Ror, Mode::ZpX), 6)),
        0x6E => Some((Instr::ShiftMem(Shift::Ror, Mode::Abs), 6)),
        0x7E => Some((Instr::ShiftMem(Shift::Ror, Mode::AbsX), 7)),
        // Jumps and interrupts
        0x4C => Some((Instr::Jmp, 3)),
        0x6C => Some((Instr::JmpInd, 5)),
        0x20 => Some((Instr::Jsr, 6)),
        0x60 => Some((Instr::Rts, 6)),
        0x40 => Some((Instr::Rti, 6)),
        0x00 => Some((Instr::Brk, 7)),
        // Branches (one cycle more when taken)
        0x90 => Some((Instr::Branch(C, false), 2)),
        0xB0 => Some((Instr::Branch(C, true), 2)),
        0xF0 => Some((Instr::Branch(Z, true), 2)),
        0xD0 => Some((Instr::Branch(Z, false), 2)),
        0x30 => Some((Instr::Branch(N, true), 2)),
        0x10 => Some((Instr::Branch(N, false), 2)),
        0x50 => Some((Instr::Branch(V, false), 2)),
        0x70 => Some((Instr::Branch(V, true), 2)),
        // Flags
        0x18 => Some((Instr::Flag(C, false), 2)),
        0x38 => Some((Instr::Flag(C, true), 2)),
        0x58 => Some((Instr::Flag(I, false), 2)),
        0x78 => Some((Instr::Flag(I, true), 2)),
        0xB8 => Some((Instr::Flag(V, false), 2)),
        0xD8 => Some((Instr::Flag(D, false), 2)),
        0xF8 => Some((Instr::Flag(D, true), 2)),
        0xEA => Some((Instr::Nop, 2)),
        _ => None,
    }
}

// ---------------------------------------------------------------------------
// Numbers
// ---------------------------------------------------------------------------

/// `x` modulo 2^8.
pub open spec fn wrap8(x: int) -> u8 {
    (x % 256) as u8
}

/// `x` modulo 2^16.
pub open spec fn wrap16(x: int) -> u16 {
    (x % 0x10000) as u16
}

/// The 16-bit number with these two bytes.
pub open spec fn word(lo: u8, hi: u8) -> u16 {
    (lo + 256 * hi) as u16
}

/// A byte read as a two's-complement number.
pub open spec fn signed(v: u8) -> int {
    if v < 128 {
        v as int
    } else {
        v - 256
    }
}

/// Whether `flag` is set in `p`.
pub open spec fn has(p: u8, flag: u8) -> bool {
    p & flag != 0
}

/// `p` with `flag` set or cleared.
pub open spec fn with(p: u8, flag: u8, on: bool) -> u8 {
    if on {
        p | flag
    } else {
        p & !flag
    }
}

/// The carry flag as a number.
pub open spec fn carry(p: u8) -> int {
    if has(p, C) {
        1
    } else {
        0
    }
}

/// The status register after a result `v`: zero and negative follow it.
pub open spec fn nz(p: u8, v: u8) -> u8 {
    with(with(p, Z, v == 0), N, v >= 128)
}

// ---------------------------------------------------------------------------
// Register-only steps
// ---------------------------------------------------------------------------

pub open spec fn reg_of(c: Cpu, r: Reg) -> u8 {
    match r {
        Reg::A => c.a,
        Reg::X => c.x,
        Reg::Y => c.y,
    }
}

/// The register takes `v`, and the flags follow.
pub open spec fn loaded(c: Cpu, r: Reg, v: u8) -> Cpu {
    let p = nz(c.p, v);
    match r {
        Reg::A => Cpu { a: v, p, ..c },
        Reg::X => Cpu { x: v, p, ..c },
        Reg::Y => Cpu { y: v, p, ..c },
    }
}

/// Addition with carry: the carry is the unsigned overflow, V the signed one.
pub open spec fn adc_of(c: Cpu, v: u8) -> Cpu {
    let sum = c.a + v + carry(c.p);
    let total = signed(c.a) + signed(v) + carry(c.p);
    let r = wrap8(sum);
    Cpu { a: r, p: nz(with(with(c.p, C, sum > 255), V, !(-128 <= total <= 127)), r), ..c }
}

/// Subtraction with borrow: a clear carry borrows, and the carry afterwards
/// says that nothing was borrowed.
pub open spec fn sbc_of(c: Cpu, v: u8) -> Cpu {
    let diff = c.a - v - (1 - carry(c.p));
    let total = signed(c.a) - signed(v) - (1 - carry(c.p));
    let r = wrap8(diff);
    Cpu { a: r, p: nz(with(with(c.p, C, diff >= 0), V, !(-128 <= total <= 127)), r), ..c }
}

/// Comparison of a register value with `v`.
pub open spec fn compared(c: Cpu, reg: u8, v: u8) -> Cpu {
    Cpu { p: nz(with(c.p, C, reg >= v), wrap8(reg - v)), ..c }
}

/// Bits V and N of the operand, and whether it shares a bit with A.
pub open spec fn bit_of(c: Cpu, v: u8) -> Cpu {
    Cpu { p: with(with(with(c.p, Z, c.a & v == 0), V, has(v, V)), N, v >= 128), ..c }
}

pub open spec fn logic_of(l: Logic, a: u8, v: u8) -> u8 {
    match l {
        Logic::And => a & v,
        Logic::Or => a | v,
        Logic::Xor => a ^ v,
    }
}

/// The shifted byte.
pub open spec fn shift_result(k: Shift, p: u8, v: u8) -> u8 {
    match k {
        Shift::Asl => wrap8(2 * v),
        Shift::Lsr => (v / 2) as u8,
        Shift::Rol => wrap8(2 * v + carry(p)),
        Shift::Ror => (v / 2 + 128 * carry(p)) as u8,
    }
}

/// Whether the bit shifted out is set.
pub open spec fn shift_out(k: Shift, v: u8) -> bool {
    match k {
        Shift::Asl | Shift::Rol => v >= 128,
        Shift::Lsr | Shift::Ror => v % 2 == 1,
    }
}

/// The registers after a shift of `v`.
pub open spec fn shifted(c: Cpu, k: Shift, v: u8) -> Cpu {
    Cpu { p: nz(with(c.p, C, shift_out(k, v)), shift_result(k, c.p, v)), ..c }
}

/// The status register pulled from the stack: bit U set, B clear.
pub open spec fn pulled_status(v: u8) -> u8 {
    with(with(v, U, true), B, false)
}

// ---------------------------------------------------------------------------
// Steps over the bus
// ---------------------------------------------------------------------------

pub open spec fn read_of<T: Bus>(m: Machine<T::State>, addr: u16) -> (Machine<T::State>, u8) {
    let (bus, v) = T::reading(m.bus, addr);
    (Machine { cpu: m.cpu, bus }, v)
}

pub open spec fn write_of<T: Bus>(m: Machine<T::State>, addr: u16, v: u8) -> Machine<T::State> {
    Machine { cpu: m.cpu, bus: T::writing(m.bus, addr, v) }
}

/// The byte at the program counter, which moves on.
pub open spec fn fetch_of<T: Bus>(m: Machine<T::State>) -> (Machine<T::State>, u8) {
    let (bus, v) = T::reading(m.bus, m.cpu.pc);
    (Machine { cpu: Cpu { pc: wrap16(m.cpu.pc + 1), ..m.cpu }, bus }, v)
}

/// Two bytes at the program counter, low byte first.
pub open spec fn fetch16_of<T: Bus>(m: Machine<T::State>) -> (Machine<T::State>, u16) {
    let (m1, lo) = fetch_of::<T>(m);
    let (m2, hi) = fetch_of::<T>(m1);
    (m2, word(lo, hi))
}

/// A 16-bit pointer read from two addresses, low byte first.
pub open spec fn pointer_of<T: Bus>(m: Machine<T::State>, lo_at: u16, hi_at: u16) -> (
    Machine<T::State>,
    u16,
) {
    let (m1, lo) = read_of::<T>(m, lo_at);
    let (m2, hi) = read_of::<T>(m1, hi_at);
    (m2, word(lo, hi))
}

pub open spec fn push_of<T: Bus>(m: Machine<T::State>, v: u8) -> Machine<T::State> {
    let m1 = write_of::<T>(m, (0x0100 + m.cpu.sp) as u16, v);
    Machine { cpu: Cpu { sp: wrap8(m1.cpu.sp - 1), ..m1.cpu }, bus: m1.bus }
}

pub open spec fn pop_of<T: Bus>(m: Machine<T::State>) -> (Machine<T::State>, u8) {
    let sp = wrap8(m.cpu.sp + 1);
    read_of::<T>(Machine { cpu: Cpu { sp, ..m.cpu }, bus: m.bus }, (0x0100 + sp) as u16)
}

/// Pushes a 16-bit number, high byte first.
pub open spec fn push16_of<T: Bus>(m: Machine<T::State>, w: u16) -> Machine<T::State> {
    push_of::<T>(push_of::<T>(m, (w / 256) as u8), wrap8(w as int))
}

/// Pops a 16-bit number, low byte first.
pub open spec fn pop16_of<T: Bus>(m: Machine<T::State>) -> (Machine<T::State>, u16) {
    let (m1, lo) = pop_of::<T>(m);
    let (m2, hi) = pop_of::<T>(m1);
    (m2, word(lo, hi))
}

/// The effective address of an operand. An immediate operand is the byte at
/// the program counter. Zero-page sums stay in the zero page.
pub open spec fn address_of<T: Bus>(m: Machine<T::State>, mode: Mode) -> (Machine<T::State>, u16) {
    match mode {
        Mode::Imm => (
            Machine { cpu: Cpu { pc: wrap16(m.cpu.pc + 1), ..m.cpu }, bus: m.bus },
            m.cpu.pc,
        ),
        Mode::Zp => {
            let (m1, v) = fetch_of::<T>(m);
            (m1, v as u16)
        },
        Mode::ZpX => {
            let (m1, v) = fetch_of::<T>(m);
            (m1, wrap8(v + m.cpu.x) as u16)
        },
        Mode::ZpY => {
            let (m1, v) = fetch_of::<T>(m);
            (m1, wrap8(v + m.cpu.y) as u16)
        },
        Mode::Abs => fetch16_of::<T>(m),
        Mode::AbsX => {
            let (m1, w) = fetch16_of::<T>(m);
            (m1, wrap16(w + m.cpu.x))
        },
        Mode::AbsY => {
            let (m1, w) = fetch16_of::<T>(m);
            (m1, wrap16(w + m.cpu.y))
        },
        Mode::IndX => {
            let (m1, v) = fetch_of::<T>(m);
            let zp = wrap8(v + m.cpu.x);
            pointer_of::<T>(m1, zp as u16, wrap8(zp + 1) as u16)
        },
        Mode::IndY => {
            let (m1, zp) = fetch_of::<T>(m);
            let (m2, w) = pointer_of::<T>(m1, zp as u16, wrap8(zp + 1) as u16);
            (m2, wrap16(w + m.cpu.y))
        },
    }
}

/// The operand itself.
pub open spec fn operand_of<T: Bus>(m: Machine<T::State>, mode: Mode) -> (Machine<T::State>, u8) {
    let (m1, addr) = address_of::<T>(m, mode);
    read_of::<T>(m1, addr)
}

/// A jump through an interrupt vector.
pub open spec fn vectored<T: Bus>(m: Machine<T::State>, vector: u16) -> Machine<T::State> {
    let (m1, pc) = pointer_of::<T>(m, vector, (vector + 1) as u16);
    Machine { cpu: Cpu { pc, ..m1.cpu }, bus: m1.bus }
}

/// Return address and status on the stack, interrupts disabled, jump through
/// the vector: what an interrupt does with the status byte `pushed`.
pub open spec fn interrupted<T: Bus>(
    m: Machine<T::State>,
    ret: u16,
    pushed: u8,
    vector: u16,
) -> Machine<T::State> {
    let m1 = push_of::<T>(push16_of::<T>(m, ret), pushed);
    vectored::<T>(
        Machine { cpu: Cpu { p: with(m1.cpu.p, I, true), ..m1.cpu }, bus: m1.bus },
        vector,
    )
}

/// The machine after reset.
pub open spec fn reset_of<T: Bus>(m: Machine<T::State>) -> Machine<T::State> {
    let m1 = vectored::<T>(m, 0xFFFC);
    Machine { cpu: Cpu { sp: 0xFD, p: I | U, ..m1.cpu }, bus: m1.bus }
}

/// The machine after a non-maskable interrupt.
pub open spec fn nmi_of<T: Bus>(m: Machine<T::State>) -> Machine<T::State> {
    interrupted::<T>(m, m.cpu.pc, pulled_status(m.cpu.p), 0xFFFA)
}

/// Whether the branch is taken.
pub open spec fn taken(c: Cpu, i: Instr) -> bool {
    match i {
        Instr::Branch(flag, want) => has(c.p, flag) == want,
        _ => false,
    }
}

/// What an instruction does once its opcode has been fetched.
pub open spec fn execute_of<T: Bus>(m: Machine<T::State>, i: Instr) -> Machine<T::State> {
    let c = m.cpu;
    match i {
        Instr::Load(r, mode) => {
            let (m1, v) = operand_of::<T>(m, mode);
            Machine { cpu: loaded(m1.cpu, r, v), bus: m1.bus }
        },
        Instr::Store(r, mode) => {
            let (m1, addr) = address_of::<T>(m, mode);
            write_of::<T>(m1, addr, reg_of(c, r))
        },
        Instr::Tax => Machine { cpu: loaded(c, Reg::X, c.a), bus: m.bus },
        Instr::Tay => Machine { cpu: loaded(c, Reg::Y, c.a), bus: m.bus },
        Instr::Txa => Machine { cpu: loaded(c, Reg::A, c.x), bus: m.bus },
        Instr::Tya => Machine { cpu: loaded(c, Reg::A, c.y), bus: m.bus },
        Instr::Tsx => Machine { cpu: loaded(c, Reg::X, c.sp), bus: m.bus },
        Instr::Txs => Machine { cpu: Cpu { sp: c.x, ..c }, bus: m.bus },
        Instr::Pha => push_of::<T>(m, c.a),
        Instr::Php => push_of::<T>(m, with(with(c.p, B, true), U, true)),
        Instr::Pla => {
            let (m1, v) = pop_of::<T>(m);
            Machine { cpu: loaded(m1.cpu, Reg::A, v), bus: m1.bus }
        },
        Instr::Plp => {
            let (m1, v) = pop_of::<T>(m);
            Machine { cpu: Cpu { p: pulled_status(v), ..m1.cpu }, bus: m1.bus }
        },
        Instr::Logic(l, mode) => {
            let (m1, v) = operand_of::<T>(m, mode);
            Machine { cpu: loaded(m1.cpu, Reg::A, logic_of(l, c.a, v)), bus: m1.bus }
        },
        Instr::Bit(mode) => {
            let (m1, v) = operand_of::<T>(m, mode);
            Machine { cpu: bit_of(m1.cpu, v), bus: m1.bus }
        },
        Instr::Adc(mode) => {
            let (m1, v) = operand_of::<T>(m, mode);
            Machine { cpu: adc_of(m1.cpu, v), bus: m1.bus }
        },
        Instr::Sbc(mode) => {
            let (m1, v) = operand_of::<T>(m, mode);
            Machine { cpu: sbc_of(m1.cpu, v), bus: m1.bus }
        },
        Instr::Compare(r, mode) => {
            let (m1, v) = operand_of::<T>(m, mode);
            Machine { cpu: compared(m1.cpu, reg_of(c, r), v), bus: m1.bus }
        },
        Instr::Inc(mode) => {
            let (m1, addr) = address_of::<T>(m, mode);
            let (m2, v) = read_of::<T>(m1, addr);
            let m3 = write_of::<T>(m2, addr, wrap8(v + 1));
            Machine { cpu: Cpu { p: nz(m3.cpu.p, wrap8(v + 1)), ..m3.cpu }, bus: m3.bus }
        },
        Instr::Dec(mode) => {
            let (m1, addr) = address_of::<T>(m, mode);
            let (m2, v) = read_of::<T>(m1, addr);
            let m3 = write_of::<T>(m2, addr, wrap8(v - 1));
            Machine { cpu: Cpu { p: nz(m3.cpu.p, wrap8(v - 1)), ..m3.cpu }, bus: m3.bus }
        },
        Instr::Inx => Machine { cpu: loaded(c, Reg::X, wrap8(c.x + 1)), bus: m.bus },
        Instr::Iny => Machine { cpu: loaded(c, Reg::Y, wrap8(c.y + 1)), bus: m.bus },
        Instr::Dex => Machine { cpu: loaded(c, Reg::X, wrap8(c.x - 1)), bus: m.bus },
        Instr::Dey => Machine { cpu: loaded(c, Reg::Y, wrap8(c.y - 1)), bus: m.bus },
        Instr::ShiftA(k) => Machine {
            cpu: Cpu { a: shift_result(k, c.p, c.a), ..shifted(c, k, c.a) },
            bus: m.bus,
        },
        Instr::ShiftMem(k, mode) => {
            let (m1, addr) = address_of::<T>(m, mode);
            let (m2, v) = read_of::<T>(m1, addr);
            write_of::<T>(
                Machine { cpu: shifted(m2.cpu, k, v), bus: m2.bus },
                addr,
                shift_result(k, m2.cpu.p, v),
            )
        },
        Instr::Jmp => {
            let (m1, pc) = fetch16_of::<T>(m);
            Machine { cpu: Cpu { pc, ..m1.cpu }, bus: m1.bus }
        },
        Instr::JmpInd => {
            // The pointer's high byte comes from the same page.
            let (m1, at) = fetch16_of::<T>(m);
            let hi_at = (at / 256 * 256 + (at + 1) % 256) as u16;
            let (m2, pc) = pointer_of::<T>(m1, at, hi_at);
            Machine { cpu: Cpu { pc, ..m2.cpu }, bus: m2.bus }
        },
        Instr::Jsr => {
            let (m1, target) = fetch16_of::<T>(m);
            let m2 = push16_of::<T>(m1, wrap16(m1.cpu.pc - 1));
            Machine { cpu: Cpu { pc: target, ..m2.cpu }, bus: m2.bus }
        },
        Instr::Rts => {
            let (m1, ret) = pop16_of::<T>(m);
            Machine { cpu: Cpu { pc: wrap16(ret + 1), ..m1.cpu }, bus: m1.bus }
        },
        Instr::Rti => {
            let (m1, v) = pop_of::<T>(m);
            let (m2, pc) = pop16_of::<T>(
                Machine { cpu: Cpu { p: pulled_status(v), ..m1.cpu }, bus: m1.bus },
            );
            Machine { cpu: Cpu { pc, ..m2.cpu }, bus: m2.bus }
        },
        Instr::Brk => interrupted::<T>(
            m,
            wrap16(c.pc + 1),
            with(with(c.p, B, true), U, true),
            0xFFFE,
        ),
        Instr::Branch(_, _) => {
            let (m1, off) = fetch_of::<T>(m);
            if taken(c, i) {
                Machine {
                    cpu: Cpu { pc: wrap16(m1.cpu.pc + signed(off)), ..m1.cpu },
                    bus: m1.bus,
                }
            } else {
                m1
            }
        },
        Instr::Flag(flag, on) => Machine { cpu: Cpu { p: with(c.p, flag, on), ..c }, bus: m.bus },
        Instr::Nop => m,
    }
}

/// One whole instruction: the machine after it and its cycles, `None` where
/// the opcode at the program counter is not official.
#[verifier::opaque]
pub open spec fn step_of<T: Bus>(m: Machine<T::State>) -> Option<(Machine<T::State>, u32)> {
    let (m1, op) = fetch_of::<T>(m);
    match decode_of(op) {
        Some((i, base)) => Some(
            (execute_of::<T>(m1, i), if taken(m1.cpu, i) {
                (base + 1) as u32
            } else {
                base
            }),
        ),
        None => None,
    }
}

// ---------------------------------------------------------------------------
// The processor
// ---------------------------------------------------------------------------

fn test_flag(p: u8, flag: u8) -> (on: bool)
    ensures
        on == has(p, flag),
{
    p & flag != 0
}

fn with_flag(p: u8, flag: u8, on: bool) -> (q: u8)
    ensures
        q == with(p, flag, on),
{
    if on {
        p | flag
    } else {
        p & !flag
    }
}

fn make_word(lo: u8, hi: u8) -> (w: u16)
    ensures
        w == word(lo, hi),
{
    hi as u16 * 256 + lo as u16
}

/// The instruction and base cycle count of an opcode.
pub fn decode(op: u8) -> (found: Option<(Instr, u32)>)
    ensures
        found == decode_of(op),
{
    match op {
        // LDA, LDX, LDY
        0xA9 => Some((Instr::Load(Reg::A, Mode::Imm), 2)),
        0xA5 => Some((Instr::Load(Reg::A, Mode::Zp), 3)),
        0xB5 => Some((Instr::Load(Reg::A, Mode::ZpX), 4)),
        0xAD => Some((Instr::Load(Reg::A, Mode::Abs), 4)),
        0xBD => Some((Instr::Load(Reg::A, Mode::AbsX), 4)),
        0xB9 => Some((Instr::Load(Reg::A, Mode::AbsY), 4)),
        0xA1 => Some((Instr::Load(Reg::A, Mode::IndX), 6)),
        0xB1 => Some((Instr::Load(Reg::A, Mode::IndY), 5)),
        0xA2 => Some((Instr::Load(Reg::X, Mode::Imm), 2)),
        0xA6 => Some((Instr::Load(Reg::X, Mode::Zp), 3)),
        0xB6 => Some((Instr::Load(Reg::X, Mode::ZpY), 4)),
        0xAE => Some((Instr::Load(Reg::X, Mode::Abs), 4)),
        0xBE => Some((Instr::Load(Reg::X, Mode::AbsY), 4)),
        0xA0 => Some((Instr::Load(Reg::Y, Mode::Imm), 2)),
        0xA4 => Some((Instr::Load(Reg::Y, Mode::Zp), 3)),
        0xB4 => Some((Instr::Load(Reg::Y, Mode::ZpX), 4)),
        0xAC => Some((Instr::Load(Reg::Y, Mode::Abs), 4)),
        0xBC => Some((Instr::Load(Reg::Y, Mode::AbsX), 4)),
        // STA, STX, STY
        0x85 => Some((Instr::Store(Reg::A, Mode::Zp), 3)),
        0x95 => Some((Instr::Store(Reg::A, Mode::ZpX), 4)),
        0x8D => Some((Instr::Store(Reg::A, Mode::Abs), 4)),
        0x9D => Some((Instr::Store(Reg::A, Mode::AbsX), 5)),
        0x99 => Some((Instr::Store(Reg::A, Mode::AbsY), 5)),
        0x81 => Some((Instr::Store(Reg::A, Mode::IndX), 6)),
        0x91 => Some((Instr::Store(Reg::A, Mode::IndY), 6)),
        0x86 => Some((Instr::Store(Reg::X, Mode::Zp), 3)),
        0x96 => Some((Instr::Store(Reg::X, Mode::ZpY), 4)),
        0x8E => Some((Instr::Store(Reg::X, Mode::Abs), 4)),
        0x84 => Some((Instr::Store(Reg::Y, Mode::Zp), 3)),
        0x94 => Some((Instr::Store(Reg::Y, Mode::ZpX), 4)),
        0x8C => Some((Instr::Store(Reg::Y, Mode::Abs), 4)),
        // Transfers
        0xAA => Some((Instr::Tax, 2)),
        0xA8 => Some((Instr::Tay, 2)),
        0x8A => Some((Instr::Txa, 2)),
        0x98 => Some((Instr::Tya, 2)),
        0xBA => Some((Instr::Tsx, 2)),
        0x9A => Some((Instr::Txs, 2)),
        // Stack
        0x48 => Some((Instr::Pha, 3)),
        0x08 => Some((Instr::Php, 3)),
        0x68 => Some((Instr::Pla, 4)),
        0x28 => Some((Instr::Plp, 4)),
        // AND, ORA, EOR
        0x29 => Some((Instr::Logic(Logic::And, Mode::Imm), 2)),
        0x25 => Some((Instr::Logic(Logic::And, Mode::Zp), 3)),
        0x35 => Some((Instr::Logic(Logic::And, Mode::ZpX), 4)),
        0x2D => Some((Instr::Logic(Logic::And, Mode::Abs), 4)),
        0x3D => Some((Instr::Logic(Logic::And, Mode::AbsX), 4)),
        0x39 => Some((Instr::Logic(Logic::And, Mode::AbsY), 4)),
        0x21 => Some((Instr::Logic(Logic::And, Mode::IndX), 6)),
        0x31 => Some((Instr::Logic(Logic::And, Mode::IndY), 5)),
        0x09 => Some((Instr::Logic(Logic::Or, Mode::Imm), 2)),
        0x05 => Some((Instr::Logic(Logic::Or, Mode::Zp), 3)),
        0x15 => Some((Instr::Logic(Logic::Or, Mode::ZpX), 4)),
        0x0D => Some((Instr::Logic(Logic::Or, Mode::Abs), 4)),
        0x1D => Some((Instr::Logic(Logic::Or, Mode::AbsX), 4)),
        0x19 => Some((Instr::Logic(Logic::Or, Mode::AbsY), 4)),
        0x01 => Some((Instr::Logic(Logic::Or, Mode::IndX), 6)),
        0x11 => Some((Instr::Logic(Logic::Or, Mode::IndY), 5)),
        0x49 => Some((Instr::Logic(Logic::Xor, Mode::Imm), 2)),
        0x45 => Some((Instr::Logic(Logic::Xor, Mode::Zp), 3)),
        0x55 => Some((Instr::Logic(Logic::Xor, Mode::ZpX), 4)),
        0x4D => Some((Instr::Logic(Logic::Xor, Mode::Abs), 4)),
        0x5D => Some((Instr::Logic(Logic::Xor, Mode::AbsX), 4)),
        0x59 => Some((Instr::Logic(Logic::Xor, Mode::AbsY), 4)),
        0x41 => Some((Instr::Logic(Logic::Xor, Mode::IndX), 6)),
        0x51 => Some((Instr::Logic(Logic::Xor, Mode::IndY), 5)),
        // BIT
        0x24 => Some((Instr::Bit(Mode::Zp), 3)),
        0x2C => Some((Instr::Bit(Mode::Abs), 4)),
        // ADC, SBC
        0x69 => Some((Instr::Adc(Mode::Imm), 2)),
        0x65 => Some((Instr::Adc(Mode::Zp), 3)),
        0x75 => Some((Instr::Adc(Mode::ZpX), 4)),
        0x6D => Some((Instr::Adc(Mode::Abs), 4)),
        0x7D => Some((Instr::Adc(Mode::AbsX), 4)),
        0x79 => Some((Instr::Adc(Mode::AbsY), 4)),
        0x61 => Some((Instr::Adc(Mode::IndX), 6)),
        0x71 => Some((Instr::Adc(Mode::IndY), 5)),
        0xE9 => Some((Instr::Sbc(Mode::Imm), 2)),
        0xE5 => Some((Instr::Sbc(Mode::Zp), 3)),
        0xF5 => Some((Instr::Sbc(Mode::ZpX), 4)),
        0xED => Some((Instr::Sbc(Mode::Abs), 4)),
        0xFD => Some((Instr::Sbc(Mode::AbsX), 4)),
        0xF9 => Some((Instr::Sbc(Mode::AbsY), 4)),
        0xE1 => Some((Instr::Sbc(Mode::IndX), 6)),
        0xF1 => Some((Instr::Sbc(Mode::IndY), 5)),
        // CMP, CPX, CPY
        0xC9 => Some((Instr::Compare(Reg::A, Mode::Imm), 2)),
        0xC5 => Some((Instr::Compare(Reg::A, Mode::Zp), 3)),
        0xD5 => Some((Instr::Compare(Reg::A, Mode::ZpX), 4)),
        0xCD => Some((Instr::Compare(Reg::A, Mode::Abs), 4)),
        0xDD => Some((Instr::Compare(Reg::A, Mode::AbsX), 4)),
        0xD9 => Some((Instr::Compare(Reg::A, Mode::AbsY), 4)),
        0xC1 => Some((Instr::Compare(Reg::A, Mode::IndX), 6)),
        0xD1 => Some((Instr::Compare(Reg::A, Mode::IndY), 5)),
        0xE0 => Some((Instr::Compare(Reg::X, Mode::Imm), 2)),
        0xE4 => Some((Instr::Compare(Reg::X, Mode::Zp), 3)),
        0xEC => Some((Instr::Compare(Reg::X, Mode::Abs), 4)),
        0xC0 => Some((Instr::Compare(Reg::Y, Mode::Imm), 2)),
        0xC4 => Some((Instr::Compare(Reg::Y, Mode::Zp), 3)),
        0xCC => Some((Instr::Compare(Reg::Y, Mode::Abs), 4)),
        // INC, DEC
        0xE6 => Some((Instr::Inc(Mode::Zp), 5)),
        0xF6 => Some((Instr::Inc(Mode::ZpX), 6)),
        0xEE => Some((Instr::Inc(Mode::Abs), 6)),
        0xFE => Some((Instr::Inc(Mode::AbsX), 7)),
        0xC6 => Some((Instr::Dec(Mode::Zp), 5)),
        0xD6 => Some((Instr::Dec(Mode::ZpX), 6)),
        0xCE => Some((Instr::Dec(Mode::Abs), 6)),
        0xDE => Some((Instr::Dec(Mode::AbsX), 7)),
        0xE8 => Some((Instr::Inx, 2)),
        0xC8 => Some((Instr::Iny, 2)),
        0xCA => Some((Instr::Dex, 2)),
        0x88 => Some((Instr::Dey, 2)),
        // Shifts and rotates
        0x0A => Some((Instr::ShiftA(Shift::Asl), 2)),
        0x06 => Some((Instr::ShiftMem(Shift::Asl, Mode::Zp), 5)),
        0x16 => Some((Instr::ShiftMem(Shift::Asl, Mode::ZpX), 6)),
        0x0E => Some((Instr::ShiftMem(Shift::Asl, Mode::Abs), 6)),
        0x1E => Some((Instr::ShiftMem(Shift::Asl, Mode::AbsX), 7)),
        0x4A => Some((Instr::ShiftA(Shift::Lsr), 2)),
        0x46 => Some((Instr::ShiftMem(Shift::Lsr, Mode::Zp), 5)),
        0x56 => Some((Instr::ShiftMem(Shift::Lsr, Mode::ZpX), 6)),
        0x4E => Some((Instr::ShiftMem(Shift::Lsr, Mode::Abs), 6)),
        0x5E => Some((Instr::ShiftMem(Shift::Lsr, Mode::AbsX), 7)),
        0x2A => Some((Instr::ShiftA(Shift::Rol), 2)),
        0x26 => Some((Instr::ShiftMem(Shift::Rol, Mode::Zp), 5)),
        0x36 => Some((Instr::ShiftMem(Shift::Rol, Mode::ZpX), 6)),
        0x2E => Some((Instr::ShiftMem(Shift::Rol, Mode::Abs), 6)),
        0x3E => Some((Instr::ShiftMem(Shift::Rol, Mode::AbsX), 7)),
        0x6A => Some((Instr::ShiftA(Shift::Ror), 2)),
        0x66 => Some((Instr::ShiftMem(Shift::Ror, Mode::Zp), 5)),
        0x76 => Some((Instr::ShiftMem(Shift::Ror, Mode::ZpX), 6)),
        0x6E => Some((Instr::ShiftMem(Shift::Ror, Mode::Abs), 6)),
        0x7E => Some((Instr::ShiftMem(Shift::Ror, Mode::AbsX), 7)),
        // Jumps and interrupts
        0x4C => Some((Instr::Jmp, 3)),
        0x6C => Some((Instr::JmpInd, 5)),
        0x20 => Some((Instr::Jsr, 6)),
        0x60 => Some((Instr::Rts, 6)),
        0x40 => Some((Instr::Rti, 6)),
        0x00 => Some((Instr::Brk, 7)),
        // Branches (one cycle more when taken)
        0x90 => Some((Instr::Branch(C, false), 2)),
        0xB0 => Some((Instr::Branch(C, true), 2)),
        0xF0 => Some((Instr::Branch(Z, true), 2)),
        0xD0 => Some((Instr::Branch(Z, false), 2)),
        0x30 => Some((Instr::Branch(N, true), 2)),
        0x10 => Some((Instr::Branch(N, false), 2)),
        0x50 => Some((Instr::Branch(V, false), 2)),
        0x70 => Some((Instr::Branch(V, true), 2)),
        // Flags
        0x18 => Some((Instr::Flag(C, false), 2)),
        0x38 => Some((Instr::Flag(C, true), 2)),
        0x58 => Some((Instr::Flag(I, false), 2)),
        0x78 => Some((Instr::Flag(I, true), 2)),
        0xB8 => Some((Instr::Flag(V, false), 2)),
        0xD8 => Some((Instr::Flag(D, false), 2)),
        0xF8 => Some((Instr::Flag(D, true), 2)),
        0xEA => Some((Instr::Nop, 2)),
        _ => None,
    }
}

/// The carry out of bit 7 of a sum of signed bytes shows in the signs alone.
proof fn lemma_overflow(a: u8, v: u8, c: u8, r: u8)
    requires
        c <= 1,
        r == (a + v + c) % 256,
    ensures
        ((a ^ r) & (v ^ r) & 0x80 != 0) == !(-128 <= signed(a) + signed(v) + c <= 127),
{
    let sum: u16 = (a + v + c) as u16;
    assert(((a ^ r) & (v ^ r) & 0x80 != 0) == ((a < 128 && v < 128 && a + v + c >= 128) || (a >= 128
        && v >= 128 && a + v + c < 384))) by (bit_vector)
        requires
            c <= 1,
            r == (a + v + c) % 256,
    ;
}

proof fn lemma_complement(v: u8)
    ensures
        (v ^ 0xFF) == 255 - v,
{
    assert((v ^ 0xFF) == 255 - v) by (bit_vector);
}

impl Cpu {
    pub fn new() -> (cpu: Cpu)
        ensures
            cpu == (Cpu { a: 0, x: 0, y: 0, sp: 0xFD, pc: 0, p: I | U }),
    {
        Cpu { a: 0, x: 0, y: 0, sp: 0xFD, pc: 0, p: I | U }
    }

    /// Registers to their start values, program counter through the reset vector.
    pub fn reset<T: Bus>(&mut self, bus: &mut T)
        requires
            T::sound(old(bus).state()),
        ensures
            T::sound(final(bus).state()),
            machine(*final(self), *final(bus)) == reset_of::<T>(machine(*old(self), *old(bus))),
    {
        let lo = bus.read(0xFFFC);
        let hi = bus.read(0xFFFD);
        self.pc = make_word(lo, hi);
        self.sp = 0xFD;
        self.p = I | U;
    }

    /// Non-maskable interrupt.
    pub fn nmi<T: Bus>(&mut self, bus: &mut T)
        requires
            T::sound(old(bus).state()),
        ensures
            T::sound(final(bus).state()),
            machine(*final(self), *final(bus)) == nmi_of::<T>(machine(*old(self), *old(bus))),
    {
        let pc = self.pc;
        let pushed = with_flag(with_flag(self.p, U, true), B, false);
        self.interrupt(bus, pc, pushed, 0xFFFA);
    }

    fn interrupt<T: Bus>(&mut self, bus: &mut T, ret: u16, pushed: u8, vector: u16)
        requires
            T::sound(old(bus).state()),
            vector < 0xFFFF,
        ensures
            T::sound(final(bus).state()),
            machine(*final(self), *final(bus)) == interrupted::<T>(
                machine(*old(self), *old(bus)),
                ret,
                pushed,
                vector,
            ),
    {
        self.push16(bus, ret);
        self.push(bus, pushed);
        self.p = with_flag(self.p, I, true);
        let lo = bus.read(vector);
        let hi = bus.read(vector + 1);
        self.pc = make_word(lo, hi);
    }

    fn push<T: Bus>(&mut self, bus: &mut T, v: u8)
        requires
            T::sound(old(bus).state()),
        ensures
            T::sound(final(bus).state()),
            machine(*final(self), *final(bus)) == push_of::<T>(machine(*old(self), *old(bus)), v),
    {
        bus.write(0x0100 + self.sp as u16, v);
        self.sp = self.sp.wrapping_sub(1);
    }

    fn push16<T: Bus>(&mut self, bus: &mut T, w: u16)
        requires
            T::sound(old(bus).state()),
        ensures
            T::sound(final(bus).state()),
            machine(*final(self), *final(bus)) == push16_of::<T>(machine(*old(self), *old(bus)), w),
    {
        self.push(bus, (w / 256) as u8);
        self.push(bus, (w % 256) as u8);
    }

    fn pop<T: Bus>(&mut self, bus: &mut T) -> (v: u8)
        requires
            T::sound(old(bus).state()),
        ensures
            T::sound(final(bus).state()),
            (machine(*final(self), *final(bus)), v) == pop_of::<T>(machine(*old(self), *old(bus))),
    {
        self.sp = self.sp.wrapping_add(1);
        bus.read(0x0100 + self.sp as u16)
    }

    fn pop16<T: Bus>(&mut self, bus: &mut T) -> (w: u16)
        requires
            T::sound(old(bus).state()),
        ensures
            T::sound(final(bus).state()),
            (machine(*final(self), *final(bus)), w) == pop16_of::<T>(machine(*old(self), *old(bus))),
    {
        let lo = self.pop(bus);
        let hi = self.pop(bus);
        make_word(lo, hi)
    }

    fn set_zn(&mut self, v: u8)
        ensures
            *final(self) == (Cpu { p: nz(old(self).p, v), ..*old(self) }),
    {
        self.p = with_flag(with_flag(self.p, Z, v == 0), N, v >= 128);
    }

    fn set_reg(&mut self, r: Reg, v: u8)
        ensures
            *final(self) == loaded(*old(self), r, v),
    {
        self.set_zn(v);
        match r {
            Reg::A => self.a = v,
            Reg::X => self.x = v,
            Reg::Y => self.y = v,
        }
    }

    fn reg(&self, r: Reg) -> (v: u8)
        ensures
            v == reg_of(*self, r),
    {
        match r {
            Reg::A => self.a,
            Reg::X => self.x,
            Reg::Y => self.y,
        }
    }

    fn fetch<T: Bus>(&mut self, bus: &mut T) -> (v: u8)
        requires
            T::sound(old(bus).state()),
        ensures
            T::sound(final(bus).state()),
            (machine(*final(self), *final(bus)), v) == fetch_of::<T>(machine(*old(self), *old(bus))),
    {
        let v = bus.read(self.pc);
        self.pc = self.pc.wrapping_add(1);
        v
    }

    fn fetch16<T: Bus>(&mut self, bus: &mut T) -> (w: u16)
        requires
            T::sound(old(bus).state()),
        ensures
            T::sound(final(bus).state()),
            (machine(*final(self), *final(bus)), w) == fetch16_of::<T>(
                machine(*old(self), *old(bus)),
            ),
    {
        let lo = self.fetch(bus);
        let hi = self.fetch(bus);
        make_word(lo, hi)
    }

    fn pointer<T: Bus>(&mut self, bus: &mut T, lo_at: u16, hi_at: u16) -> (w: u16)
        requires
            T::sound(old(bus).state()),
        ensures
            T::sound(final(bus).state()),
            (machine(*final(self), *final(bus)), w) == pointer_of::<T>(
                machine(*old(self), *old(bus)),
                lo_at,
                hi_at,
            ),
    {
        let lo = bus.read(lo_at);
        let hi = bus.read(hi_at);
        make_word(lo, hi)
    }

    fn zpx<T: Bus>(&mut self, bus: &mut T) -> (addr: u16)
        requires
            T::sound(old(bus).state()),
        ensures
            T::sound(final(bus).state()),
            (machine(*final(self), *final(bus)), addr) == address_of::<T>(
                machine(*old(self), *old(bus)),
                Mode::ZpX,
            ),
    {
        self.fetch(bus).wrapping_add(self.x) as u16
    }

    fn zpy<T: Bus>(&mut self, bus: &mut T) -> (addr: u16)
        requires
            T::sound(old(bus).state()),
        ensures
            T::sound(final(bus).state()),
            (machine(*final(self), *final(bus)), addr) == address_of::<T>(
                machine(*old(self), *old(bus)),
                Mode::ZpY,
            ),
    {
        self.fetch(bus).wrapping_add(self.y) as u16
    }

    fn absx<T: Bus>(&mut self, bus: &mut T) -> (addr: u16)
        requires
            T::sound(old(bus).state()),
        ensures
            T::sound(final(bus).state()),
            (machine(*final(self), *final(bus)), addr) == address_of::<T>(
                machine(*old(self), *old(bus)),
                Mode::AbsX,
            ),
    {
        self.fetch16(bus).wrapping_add(self.x as u16)
    }

    fn absy<T: Bus>(&mut self, bus: &mut T) -> (addr: u16)
        requires
            T::sound(old(bus).state()),
        ensures
            T::sound(final(bus).state()),
            (machine(*final(self), *final(bus)), addr) == address_of::<T>(
                machine(*old(self), *old(bus)),
                Mode::AbsY,
            ),
    {
        self.fetch16(bus).wrapping_add(self.y as u16)
    }

    fn indx<T: Bus>(&mut self, bus: &mut T) -> (addr: u16)
        requires
            T::sound(old(bus).state()),
        ensures
            T::sound(final(bus).state()),
            (machine(*final(self), *final(bus)), addr) == address_of::<T>(
                machine(*old(self), *old(bus)),
                Mode::IndX,
            ),
    {
        let zp = self.fetch(bus).wrapping_add(self.x);
        self.pointer(bus, zp as u16, zp.wrapping_add(1) as u16)
    }

    fn indy<T: Bus>(&mut self, bus: &mut T) -> (addr: u16)
        requires
            T::sound(old(bus).state()),
        ensures
            T::sound(final(bus).state()),
            (machine(*final(self), *final(bus)), addr) == address_of::<T>(
                machine(*old(self), *old(bus)),
                Mode::IndY,
            ),
    {
        let zp = self.fetch(bus);
        self.pointer(bus, zp as u16, zp.wrapping_add(1) as u16).wrapping_add(self.y as u16)
    }

    fn address<T: Bus>(&mut self, bus: &mut T, mode: Mode) -> (addr: u16)
        requires
            T::sound(old(bus).state()),
        ensures
            T::sound(final(bus).state()),
            (machine(*final(self), *final(bus)), addr) == address_of::<T>(
                machine(*old(self), *old(bus)),
                mode,
            ),
    {
        match mode {
            Mode::Imm => {
                let pc = self.pc;
                self.pc = self.pc.wrapping_add(1);
                pc
            },
            Mode::Zp => self.fetch(bus) as u16,
            Mode::ZpX => self.zpx(bus),
            Mode::ZpY => self.zpy(bus),
            Mode::Abs => self.fetch16(bus),
            Mode::AbsX => self.absx(bus),
            Mode::AbsY => self.absy(bus),
            Mode::IndX => self.indx(bus),
            Mode::IndY => self.indy(bus),
        }
    }

    fn operand<T: Bus>(&mut self, bus: &mut T, mode: Mode) -> (v: u8)
        requires
            T::sound(old(bus).state()),
        ensures
            T::sound(final(bus).state()),
            (machine(*final(self), *final(bus)), v) == operand_of::<T>(
                machine(*old(self), *old(bus)),
                mode,
            ),
    {
        let addr = self.address(bus, mode);
        bus.read(addr)
    }

    fn adc(&mut self, v: u8)
        ensures
            *final(self) == adc_of(*old(self), v),
    {
        let c: u8 = if test_flag(self.p, C) {
            1
        } else {
            0
        };
        let sum: u16 = self.a as u16 + v as u16 + c as u16;
        let r: u8 = (sum % 256) as u8;
        proof {
            lemma_overflow(self.a, v, c, r);
        }
        let overflow = (self.a ^ r) & (v ^ r) & 0x80 != 0;
        self.p = with_flag(with_flag(self.p, C, sum > 0xFF), V, overflow);
        self.a = r;
        self.set_zn(r);
    }

    fn sbc(&mut self, v: u8)
        ensures
            *final(self) == sbc_of(*old(self), v),
    {
        proof {
            lemma_complement(v);
        }
        self.adc(v ^ 0xFF);
    }

    fn compare(&mut self, reg: u8, v: u8)
        ensures
            *final(self) == compared(*old(self), reg, v),
    {
        self.p = with_flag(self.p, C, reg >= v);
        self.set_zn(reg.wrapping_sub(v));
    }

    fn bit(&mut self, v: u8)
        ensures
            *final(self) == bit_of(*old(self), v),
    {
        let share = self.a & v == 0;
        let p = with_flag(with_flag(self.p, Z, share), V, test_flag(v, V));
        self.p = with_flag(p, N, v >= 128);
    }

    fn shift(&mut self, k: Shift, v: u8) -> (r: u8)
        ensures
            *final(self) == shifted(*old(self), k, v),
            r == shift_result(k, old(self).p, v),
    {
        let c: u8 = if test_flag(self.p, C) {
            1
        } else {
            0
        };
        let (r, out): (u8, bool) = match k {
            Shift::Asl => (v % 128 * 2, v >= 128),
            Shift::Lsr => (v / 2, v % 2 == 1),
            Shift::Rol => (v % 128 * 2 + c, v >= 128),
            Shift::Ror => (v / 2 + 128 * c, v % 2 == 1),
        };
        self.p = with_flag(self.p, C, out);
        self.set_zn(r);
        r
    }

    fn branch<T: Bus>(&mut self, bus: &mut T, flag: u8, want: bool) -> (is_taken: bool)
        requires
            T::sound(old(bus).state()),
        ensures
            T::sound(final(bus).state()),
            is_taken == taken(*old(self), Instr::Branch(flag, want)),
            machine(*final(self), *final(bus)) == execute_of::<T>(
                machine(*old(self), *old(bus)),
                Instr::Branch(flag, want),
            ),
    {
        let is_taken = test_flag(self.p, flag) == want;
        let off = self.fetch(bus);
        if is_taken {
            let delta: u16 = if off < 128 {
                off as u16
            } else {
                0xFF00 + off as u16
            };
            self.pc = self.pc.wrapping_add(delta);
        }
        is_taken
    }

    fn load<T: Bus>(&mut self, bus: &mut T, r: Reg, mode: Mode)
        requires
            T::sound(old(bus).state()),
        ensures
            T::sound(final(bus).state()),
            machine(*final(self), *final(bus)) == execute_of::<T>(
                machine(*old(self), *old(bus)),
                Instr::Load(r, mode),
            ),
    {
            let v = self.operand(bus, mode);
            self.set_reg(r, v);
    }

    fn store<T: Bus>(&mut self, bus: &mut T, r: Reg, mode: Mode)
        requires
            T::sound(old(bus).state()),
        ensures
            T::sound(final(bus).state()),
            machine(*final(self), *final(bus)) == execute_of::<T>(
                machine(*old(self), *old(bus)),
                Instr::Store(r, mode),
            ),
    {
            let v = self.reg(r);
            let addr = self.address(bus, mode);
            bus.write(addr, v);
    }

    fn logic<T: Bus>(&mut self, bus: &mut T, l: Logic, mode: Mode)
        requires
            T::sound(old(bus).state()),
        ensures
            T::sound(final(bus).state()),
            machine(*final(self), *final(bus)) == execute_of::<T>(
                machine(*old(self), *old(bus)),
                Instr::Logic(l, mode),
            ),
    {
            let v = self.operand(bus, mode);
            let r: u8 = match l {
                Logic::And => self.a & v,
                Logic::Or => self.a | v,
                Logic::Xor => self.a ^ v,
            };
            self.set_reg(Reg::A, r);
    }

    fn compare_reg<T: Bus>(&mut self, bus: &mut T, r: Reg, mode: Mode)
        requires
            T::sound(old(bus).state()),
        ensures
            T::sound(final(bus).state()),
            machine(*final(self), *final(bus)) == execute_of::<T>(
                machine(*old(self), *old(bus)),
                Instr::Compare(r, mode),
            ),
    {
            let reg = self.reg(r);
            let v = self.operand(bus, mode);
            self.compare(reg, v);
    }

    fn inc<T: Bus>(&mut self, bus: &mut T, mode: Mode)
        requires
            T::sound(old(bus).state()),
        ensures
            T::sound(final(bus).state()),
            machine(*final(self), *final(bus)) == execute_of::<T>(
                machine(*old(self), *old(bus)),
                Instr::Inc(mode),
            ),
    {
            let addr = self.address(bus, mode);
            let v = bus.read(addr).wrapping_add(1);
            bus.write(addr, v);
            self.set_zn(v);
    }

    fn dec<T: Bus>(&mut self, bus: &mut T, mode: Mode)
        requires
            T::sound(old(bus).state()),
        ensures
            T::sound(final(bus).state()),
            machine(*final(self), *final(bus)) == execute_of::<T>(
                machine(*old(self), *old(bus)),
                Instr::Dec(mode),
            ),
    {
            let addr = self.address(bus, mode);
            let v = bus.read(addr).wrapping_sub(1);
            bus.write(addr, v);
            self.set_zn(v);
    }

    fn shift_mem<T: Bus>(&mut self, bus: &mut T, k: Shift, mode: Mode)
        requires
            T::sound(old(bus).state()),
        ensures
            T::sound(final(bus).state()),
            machine(*final(self), *final(bus)) == execute_of::<T>(
                machine(*old(self), *old(bus)),
                Instr::ShiftMem(k, mode),
            ),
    {
            let addr = self.address(bus, mode);
            let v = bus.read(addr);
            let r = self.shift(k, v);
            bus.write(addr, r);
    }

    fn jmp_ind<T: Bus>(&mut self, bus: &mut T)
        requires
            T::sound(old(bus).state()),
        ensures
            T::sound(final(bus).state()),
            machine(*final(self), *final(bus)) == execute_of::<T>(
                machine(*old(self), *old(bus)),
                Instr::JmpInd,
            ),
    {
            let at = self.fetch16(bus);
            let lo = bus.read(at);
            let hi = bus.read(at / 256 * 256 + at.wrapping_add(1) % 256);
            self.pc = make_word(lo, hi);
    }

    fn jsr<T: Bus>(&mut self, bus: &mut T)
        requires
            T::sound(old(bus).state()),
        ensures
            T::sound(final(bus).state()),
            machine(*final(self), *final(bus)) == execute_of::<T>(
                machine(*old(self), *old(bus)),
                Instr::Jsr,
            ),
    {
            let target = self.fetch16(bus);
            let ret = self.pc.wrapping_sub(1);
            self.push16(bus, ret);
            self.pc = target;
    }

    fn rts<T: Bus>(&mut self, bus: &mut T)
        requires
            T::sound(old(bus).state()),
        ensures
            T::sound(final(bus).state()),
            machine(*final(self), *final(bus)) == execute_of::<T>(
                machine(*old(self), *old(bus)),
                Instr::Rts,
            ),
    {
            let ret = self.pop16(bus);
            self.pc = ret.wrapping_add(1);
    }

    fn rti<T: Bus>(&mut self, bus: &mut T)
        requires
            T::sound(old(bus).state()),
        ensures
            T::sound(final(bus).state()),
            machine(*final(self), *final(bus)) == execute_of::<T>(
                machine(*old(self), *old(bus)),
                Instr::Rti,
            ),
    {
            let v = self.pop(bus);
            self.p = with_flag(with_flag(v, U, true), B, false);
            let pc = self.pop16(bus);
            self.pc = pc;
    }

    /// Carries out one decoded instruction; says whether a branch was taken.
    #[verifier::rlimit(40)]
    fn execute<T: Bus>(&mut self, bus: &mut T, i: Instr) -> (is_taken: bool)
        requires
            T::sound(old(bus).state()),
        ensures
            T::sound(final(bus).state()),
            is_taken == taken(*old(self), i),
            machine(*final(self), *final(bus)) == execute_of::<T>(
                machine(*old(self), *old(bus)),
                i,
            ),
    {
        match i {
            Instr::Load(r, mode) => self.load(bus, r, mode),
            Instr::Store(r, mode) => self.store(bus, r, mode),
            Instr::Tax => self.set_reg(Reg::X, self.a),
            Instr::Tay => self.set_reg(Reg::Y, self.a),
            Instr::Txa => self.set_reg(Reg::A, self.x),
            Instr::Tya => self.set_reg(Reg::A, self.y),
            Instr::Tsx => self.set_reg(Reg::X, self.sp),
            Instr::Txs => self.sp = self.x,
            Instr::Pha => {
                let v = self.a;
                self.push(bus, v);
            },
            Instr::Php => {
                let v = with_flag(with_flag(self.p, B, true), U, true);
                self.push(bus, v);
            },
            Instr::Pla => {
                let v = self.pop(bus);
                self.set_reg(Reg::A, v);
            },
            Instr::Plp => {
                let v = self.pop(bus);
                self.p = with_flag(with_flag(v, U, true), B, false);
            },
            Instr::Logic(l, mode) => self.logic(bus, l, mode),
            Instr::Bit(mode) => {
                let v = self.operand(bus, mode);
                self.bit(v);
            },
            Instr::Adc(mode) => {
                let v = self.operand(bus, mode);
                self.adc(v);
            },
            Instr::Sbc(mode) => {
                let v = self.operand(bus, mode);
                self.sbc(v);
            },
            Instr::Compare(r, mode) => self.compare_reg(bus, r, mode),
            Instr::Inc(mode) => self.inc(bus, mode),
            Instr::Dec(mode) => self.dec(bus, mode),
            Instr::Inx => self.set_reg(Reg::X, self.x.wrapping_add(1)),
            Instr::Iny => self.set_reg(Reg::Y, self.y.wrapping_add(1)),
            Instr::Dex => self.set_reg(Reg::X, self.x.wrapping_sub(1)),
            Instr::Dey => self.set_reg(Reg::Y, self.y.wrapping_sub(1)),
            Instr::ShiftA(k) => {
                let r = self.shift(k, self.a);
                self.a = r;
            },
            Instr::ShiftMem(k, mode) => self.shift_mem(bus, k, mode),
            Instr::Jmp => {
                let pc = self.fetch16(bus);
                self.pc = pc;
            },
            Instr::JmpInd => self.jmp_ind(bus),
            Instr::Jsr => self.jsr(bus),
            Instr::Rts => self.rts(bus),
            Instr::Rti => self.rti(bus),
            Instr::Brk => {
                let ret = self.pc.wrapping_add(1);
                let pushed = with_flag(with_flag(self.p, B, true), U, true);
                self.interrupt(bus, ret, pushed, 0xFFFE);
            },
            Instr::Branch(flag, want) => {
                return self.branch(bus, flag, want);
            },
            Instr::Flag(flag, on) => self.p = with_flag(self.p, flag, on),
            Instr::Nop => {},
        }
        false
    }

    /// Executes one instruction and returns its cycles; `None`, with the
    /// opcode fetched, where it is not official.
    pub fn try_step<T: Bus>(&mut self, bus: &mut T) -> (cycles: Option<u32>)
        requires
            T::sound(old(bus).state()),
        ensures
            T::sound(final(bus).state()),
            match step_of::<T>(machine(*old(self), *old(bus))) {
                Some((m, n)) => cycles == Some(n) && machine(*final(self), *final(bus)) == m,
                None => cycles is None && machine(*final(self), *final(bus)) == fetch_of::<T>(
                    machine(*old(self), *old(bus)),
                ).0,
            },
    {
        reveal(step_of);
        let op = self.fetch(bus);
        match decode(op) {
            Some((i, base)) => {
                proof {
                    lemma_base_cycles(op);
                }
                let is_taken = self.execute(bus, i);
                Some(if is_taken {
                    base + 1
                } else {
                    base
                })
            },
            None => None,
        }
    }

    /// Executes one instruction; returns cycles consumed. The program may only
    /// use official opcodes.
    pub fn step<T: Bus>(&mut self, bus: &mut T) -> (cycles: u32)
        requires
            T::sound(old(bus).state()),
            step_of::<T>(machine(*old(self), *old(bus))) is Some,
        ensures
            T::sound(final(bus).state()),
            step_of::<T>(machine(*old(self), *old(bus))) == Some(
                (machine(*final(self), *final(bus)), cycles),
            ),
    {
        match self.try_step(bus) {
            Some(cycles) => cycles,
            None => 0,
        }
    }
}

/// Every opcode takes two to seven cycles; a branch has the least base count.
pub proof fn lemma_base_cycles(op: u8)
    ensures
        decode_of(op) matches Some((i, base)) ==> 2 <= base <= 7 && (i is Branch ==> base == 2),
{
}

} // verus!
