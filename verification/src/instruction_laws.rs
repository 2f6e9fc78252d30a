//! What each instruction does, stated over registers, flags and bytes in plain
//! arithmetic, for every opcode and every device.

use vstd::prelude::*;
use crate::cpu6502::{
    adc_of, address_of, carry, compared, decode_of, execute_of, fetch_of, has, interrupted, nmi_of,
    nz, pulled_status, reset_of, sbc_of, shift_out, shift_result, signed, step_of, with, wrap16,
    wrap8, Bus, Cpu, Instr, Logic, Machine, Mode, Reg, Shift,
};

verus! {

// ---------------------------------------------------------------------------
// Flags
// ---------------------------------------------------------------------------

/// The status register `q` behind the status register `p`: these are its flags
/// negative, overflow, zero and carry, and the others are as they were.
pub open spec fn status(p: u8, q: u8, n: bool, v: bool, z: bool, c: bool) -> bool {
    &&& (q & 0x80 != 0) == n
    &&& (q & 0x40 != 0) == v
    &&& (q & 0x20 != 0) == (p & 0x20 != 0)
    &&& (q & 0x10 != 0) == (p & 0x10 != 0)
    &&& (q & 0x08 != 0) == (p & 0x08 != 0)
    &&& (q & 0x04 != 0) == (p & 0x04 != 0)
    &&& (q & 0x02 != 0) == z
    &&& (q & 0x01 != 0) == c
}

/// The zero and the negative flag follow a result, and no other flag changes.
pub open spec fn follows(p: u8, q: u8, v: int) -> bool {
    status(p, q, v >= 128, p & 0x40 != 0, v == 0, p & 0x01 != 0)
}

/// A byte as a two's-complement number.
pub open spec fn twos(v: u8) -> int {
    if v >= 128 {
        v as int - 256
    } else {
        v as int
    }
}

/// The carry flag as a number.
pub open spec fn carried(p: u8) -> int {
    if p & 0x01 != 0 {
        1
    } else {
        0
    }
}

/// Setting or clearing one flag leaves the others.
proof fn lemma_one_flag(p: u8, f: u8, on: bool)
    requires
        f == 0x01 || f == 0x02 || f == 0x04 || f == 0x08 || f == 0x10 || f == 0x20 || f == 0x40 || f
            == 0x80,
    ensures
        ({
            let q = with(p, f, on);
            &&& (q & 0x80 != 0) == (if f == 0x80 { on } else { p & 0x80 != 0 })
            &&& (q & 0x40 != 0) == (if f == 0x40 { on } else { p & 0x40 != 0 })
            &&& (q & 0x20 != 0) == (if f == 0x20 { on } else { p & 0x20 != 0 })
            &&& (q & 0x10 != 0) == (if f == 0x10 { on } else { p & 0x10 != 0 })
            &&& (q & 0x08 != 0) == (if f == 0x08 { on } else { p & 0x08 != 0 })
            &&& (q & 0x04 != 0) == (if f == 0x04 { on } else { p & 0x04 != 0 })
            &&& (q & 0x02 != 0) == (if f == 0x02 { on } else { p & 0x02 != 0 })
            &&& (q & 0x01 != 0) == (if f == 0x01 { on } else { p & 0x01 != 0 })
        }),
{
    assert(((p | f) & 0x80 != 0) == (f == 0x80 || p & 0x80 != 0) && ((p | f) & 0x40 != 0) == (f
        == 0x40 || p & 0x40 != 0) && ((p | f) & 0x20 != 0) == (f == 0x20 || p & 0x20 != 0) && ((p
        | f) & 0x10 != 0) == (f == 0x10 || p & 0x10 != 0) && ((p | f) & 0x08 != 0) == (f == 0x08
        || p & 0x08 != 0) && ((p | f) & 0x04 != 0) == (f == 0x04 || p & 0x04 != 0) && ((p | f)
        & 0x02 != 0) == (f == 0x02 || p & 0x02 != 0) && ((p | f) & 0x01 != 0) == (f == 0x01 || p
        & 0x01 != 0)) by (bit_vector)
        requires
            f == 0x01 || f == 0x02 || f == 0x04 || f == 0x08 || f == 0x10 || f == 0x20 || f == 0x40
                || f == 0x80,
    ;
    assert(((p & !f) & 0x80 != 0) == (f != 0x80 && p & 0x80 != 0) && ((p & !f) & 0x40 != 0) == (f
        != 0x40 && p & 0x40 != 0) && ((p & !f) & 0x20 != 0) == (f != 0x20 && p & 0x20 != 0) && ((p
        & !f) & 0x10 != 0) == (f != 0x10 && p & 0x10 != 0) && ((p & !f) & 0x08 != 0) == (f != 0x08
        && p & 0x08 != 0) && ((p & !f) & 0x04 != 0) == (f != 0x04 && p & 0x04 != 0) && ((p & !f)
        & 0x02 != 0) == (f != 0x02 && p & 0x02 != 0) && ((p & !f) & 0x01 != 0) == (f != 0x01 && p
        & 0x01 != 0)) by (bit_vector)
        requires
            f == 0x01 || f == 0x02 || f == 0x04 || f == 0x08 || f == 0x10 || f == 0x20 || f == 0x40
                || f == 0x80,
    ;
}

proof fn lemma_nz(p: u8, v: u8)
    ensures
        status(p, nz(p, v), v >= 128, p & 0x40 != 0, v == 0, p & 0x01 != 0),
{
    lemma_one_flag(p, 0x02, v == 0);
    lemma_one_flag(with(p, 0x02, v == 0), 0x80, v >= 128);
}

proof fn lemma_nzc(p: u8, c: bool, v: u8)
    ensures
        status(p, nz(with(p, 0x01, c), v), v >= 128, p & 0x40 != 0, v == 0, c),
{
    lemma_one_flag(p, 0x01, c);
    lemma_nz(with(p, 0x01, c), v);
}

proof fn lemma_nzcv(p: u8, c: bool, o: bool, v: u8)
    ensures
        status(p, nz(with(with(p, 0x01, c), 0x40, o), v), v >= 128, o, v == 0, c),
{
    lemma_one_flag(p, 0x01, c);
    lemma_one_flag(with(p, 0x01, c), 0x40, o);
    lemma_nz(with(with(p, 0x01, c), 0x40, o), v);
}

// ---------------------------------------------------------------------------
// Operands
// ---------------------------------------------------------------------------

/// The byte at an address.
pub open spec fn at<T: Bus>(s: T::State, addr: int) -> int {
    T::reading(s, (addr % 0x10000) as u16).1 as int
}

/// The byte `k` places behind the opcode.
pub open spec fn behind<T: Bus>(m: Machine<T::State>, k: int) -> int {
    at::<T>(m.bus, m.cpu.pc + k)
}

/// Reads of the instruction itself and of the zero page leave the device as it is.
pub open spec fn undisturbed<T: Bus>(m: Machine<T::State>) -> bool {
    forall|a: u16|
        a < 256 || a == m.cpu.pc || a == (m.cpu.pc + 1) % 0x10000 || a == (m.cpu.pc + 2) % 0x10000
            ==> (#[trigger] T::reading(m.bus, a)).0 == m.bus
}

/// The opcode at the program counter.
pub open spec fn opcode<T: Bus>(m: Machine<T::State>) -> u8 {
    T::reading(m.bus, m.cpu.pc).1
}

/// The address that an instruction with an operand works on. Bits 2 to 4 of the
/// opcode say how it is found; two opcodes of X take Y as the index.
pub open spec fn place<T: Bus>(m: Machine<T::State>) -> int {
    let op = opcode::<T>(m) as int;
    let how = op / 4 % 8;
    let b = behind::<T>(m, 1);
    let w = b + 256 * behind::<T>(m, 2);
    if how == 1 {
        b
    } else if how == 3 {
        w
    } else if how == 5 {
        (b + (if op == 0x96 || op == 0xB6 {
            m.cpu.y
        } else {
            m.cpu.x
        })) % 256
    } else if how == 7 {
        (w + (if op == 0xBE {
            m.cpu.y
        } else {
            m.cpu.x
        })) % 0x10000
    } else if how == 6 {
        (w + m.cpu.y) % 0x10000
    } else if how == 4 {
        (at::<T>(m.bus, b) + 256 * at::<T>(m.bus, (b + 1) % 256) + m.cpu.y) % 0x10000
    } else if how == 0 && op % 4 == 1 {
        let z = (b + m.cpu.x) % 256;
        at::<T>(m.bus, z) + 256 * at::<T>(m.bus, (z + 1) % 256)
    } else {
        (m.cpu.pc + 1) % 0x10000
    }
}

/// How many bytes an instruction with an operand has.
pub open spec fn length(op: u8) -> int {
    if op / 4 % 8 == 3 || op / 4 % 8 == 6 || op / 4 % 8 == 7 {
        3
    } else {
        2
    }
}

/// The cycles of an instruction that reads its operand.
pub open spec fn time_reading(op: u8) -> int {
    let how = op / 4 % 8;
    if how == 1 {
        3
    } else if how == 3 || how == 5 || how == 6 || how == 7 {
        4
    } else if how == 4 {
        5
    } else if how == 0 && op % 4 == 1 {
        6
    } else {
        2
    }
}

/// The cycles of an instruction that writes its operand.
pub open spec fn time_writing(op: u8) -> int {
    let how = op / 4 % 8;
    if how == 1 {
        3
    } else if how == 3 || how == 5 {
        4
    } else if how == 6 || how == 7 {
        5
    } else {
        6
    }
}

/// The cycles of an instruction that reads its operand and writes it back.
pub open spec fn time_changing(op: u8) -> int {
    let how = op / 4 % 8;
    if how == 1 {
        5
    } else if how == 7 {
        7
    } else {
        6
    }
}

/// The addressing mode that the bits of an opcode say.
spec fn mode_for(op: u8) -> Mode {
    let how = op / 4 % 8;
    if how == 1 {
        Mode::Zp
    } else if how == 3 {
        Mode::Abs
    } else if how == 5 {
        if op == 0x96 || op == 0xB6 {
            Mode::ZpY
        } else {
            Mode::ZpX
        }
    } else if how == 7 {
        if op == 0xBE {
            Mode::AbsY
        } else {
            Mode::AbsX
        }
    } else if how == 6 {
        Mode::AbsY
    } else if how == 4 {
        Mode::IndY
    } else if how == 0 && op % 4 == 1 {
        Mode::IndX
    } else {
        Mode::Imm
    }
}

/// The machine with its program counter moved on.
spec fn moved<S>(m: Machine<S>, k: int) -> Machine<S> {
    Machine { cpu: Cpu { pc: wrap16(m.cpu.pc + k), ..m.cpu }, bus: m.bus }
}

/// A byte fetched where reads leave the device as it is.
proof fn lemma_fetched<T: Bus>(m: Machine<T::State>, k: int)
    requires
        undisturbed::<T>(m),
        0 <= k <= 2,
    ensures
        fetch_of::<T>(moved(m, k)) == (moved(m, k + 1), behind::<T>(m, k) as u8),
        moved(m, 0) == m,
        T::reading(m.bus, wrap16(m.cpu.pc + k)).1 == behind::<T>(m, k),
        opcode::<T>(m) == behind::<T>(m, 0),
{
    let a = wrap16(m.cpu.pc + k);
    assert(T::reading(m.bus, a).0 == m.bus);
    assert((m.cpu.pc as int) % 0x10000 == m.cpu.pc);
}

/// Where the operand of an instruction is.
#[verifier::rlimit(60)]
proof fn lemma_place<T: Bus>(m: Machine<T::State>)
    requires
        undisturbed::<T>(m),
    ensures
        address_of::<T>(moved(m, 1), mode_for(opcode::<T>(m))) == (
            moved(m, length(opcode::<T>(m))),
            place::<T>(m) as u16,
        ),
        0 <= place::<T>(m) < 0x10000,
{
    lemma_fetched::<T>(m, 0);
    lemma_fetched::<T>(m, 1);
    lemma_fetched::<T>(m, 2);
    let op = opcode::<T>(m);
    let b = behind::<T>(m, 1);
    let z = if mode_for(op) is IndX {
        (b + m.cpu.x) % 256
    } else {
        b
    };
    assert(z % 0x10000 == z && (z + 1) % 256 % 0x10000 == (z + 1) % 256);
    assert(T::reading(m.bus, z as u16).0 == m.bus);
    assert(T::reading(m.bus, ((z + 1) % 256) as u16).0 == m.bus);
    assert(moved(m, 1).cpu.pc == wrap16(m.cpu.pc + 1));
}

/// A step fetches the opcode and executes what it stands for.
proof fn lemma_stepped<T: Bus>(m: Machine<T::State>, i: Instr, n: u32)
    requires
        undisturbed::<T>(m),
        decode_of(opcode::<T>(m)) == Some((i, n)),
        !(i is Branch),
    ensures
        step_of::<T>(m) == Some((execute_of::<T>(moved(m, 1), i), n)),
{
    lemma_fetched::<T>(m, 0);
    reveal(step_of);
}

/// The registers that an instruction with an operand leaves alone, and the program
/// counter behind it.
pub open spec fn goes_on<S>(m: Machine<S>, n: Machine<S>, len: int) -> bool {
    n.cpu.sp == m.cpu.sp && n.cpu.pc == (m.cpu.pc + len) % 0x10000
}

// ---------------------------------------------------------------------------
// The accumulator and memory
// ---------------------------------------------------------------------------

/// The opcodes of the instructions on the accumulator and an operand: two low bits
/// 01, the high three bits say which. Storing to an immediate operand is none.
pub open spec fn on_accumulator(op: u8, which: int) -> bool {
    op % 4 == 1 && op / 32 == which && op != 0x89
}

/// ORA, AND, EOR: the accumulator and the operand bit by bit, and the flags follow.
#[verifier::rlimit(60)]
pub proof fn law_logic<T: Bus>(m: Machine<T::State>)
    requires
        undisturbed::<T>(m),
        opcode::<T>(m) % 4 == 1,
        opcode::<T>(m) / 32 <= 2,
    ensures
        ({
            let op = opcode::<T>(m);
            let (bus, v) = T::reading(m.bus, place::<T>(m) as u16);
            match step_of::<T>(m) {
                None => false,
                Some((n, t)) => {
                    &&& goes_on(m, n, length(op))
                    &&& n.bus == bus
                    &&& op / 32 == 0 ==> n.cpu.a == (m.cpu.a | v)
                    &&& op / 32 == 1 ==> n.cpu.a == (m.cpu.a & v)
                    &&& op / 32 == 2 ==> n.cpu.a == (m.cpu.a ^ v)
                    &&& n.cpu.x == m.cpu.x && n.cpu.y == m.cpu.y
                    &&& follows(m.cpu.p, n.cpu.p, n.cpu.a as int)
                    &&& t == time_reading(op)
                },
            }
        }),
{
    let op = opcode::<T>(m);
    let (bus, v) = T::reading(m.bus, place::<T>(m) as u16);
    let l = if op / 32 == 0 {
        Logic::Or
    } else if op / 32 == 1 {
        Logic::And
    } else {
        Logic::Xor
    };
    assert(decode_of(op) == Some((Instr::Logic(l, mode_for(op)), time_reading(op) as u32)));
    lemma_stepped::<T>(m, Instr::Logic(l, mode_for(op)), time_reading(op) as u32);
    lemma_place::<T>(m);
    let n = step_of::<T>(m)->Some_0.0;
    lemma_nz(m.cpu.p, n.cpu.a);
}

/// The registers after an addition.
proof fn lemma_added(c: Cpu, v: u8)
    ensures
        ({
            let n = adc_of(c, v);
            let sum = twos(c.a) + twos(v) + carried(c.p);
            &&& n.a + 256 * carried(n.p) == c.a + v + carried(c.p)
            &&& n.x == c.x && n.y == c.y && n.sp == c.sp && n.pc == c.pc
            &&& status(
                c.p,
                n.p,
                n.a >= 128,
                sum < -128 || sum > 127,
                n.a == 0,
                c.a + v + carried(c.p) >= 256,
            )
        }),
{
    let n = adc_of(c, v);
    let total = signed(c.a) + signed(v) + carry(c.p);
    lemma_nzcv(c.p, c.a + v + carry(c.p) > 255, !(-128 <= total <= 127), n.a);
}

/// The registers after a subtraction.
proof fn lemma_subtracted(c: Cpu, v: u8)
    ensures
        ({
            let n = sbc_of(c, v);
            let left = twos(c.a) - twos(v) - 1 + carried(c.p);
            &&& n.a + v + 1 - carried(c.p) == c.a + 256 * (1 - carried(n.p))
            &&& n.x == c.x && n.y == c.y && n.sp == c.sp && n.pc == c.pc
            &&& status(
                c.p,
                n.p,
                n.a >= 128,
                left < -128 || left > 127,
                n.a == 0,
                c.a + carried(c.p) >= v + 1,
            )
        }),
{
    let n = sbc_of(c, v);
    let total = signed(c.a) - signed(v) - (1 - carry(c.p));
    lemma_nzcv(c.p, c.a - v - (1 - carry(c.p)) >= 0, !(-128 <= total <= 127), n.a);
}

/// The registers after a comparison.
proof fn lemma_compared(c: Cpu, r: u8, v: u8)
    ensures
        ({
            let n = compared(c, r, v);
            &&& n.a == c.a && n.x == c.x && n.y == c.y && n.sp == c.sp && n.pc == c.pc
            &&& status(c.p, n.p, (r - v) % 256 >= 128, c.p & 0x40 != 0, r == v, r >= v)
        }),
{
    lemma_nzc(c.p, r >= v, wrap8(r - v));
}

/// The opcodes of the arithmetic instructions.
proof fn lemma_arithmetic_opcodes(op: u8)
    ensures
        on_accumulator(op, 3) ==> decode_of(op) == Some(
            (Instr::Adc(mode_for(op)), time_reading(op) as u32),
        ),
        on_accumulator(op, 7) ==> decode_of(op) == Some(
            (Instr::Sbc(mode_for(op)), time_reading(op) as u32),
        ),
{
}

proof fn lemma_compare_opcodes(op: u8)
    requires
        compares(op),
    ensures
        decode_of(op) == Some((Instr::Compare(compared_reg(op), mode_for(op)), time_reading(op) as u32)),
{
}

spec fn compared_reg(op: u8) -> Reg {
    if op % 4 == 1 {
        Reg::A
    } else if op >= 0xE0 {
        Reg::X
    } else {
        Reg::Y
    }
}

/// ADC: the accumulator and the carry take the sum of accumulator, operand and
/// carry; the overflow flag says that the sum of the signed numbers is no byte.
#[verifier::rlimit(60)]
pub proof fn law_add<T: Bus>(m: Machine<T::State>)
    requires
        undisturbed::<T>(m),
        on_accumulator(opcode::<T>(m), 3),
    ensures
        ({
            let op = opcode::<T>(m);
            let (bus, v) = T::reading(m.bus, place::<T>(m) as u16);
            match step_of::<T>(m) {
                None => false,
                Some((n, t)) => {
                    let sum = twos(m.cpu.a) + twos(v) + carried(m.cpu.p);
                    &&& goes_on(m, n, length(op))
                    &&& n.bus == bus
                    &&& n.cpu.a + 256 * carried(n.cpu.p) == m.cpu.a + v + carried(m.cpu.p)
                    &&& n.cpu.x == m.cpu.x && n.cpu.y == m.cpu.y
                    &&& status(
                        m.cpu.p,
                        n.cpu.p,
                        n.cpu.a >= 128,
                        sum < -128 || sum > 127,
                        n.cpu.a == 0,
                        m.cpu.a + v + carried(m.cpu.p) >= 256,
                    )
                    &&& t == time_reading(op)
                },
            }
        }),
{
    let op = opcode::<T>(m);
    let (bus, v) = T::reading(m.bus, place::<T>(m) as u16);
    lemma_arithmetic_opcodes(op);
    lemma_stepped::<T>(m, Instr::Adc(mode_for(op)), time_reading(op) as u32);
    lemma_place::<T>(m);
    lemma_added(moved(m, length(op)).cpu, v);
}

/// SBC: what is left of the accumulator when the operand and, with the carry clear,
/// one more are taken away; the carry stays clear where it had to borrow.
#[verifier::rlimit(60)]
pub proof fn law_subtract<T: Bus>(m: Machine<T::State>)
    requires
        undisturbed::<T>(m),
        on_accumulator(opcode::<T>(m), 7),
    ensures
        ({
            let op = opcode::<T>(m);
            let (bus, v) = T::reading(m.bus, place::<T>(m) as u16);
            match step_of::<T>(m) {
                None => false,
                Some((n, t)) => {
                    let left = twos(m.cpu.a) - twos(v) - 1 + carried(m.cpu.p);
                    &&& goes_on(m, n, length(op))
                    &&& n.bus == bus
                    &&& n.cpu.a + v + 1 - carried(m.cpu.p) == m.cpu.a + 256 * (1 - carried(n.cpu.p))
                    &&& n.cpu.x == m.cpu.x && n.cpu.y == m.cpu.y
                    &&& status(
                        m.cpu.p,
                        n.cpu.p,
                        n.cpu.a >= 128,
                        left < -128 || left > 127,
                        n.cpu.a == 0,
                        m.cpu.a + carried(m.cpu.p) >= v + 1,
                    )
                    &&& t == time_reading(op)
                },
            }
        }),
{
    let op = opcode::<T>(m);
    let (bus, v) = T::reading(m.bus, place::<T>(m) as u16);
    lemma_arithmetic_opcodes(op);
    lemma_stepped::<T>(m, Instr::Sbc(mode_for(op)), time_reading(op) as u32);
    lemma_place::<T>(m);
    lemma_subtracted(moved(m, length(op)).cpu, v);
}

/// The opcodes of LDA, LDX and LDY.
pub open spec fn loads(op: u8) -> bool {
    op % 4 == 1 && op / 32 == 5 || op == 0xA2 || op == 0xA6 || op == 0xB6 || op == 0xAE || op == 0xBE
        || op == 0xA0 || op == 0xA4 || op == 0xB4 || op == 0xAC || op == 0xBC
}

/// LDA, LDX, LDY: the register that the two low bits name takes the operand, and
/// the flags follow.
#[verifier::rlimit(60)]
pub proof fn law_load<T: Bus>(m: Machine<T::State>)
    requires
        undisturbed::<T>(m),
        loads(opcode::<T>(m)),
    ensures
        ({
            let op = opcode::<T>(m);
            let (bus, v) = T::reading(m.bus, place::<T>(m) as u16);
            match step_of::<T>(m) {
                None => false,
                Some((n, t)) => {
                    &&& goes_on(m, n, length(op))
                    &&& n.bus == bus
                    &&& n.cpu.a == (if op % 4 == 1 { v } else { m.cpu.a })
                    &&& n.cpu.x == (if op % 4 == 2 { v } else { m.cpu.x })
                    &&& n.cpu.y == (if op % 4 == 0 { v } else { m.cpu.y })
                    &&& follows(m.cpu.p, n.cpu.p, v as int)
                    &&& t == time_reading(op)
                },
            }
        }),
{
    let op = opcode::<T>(m);
    let (bus, v) = T::reading(m.bus, place::<T>(m) as u16);
    let r = if op % 4 == 1 {
        Reg::A
    } else if op % 4 == 2 {
        Reg::X
    } else {
        Reg::Y
    };
    assert(decode_of(op) == Some((Instr::Load(r, mode_for(op)), time_reading(op) as u32)));
    lemma_stepped::<T>(m, Instr::Load(r, mode_for(op)), time_reading(op) as u32);
    lemma_place::<T>(m);
    lemma_nz(m.cpu.p, v);
}

/// The opcodes of STA, STX and STY.
pub open spec fn stores(op: u8) -> bool {
    on_accumulator(op, 4) || op == 0x86 || op == 0x96 || op == 0x8E || op == 0x84 || op == 0x94 || op
        == 0x8C
}

/// STA, STX, STY: the register that the two low bits name is written, and nothing
/// else changes.
pub proof fn law_store<T: Bus>(m: Machine<T::State>)
    requires
        undisturbed::<T>(m),
        stores(opcode::<T>(m)),
    ensures
        ({
            let op = opcode::<T>(m);
            let r = if op % 4 == 1 {
                m.cpu.a
            } else if op % 4 == 2 {
                m.cpu.x
            } else {
                m.cpu.y
            };
            match step_of::<T>(m) {
                None => false,
                Some((n, t)) => {
                    &&& goes_on(m, n, length(op))
                    &&& n.bus == T::writing(m.bus, place::<T>(m) as u16, r)
                    &&& n.cpu.a == m.cpu.a && n.cpu.x == m.cpu.x && n.cpu.y == m.cpu.y && n.cpu.p
                        == m.cpu.p
                    &&& t == time_writing(op)
                },
            }
        }),
{
    let op = opcode::<T>(m);
    let r = if op % 4 == 1 {
        Reg::A
    } else if op % 4 == 2 {
        Reg::X
    } else {
        Reg::Y
    };
    assert(decode_of(op) == Some((Instr::Store(r, mode_for(op)), time_writing(op) as u32)));
    lemma_stepped::<T>(m, Instr::Store(r, mode_for(op)), time_writing(op) as u32);
    lemma_place::<T>(m);
}

/// The opcodes of CMP, CPX and CPY.
pub open spec fn compares(op: u8) -> bool {
    on_accumulator(op, 6) || op == 0xE0 || op == 0xE4 || op == 0xEC || op == 0xC0 || op == 0xC4 || op
        == 0xCC
}

/// CMP, CPX, CPY: carry where the register is no smaller than the operand, zero where
/// they are equal, negative by the difference; nothing else changes.
#[verifier::rlimit(60)]
pub proof fn law_compare<T: Bus>(m: Machine<T::State>)
    requires
        undisturbed::<T>(m),
        compares(opcode::<T>(m)),
    ensures
        ({
            let op = opcode::<T>(m);
            let (bus, v) = T::reading(m.bus, place::<T>(m) as u16);
            let r = if op % 4 == 1 {
                m.cpu.a
            } else if op >= 0xE0 {
                m.cpu.x
            } else {
                m.cpu.y
            };
            match step_of::<T>(m) {
                None => false,
                Some((n, t)) => {
                    &&& goes_on(m, n, length(op))
                    &&& n.bus == bus
                    &&& n.cpu.a == m.cpu.a && n.cpu.x == m.cpu.x && n.cpu.y == m.cpu.y
                    &&& status(
                        m.cpu.p,
                        n.cpu.p,
                        (r - v) % 256 >= 128,
                        m.cpu.p & 0x40 != 0,
                        r == v,
                        r >= v,
                    )
                    &&& t == time_reading(op)
                },
            }
        }),
{
    let op = opcode::<T>(m);
    let (bus, v) = T::reading(m.bus, place::<T>(m) as u16);
    lemma_compare_opcodes(op);
    lemma_stepped::<T>(m, Instr::Compare(compared_reg(op), mode_for(op)), time_reading(op) as u32);
    lemma_place::<T>(m);
    lemma_compared(moved(m, length(op)).cpu, m.cpu.a, v);
    lemma_compared(moved(m, length(op)).cpu, m.cpu.x, v);
    lemma_compared(moved(m, length(op)).cpu, m.cpu.y, v);
}

/// BIT: zero where the accumulator and the operand share no bit, overflow and
/// negative are the two high bits of the operand.
pub proof fn law_bit<T: Bus>(m: Machine<T::State>)
    requires
        undisturbed::<T>(m),
        opcode::<T>(m) == 0x24 || opcode::<T>(m) == 0x2C,
    ensures
        ({
            let op = opcode::<T>(m);
            let (bus, v) = T::reading(m.bus, place::<T>(m) as u16);
            match step_of::<T>(m) {
                None => false,
                Some((n, t)) => {
                    &&& goes_on(m, n, length(op))
                    &&& n.bus == bus
                    &&& n.cpu.a == m.cpu.a && n.cpu.x == m.cpu.x && n.cpu.y == m.cpu.y
                    &&& status(
                        m.cpu.p,
                        n.cpu.p,
                        v >= 128,
                        v & 0x40 != 0,
                        m.cpu.a & v == 0,
                        m.cpu.p & 0x01 != 0,
                    )
                    &&& t == time_reading(op)
                },
            }
        }),
{
    let op = opcode::<T>(m);
    let (bus, v) = T::reading(m.bus, place::<T>(m) as u16);
    assert(decode_of(op) == Some((Instr::Bit(mode_for(op)), time_reading(op) as u32)));
    lemma_stepped::<T>(m, Instr::Bit(mode_for(op)), time_reading(op) as u32);
    lemma_place::<T>(m);
    let p1 = with(m.cpu.p, 0x02, m.cpu.a & v == 0);
    let p2 = with(p1, 0x40, has(v, 0x40));
    lemma_one_flag(m.cpu.p, 0x02, m.cpu.a & v == 0);
    lemma_one_flag(p1, 0x40, has(v, 0x40));
    lemma_one_flag(p2, 0x80, v >= 128);
}

// ---------------------------------------------------------------------------
// Counting and shifting
// ---------------------------------------------------------------------------

/// INC and DEC: the byte at the operand's place is read and written back one higher
/// or one lower, modulo 256, and the flags follow.
#[verifier::rlimit(60)]
pub proof fn law_count_memory<T: Bus>(m: Machine<T::State>)
    requires
        undisturbed::<T>(m),
        opcode::<T>(m) % 4 == 2,
        opcode::<T>(m) / 4 % 2 == 1,
        opcode::<T>(m) / 32 >= 6,
    ensures
        ({
            let op = opcode::<T>(m);
            let a = place::<T>(m) as u16;
            let (bus, v) = T::reading(m.bus, a);
            let r = (v + (if op >= 0xE0 { 1int } else { -1int })) % 256;
            match step_of::<T>(m) {
                None => false,
                Some((n, t)) => {
                    &&& goes_on(m, n, length(op))
                    &&& n.bus == T::writing(bus, a, r as u8)
                    &&& n.cpu.a == m.cpu.a && n.cpu.x == m.cpu.x && n.cpu.y == m.cpu.y
                    &&& follows(m.cpu.p, n.cpu.p, r)
                    &&& t == time_changing(op)
                },
            }
        }),
{
    let op = opcode::<T>(m);
    let a = place::<T>(m) as u16;
    let (bus, v) = T::reading(m.bus, a);
    let i = if op >= 0xE0 {
        Instr::Inc(mode_for(op))
    } else {
        Instr::Dec(mode_for(op))
    };
    assert(decode_of(op) == Some((i, time_changing(op) as u32)));
    lemma_stepped::<T>(m, i, time_changing(op) as u32);
    lemma_place::<T>(m);
    lemma_nz(m.cpu.p, wrap8(v + 1));
    lemma_nz(m.cpu.p, wrap8(v - 1));
}

/// INX, DEX, INY, DEY: over $E8 register X is one higher, over $CA one lower, over
/// $C8 register Y is one higher, over $88 one lower, each modulo 256, and the flags
/// follow.
pub proof fn law_count_register<T: Bus>(m: Machine<T::State>)
    requires
        undisturbed::<T>(m),
        opcode::<T>(m) == 0xE8 || opcode::<T>(m) == 0xCA || opcode::<T>(m) == 0xC8 || opcode::<T>(m)
            == 0x88,
    ensures
        ({
            let op = opcode::<T>(m);
            match step_of::<T>(m) {
                None => false,
                Some((n, t)) => {
                    &&& goes_on(m, n, 1)
                    &&& n.bus == m.bus
                    &&& n.cpu.a == m.cpu.a
                    &&& op == 0xE8 ==> n.cpu.x == (m.cpu.x + 1) % 256
                    &&& op == 0xCA ==> n.cpu.x == (m.cpu.x - 1) % 256
                    &&& op == 0xC8 ==> n.cpu.y == (m.cpu.y + 1) % 256
                    &&& op == 0x88 ==> n.cpu.y == (m.cpu.y - 1) % 256
                    &&& op == 0xE8 || op == 0xCA ==> n.cpu.y == m.cpu.y && follows(
                        m.cpu.p,
                        n.cpu.p,
                        n.cpu.x as int,
                    )
                    &&& op == 0xC8 || op == 0x88 ==> n.cpu.x == m.cpu.x && follows(
                        m.cpu.p,
                        n.cpu.p,
                        n.cpu.y as int,
                    )
                    &&& t == 2
                },
            }
        }),
{
    let op = opcode::<T>(m);
    let i = if op == 0xE8 {
        Instr::Inx
    } else if op == 0xCA {
        Instr::Dex
    } else if op == 0xC8 {
        Instr::Iny
    } else {
        Instr::Dey
    };
    assert(decode_of(op) == Some((i, 2u32)));
    lemma_stepped::<T>(m, i, 2);
    let n = step_of::<T>(m)->Some_0.0;
    lemma_nz(m.cpu.p, n.cpu.x);
    lemma_nz(m.cpu.p, n.cpu.y);
}

/// Counting a register up and then down, or down and then up, gives it back.
pub proof fn law_count_undone<T: Bus>(m: Machine<T::State>)
    requires
        undisturbed::<T>(m),
        ({
            let (a, b) = (behind::<T>(m, 0), behind::<T>(m, 1));
            a == 0xE8 && b == 0xCA || a == 0xCA && b == 0xE8 || a == 0xC8 && b == 0x88 || a == 0x88
                && b == 0xC8
        }),
        T::reading(m.bus, ((m.cpu.pc + 3) % 0x10000) as u16).0 == m.bus,
    ensures
        match step_of::<T>(m) {
            None => false,
            Some((n, _)) => match step_of::<T>(n) {
                None => false,
                Some((r, _)) => {
                    &&& r.cpu.a == m.cpu.a
                    &&& r.cpu.x == m.cpu.x
                    &&& r.cpu.y == m.cpu.y
                    &&& r.cpu.sp == m.cpu.sp
                    &&& r.cpu.pc == (m.cpu.pc + 2) % 0x10000
                    &&& r.bus == m.bus
                },
            },
        },
{
    lemma_fetched::<T>(m, 0);
    lemma_fetched::<T>(m, 1);
    law_count_register::<T>(m);
    let n = step_of::<T>(m)->Some_0.0;
    assert((n.cpu.pc + 1) % 0x10000 == (m.cpu.pc + 2) % 0x10000);
    assert((n.cpu.pc + 2) % 0x10000 == (m.cpu.pc + 3) % 0x10000);
    assert(opcode::<T>(n) == behind::<T>(m, 1));
    law_count_register::<T>(n);
}

/// The result of a shift: twice the byte or half of it, with the carry shifted in by
/// a rotation.
pub open spec fn moved_bit(op: u8, p: u8, v: u8) -> int {
    if op / 32 == 0 {
        2 * v % 256
    } else if op / 32 == 1 {
        (2 * v + carried(p)) % 256
    } else if op / 32 == 2 {
        v as int / 2
    } else {
        v as int / 2 + 128 * carried(p)
    }
}

/// The bit that a shift moves into the carry: the highest to the left, the lowest to
/// the right.
pub open spec fn lost_bit(op: u8, v: u8) -> bool {
    if op / 32 <= 1 {
        v >= 128
    } else {
        v % 2 == 1
    }
}

spec fn shift_for(op: u8) -> Shift {
    if op / 32 == 0 {
        Shift::Asl
    } else if op / 32 == 1 {
        Shift::Rol
    } else if op / 32 == 2 {
        Shift::Lsr
    } else {
        Shift::Ror
    }
}

/// ASL, ROL, LSR, ROR of the accumulator.
pub proof fn law_shift_accumulator<T: Bus>(m: Machine<T::State>)
    requires
        undisturbed::<T>(m),
        opcode::<T>(m) == 0x0A || opcode::<T>(m) == 0x2A || opcode::<T>(m) == 0x4A || opcode::<T>(m)
            == 0x6A,
    ensures
        ({
            let op = opcode::<T>(m);
            match step_of::<T>(m) {
                None => false,
                Some((n, t)) => {
                    &&& goes_on(m, n, 1)
                    &&& n.bus == m.bus
                    &&& n.cpu.a == moved_bit(op, m.cpu.p, m.cpu.a)
                    &&& n.cpu.x == m.cpu.x && n.cpu.y == m.cpu.y
                    &&& status(
                        m.cpu.p,
                        n.cpu.p,
                        n.cpu.a >= 128,
                        m.cpu.p & 0x40 != 0,
                        n.cpu.a == 0,
                        lost_bit(op, m.cpu.a),
                    )
                    &&& t == 2
                },
            }
        }),
{
    let op = opcode::<T>(m);
    let k = shift_for(op);
    assert(decode_of(op) == Some((Instr::ShiftA(k), 2u32)));
    lemma_stepped::<T>(m, Instr::ShiftA(k), 2);
    lemma_nzc(m.cpu.p, shift_out(k, m.cpu.a), shift_result(k, m.cpu.p, m.cpu.a));
}

/// ASL, ROL, LSR, ROR of a byte in memory.
#[verifier::rlimit(60)]
pub proof fn law_shift_memory<T: Bus>(m: Machine<T::State>)
    requires
        undisturbed::<T>(m),
        opcode::<T>(m) % 4 == 2,
        opcode::<T>(m) / 4 % 2 == 1,
        opcode::<T>(m) / 32 <= 3,
    ensures
        ({
            let op = opcode::<T>(m);
            let a = place::<T>(m) as u16;
            let (bus, v) = T::reading(m.bus, a);
            let r = moved_bit(op, m.cpu.p, v);
            match step_of::<T>(m) {
                None => false,
                Some((n, t)) => {
                    &&& goes_on(m, n, length(op))
                    &&& n.bus == T::writing(bus, a, r as u8)
                    &&& n.cpu.a == m.cpu.a && n.cpu.x == m.cpu.x && n.cpu.y == m.cpu.y
                    &&& status(
                        m.cpu.p,
                        n.cpu.p,
                        r >= 128,
                        m.cpu.p & 0x40 != 0,
                        r == 0,
                        lost_bit(op, v),
                    )
                    &&& t == time_changing(op)
                },
            }
        }),
{
    let op = opcode::<T>(m);
    let k = shift_for(op);
    let (bus, v) = T::reading(m.bus, place::<T>(m) as u16);
    assert(decode_of(op) == Some((Instr::ShiftMem(k, mode_for(op)), time_changing(op) as u32)));
    lemma_stepped::<T>(m, Instr::ShiftMem(k, mode_for(op)), time_changing(op) as u32);
    lemma_place::<T>(m);
    lemma_nzc(m.cpu.p, shift_out(k, v), shift_result(k, m.cpu.p, v));
}

// ---------------------------------------------------------------------------
// Registers, flags and the stack
// ---------------------------------------------------------------------------

/// The address of stack byte `k`, counted around the page.
pub open spec fn stack(k: int) -> u16 {
    (0x0100 + k % 256) as u16
}

/// A copy `v` of the status register `p` with these bits 4 and 5, and the rest the
/// same.
pub open spec fn copied(p: u8, v: u8, b: bool) -> bool {
    &&& (v & 0x80 != 0) == (p & 0x80 != 0)
    &&& (v & 0x40 != 0) == (p & 0x40 != 0)
    &&& v & 0x20 != 0
    &&& (v & 0x10 != 0) == b
    &&& (v & 0x08 != 0) == (p & 0x08 != 0)
    &&& (v & 0x04 != 0) == (p & 0x04 != 0)
    &&& (v & 0x02 != 0) == (p & 0x02 != 0)
    &&& (v & 0x01 != 0) == (p & 0x01 != 0)
}

proof fn lemma_copied(p: u8)
    ensures
        copied(p, with(with(p, 0x10, true), 0x20, true), true),
        copied(p, pulled_status(p), false),
{
    lemma_one_flag(p, 0x10, true);
    lemma_one_flag(with(p, 0x10, true), 0x20, true);
    lemma_one_flag(p, 0x20, true);
    lemma_one_flag(with(p, 0x20, true), 0x10, false);
}

/// TAX, TAY, TXA, TYA, TSX: one register takes another, and the flags follow; TXS
/// changes the stack pointer and no flag.
pub proof fn law_transfer<T: Bus>(m: Machine<T::State>)
    requires
        undisturbed::<T>(m),
        ({
            let op = opcode::<T>(m);
            op == 0xAA || op == 0xA8 || op == 0x8A || op == 0x98 || op == 0xBA || op == 0x9A
        }),
    ensures
        ({
            let op = opcode::<T>(m);
            let c = m.cpu;
            match step_of::<T>(m) {
                None => false,
                Some((n, t)) => {
                    &&& n.cpu.pc == (c.pc + 1) % 0x10000
                    &&& n.bus == m.bus
                    &&& n.cpu.a == (if op == 0x8A { c.x } else if op == 0x98 { c.y } else { c.a })
                    &&& n.cpu.x == (if op == 0xAA { c.a } else if op == 0xBA { c.sp } else { c.x })
                    &&& n.cpu.y == (if op == 0xA8 { c.a } else { c.y })
                    &&& n.cpu.sp == (if op == 0x9A { c.x } else { c.sp })
                    &&& op == 0x8A || op == 0x98 ==> follows(c.p, n.cpu.p, n.cpu.a as int)
                    &&& op == 0xAA || op == 0xBA ==> follows(c.p, n.cpu.p, n.cpu.x as int)
                    &&& op == 0xA8 ==> follows(c.p, n.cpu.p, n.cpu.y as int)
                    &&& op == 0x9A ==> n.cpu.p == c.p
                    &&& t == 2
                },
            }
        }),
{
    let op = opcode::<T>(m);
    let i = if op == 0xAA {
        Instr::Tax
    } else if op == 0xA8 {
        Instr::Tay
    } else if op == 0x8A {
        Instr::Txa
    } else if op == 0x98 {
        Instr::Tya
    } else if op == 0xBA {
        Instr::Tsx
    } else {
        Instr::Txs
    };
    assert(decode_of(op) == Some((i, 2u32)));
    lemma_stepped::<T>(m, i, 2);
    lemma_nz(m.cpu.p, m.cpu.a);
    lemma_nz(m.cpu.p, m.cpu.x);
    lemma_nz(m.cpu.p, m.cpu.y);
    lemma_nz(m.cpu.p, m.cpu.sp);
}

/// The flag that a flag instruction names, and whether it is set.
pub open spec fn named_flag(op: u8) -> (u8, bool) {
    if op == 0x18 {
        (0x01, false)
    } else if op == 0x38 {
        (0x01, true)
    } else if op == 0x58 {
        (0x04, false)
    } else if op == 0x78 {
        (0x04, true)
    } else if op == 0xB8 {
        (0x40, false)
    } else if op == 0xD8 {
        (0x08, false)
    } else {
        (0x08, true)
    }
}

/// CLC, SEC, CLI, SEI, CLV, CLD, SED: one flag, and nothing else but the program
/// counter. NOP: nothing but the program counter.
pub proof fn law_flag<T: Bus>(m: Machine<T::State>)
    requires
        undisturbed::<T>(m),
        ({
            let op = opcode::<T>(m);
            op == 0x18 || op == 0x38 || op == 0x58 || op == 0x78 || op == 0xB8 || op == 0xD8 || op
                == 0xF8 || op == 0xEA
        }),
    ensures
        ({
            let op = opcode::<T>(m);
            let (f, on) = named_flag(op);
            match step_of::<T>(m) {
                None => false,
                Some((n, t)) => {
                    let (p, q) = (m.cpu.p, n.cpu.p);
                    &&& goes_on(m, n, 1)
                    &&& n.bus == m.bus
                    &&& n.cpu.a == m.cpu.a && n.cpu.x == m.cpu.x && n.cpu.y == m.cpu.y
                    &&& op == 0xEA ==> q == p
                    &&& op != 0xEA ==> {
                        &&& (q & 0x80 != 0) == (p & 0x80 != 0)
                        &&& (q & 0x40 != 0) == (if f == 0x40 { on } else { p & 0x40 != 0 })
                        &&& (q & 0x20 != 0) == (p & 0x20 != 0)
                        &&& (q & 0x10 != 0) == (p & 0x10 != 0)
                        &&& (q & 0x08 != 0) == (if f == 0x08 { on } else { p & 0x08 != 0 })
                        &&& (q & 0x04 != 0) == (if f == 0x04 { on } else { p & 0x04 != 0 })
                        &&& (q & 0x02 != 0) == (p & 0x02 != 0)
                        &&& (q & 0x01 != 0) == (if f == 0x01 { on } else { p & 0x01 != 0 })
                    }
                    &&& t == 2
                },
            }
        }),
{
    let op = opcode::<T>(m);
    let (f, on) = named_flag(op);
    let i = if op == 0xEA {
        Instr::Nop
    } else {
        Instr::Flag(f, on)
    };
    assert(decode_of(op) == Some((i, 2u32)));
    lemma_stepped::<T>(m, i, 2);
    lemma_one_flag(m.cpu.p, f, on);
}

/// PHA and PHP: a byte is written at the stack pointer, which moves down; PHP writes
/// the status register with bits 4 and 5 set.
pub proof fn law_push<T: Bus>(m: Machine<T::State>)
    requires
        undisturbed::<T>(m),
        opcode::<T>(m) == 0x48 || opcode::<T>(m) == 0x08,
    ensures
        match step_of::<T>(m) {
            None => false,
            Some((n, t)) => {
                &&& n.cpu.pc == (m.cpu.pc + 1) % 0x10000
                &&& n.cpu.sp == (m.cpu.sp - 1) % 256
                &&& n.cpu.a == m.cpu.a && n.cpu.x == m.cpu.x && n.cpu.y == m.cpu.y && n.cpu.p
                    == m.cpu.p
                &&& opcode::<T>(m) == 0x48 ==> n.bus == T::writing(
                    m.bus,
                    stack(m.cpu.sp as int),
                    m.cpu.a,
                )
                &&& opcode::<T>(m) == 0x08 ==> exists|v: u8| #[trigger]
                    copied(m.cpu.p, v, true) && n.bus == T::writing(
                        m.bus,
                        stack(m.cpu.sp as int),
                        v,
                    )
                &&& t == 3
            },
        },
{
    let op = opcode::<T>(m);
    let i = if op == 0x48 {
        Instr::Pha
    } else {
        Instr::Php
    };
    assert(decode_of(op) == Some((i, 3u32)));
    lemma_stepped::<T>(m, i, 3);
    lemma_copied(m.cpu.p);
}

/// PLA and PLP: the stack pointer moves up, and the byte there is read. PLA loads it,
/// PLP makes it the status register, with bit 5 set and bit 4 clear.
pub proof fn law_pull<T: Bus>(m: Machine<T::State>)
    requires
        undisturbed::<T>(m),
        opcode::<T>(m) == 0x68 || opcode::<T>(m) == 0x28,
    ensures
        ({
            let (bus, v) = T::reading(m.bus, stack(m.cpu.sp + 1));
            match step_of::<T>(m) {
                None => false,
                Some((n, t)) => {
                    &&& n.cpu.pc == (m.cpu.pc + 1) % 0x10000
                    &&& n.cpu.sp == (m.cpu.sp + 1) % 256
                    &&& n.bus == bus
                    &&& n.cpu.x == m.cpu.x && n.cpu.y == m.cpu.y
                    &&& opcode::<T>(m) == 0x68 ==> n.cpu.a == v && follows(
                        m.cpu.p,
                        n.cpu.p,
                        v as int,
                    )
                    &&& opcode::<T>(m) == 0x28 ==> n.cpu.a == m.cpu.a && copied(v, n.cpu.p, false)
                    &&& t == 4
                },
            }
        }),
{
    let op = opcode::<T>(m);
    let v = T::reading(m.bus, stack(m.cpu.sp + 1)).1;
    let i = if op == 0x68 {
        Instr::Pla
    } else {
        Instr::Plp
    };
    assert(decode_of(op) == Some((i, 4u32)));
    lemma_stepped::<T>(m, i, 4);
    lemma_copied(v);
    lemma_nz(m.cpu.p, v);
}

// ---------------------------------------------------------------------------
// Jumps and interrupts
// ---------------------------------------------------------------------------

/// The registers that jumps leave alone.
pub open spec fn same_data<S>(m: Machine<S>, n: Machine<S>) -> bool {
    n.cpu.a == m.cpu.a && n.cpu.x == m.cpu.x && n.cpu.y == m.cpu.y
}

/// JMP: to the address behind the opcode, or to the one stored there; a pointer in
/// the last byte of a page has its high byte in the first byte of the same page.
pub proof fn law_jump<T: Bus>(m: Machine<T::State>)
    requires
        undisturbed::<T>(m),
        opcode::<T>(m) == 0x4C || opcode::<T>(m) == 0x6C,
    ensures
        ({
            let w = behind::<T>(m, 1) + 256 * behind::<T>(m, 2);
            let next = if w % 256 == 255 {
                w - 255
            } else {
                w + 1
            };
            let (b1, lo) = T::reading(m.bus, w as u16);
            let (b2, hi) = T::reading(b1, next as u16);
            match step_of::<T>(m) {
                None => false,
                Some((n, t)) => {
                    &&& same_data(m, n) && n.cpu.sp == m.cpu.sp && n.cpu.p == m.cpu.p
                    &&& opcode::<T>(m) == 0x4C ==> n.cpu.pc == w && n.bus == m.bus && t == 3
                    &&& opcode::<T>(m) == 0x6C ==> n.cpu.pc == lo + 256 * hi && n.bus == b2 && t
                        == 5
                },
            }
        }),
{
    let op = opcode::<T>(m);
    let (i, c): (Instr, u32) = if op == 0x4C {
        (Instr::Jmp, 3u32)
    } else {
        (Instr::JmpInd, 5u32)
    };
    assert(decode_of(op) == Some((i, c)));
    lemma_stepped::<T>(m, i, c);
    lemma_fetched::<T>(m, 1);
    lemma_fetched::<T>(m, 2);
}

/// JSR: the address of its last byte goes on the stack, high byte first, and the
/// program counter to the address behind the opcode.
#[verifier::rlimit(60)]
pub proof fn law_call<T: Bus>(m: Machine<T::State>)
    requires
        undisturbed::<T>(m),
        opcode::<T>(m) == 0x20,
    ensures
        ({
            let sp = m.cpu.sp as int;
            let ret = (m.cpu.pc + 2) % 0x10000;
            match step_of::<T>(m) {
                None => false,
                Some((n, t)) => {
                    &&& same_data(m, n) && n.cpu.p == m.cpu.p && t == 6
                    &&& n.cpu.pc == behind::<T>(m, 1) + 256 * behind::<T>(m, 2)
                    &&& n.cpu.sp == (sp - 2) % 256
                    &&& n.bus == T::writing(
                        T::writing(m.bus, stack(sp), (ret / 256) as u8),
                        stack(sp - 1),
                        (ret % 256) as u8,
                    )
                },
            }
        }),
{
    assert(decode_of(0x20) == Some((Instr::Jsr, 6u32)));
    lemma_stepped::<T>(m, Instr::Jsr, 6);
    lemma_fetched::<T>(m, 1);
    lemma_fetched::<T>(m, 2);
    lemma_around(m.cpu.sp);
    assert(wrap16(moved(m, 3).cpu.pc - 1) == (m.cpu.pc + 2) % 0x10000);
}

/// RTS: to the address behind the one on the stack.
pub proof fn law_return<T: Bus>(m: Machine<T::State>)
    requires
        undisturbed::<T>(m),
        opcode::<T>(m) == 0x60,
    ensures
        ({
            let sp = m.cpu.sp as int;
            let (b1, lo) = T::reading(m.bus, stack(sp + 1));
            let (b2, hi) = T::reading(b1, stack(sp + 2));
            match step_of::<T>(m) {
                None => false,
                Some((n, t)) => {
                    &&& same_data(m, n) && n.cpu.p == m.cpu.p && t == 6
                    &&& n.cpu.pc == (lo + 256 * hi + 1) % 0x10000
                    &&& n.cpu.sp == (sp + 2) % 256
                    &&& n.bus == b2
                },
            }
        }),
{
    assert(decode_of(0x60) == Some((Instr::Rts, 6u32)));
    lemma_stepped::<T>(m, Instr::Rts, 6);
    lemma_around(m.cpu.sp);
}

/// Stack pointers moved one by one.
proof fn lemma_around(sp: u8)
    ensures
        (0x0100 + sp) as u16 == stack(sp as int),
        (0x0100 + wrap8(sp - 1)) as u16 == stack(sp - 1),
        (0x0100 + wrap8(wrap8(sp - 1) - 1)) as u16 == stack(sp - 2),
        (0x0100 + wrap8(sp + 1)) as u16 == stack(sp + 1),
        (0x0100 + wrap8(wrap8(sp + 1) + 1)) as u16 == stack(sp + 2),
        (0x0100 + wrap8(wrap8(wrap8(sp + 1) + 1) + 1)) as u16 == stack(sp + 3),
        wrap8(wrap8(sp - 1) - 1) == (sp - 2) % 256,
        wrap8(wrap8(sp + 1) + 1) == (sp + 2) % 256,
        wrap8(wrap8(wrap8(sp - 1) - 1) - 1) == (sp - 3) % 256,
        wrap8(wrap8(wrap8(sp + 1) + 1) + 1) == (sp + 3) % 256,
{
}

/// RTI: the status register and then the program counter come from the stack, bit 5
/// of the status set and bit 4 clear.
#[verifier::rlimit(60)]
pub proof fn law_return_from_interrupt<T: Bus>(m: Machine<T::State>)
    requires
        undisturbed::<T>(m),
        opcode::<T>(m) == 0x40,
    ensures
        ({
            let sp = m.cpu.sp as int;
            let (b1, v) = T::reading(m.bus, stack(sp + 1));
            let (b2, lo) = T::reading(b1, stack(sp + 2));
            let (b3, hi) = T::reading(b2, stack(sp + 3));
            match step_of::<T>(m) {
                None => false,
                Some((n, t)) => {
                    &&& same_data(m, n) && t == 6
                    &&& copied(v, n.cpu.p, false)
                    &&& n.cpu.pc == lo + 256 * hi
                    &&& n.cpu.sp == (sp + 3) % 256
                    &&& n.bus == b3
                },
            }
        }),
{
    assert(decode_of(0x40) == Some((Instr::Rti, 6u32)));
    lemma_stepped::<T>(m, Instr::Rti, 6);
    lemma_around(m.cpu.sp);
    lemma_copied(T::reading(m.bus, stack(m.cpu.sp + 1)).1);
}

/// What an interrupt does: an address and a copy of the status register, whose bit 4
/// is `b`, go on the stack, interrupts are disabled, and the program counter comes
/// from the vector.
pub open spec fn interrupts<T: Bus>(
    m: Machine<T::State>,
    n: Machine<T::State>,
    ret: int,
    b: bool,
    v: u8,
    vector: u16,
) -> bool {
    let sp = m.cpu.sp as int;
    let b1 = T::writing(m.bus, stack(sp), (ret / 256) as u8);
    let b2 = T::writing(b1, stack(sp - 1), (ret % 256) as u8);
    let b3 = T::writing(b2, stack(sp - 2), v);
    let (b4, lo) = T::reading(b3, vector);
    let (b5, hi) = T::reading(b4, (vector + 1) as u16);
    &&& copied(m.cpu.p, v, b)
    &&& same_data(m, n)
    &&& n.cpu.sp == (sp - 3) % 256
    &&& n.cpu.pc == lo + 256 * hi
    &&& n.bus == b5
    &&& n.cpu.p & 0x04 != 0
    &&& (n.cpu.p & 0x80 != 0) == (m.cpu.p & 0x80 != 0)
    &&& (n.cpu.p & 0x40 != 0) == (m.cpu.p & 0x40 != 0)
    &&& (n.cpu.p & 0x20 != 0) == (m.cpu.p & 0x20 != 0)
    &&& (n.cpu.p & 0x10 != 0) == (m.cpu.p & 0x10 != 0)
    &&& (n.cpu.p & 0x08 != 0) == (m.cpu.p & 0x08 != 0)
    &&& (n.cpu.p & 0x02 != 0) == (m.cpu.p & 0x02 != 0)
    &&& (n.cpu.p & 0x01 != 0) == (m.cpu.p & 0x01 != 0)
}

#[verifier::rlimit(60)]
proof fn lemma_interrupted<T: Bus>(m: Machine<T::State>, ret: u16, b: bool, v: u8, vector: u16)
    requires
        copied(m.cpu.p, v, b),
    ensures
        interrupts::<T>(m, interrupted::<T>(m, ret, v, vector), ret as int, b, v, vector),
{
    lemma_around(m.cpu.sp);
    lemma_one_flag(m.cpu.p, 0x04, true);
}

/// BRK: an interrupt through $FFFE that returns behind the byte after the opcode, and
/// whose status copy has bit 4 set.
#[verifier::rlimit(60)]
pub proof fn law_break<T: Bus>(m: Machine<T::State>)
    requires
        undisturbed::<T>(m),
        opcode::<T>(m) == 0x00,
    ensures
        match step_of::<T>(m) {
            None => false,
            Some((n, t)) => t == 7 && exists|v: u8|
                #[trigger] copied(m.cpu.p, v, true) && interrupts::<T>(
                    m,
                    n,
                    (m.cpu.pc + 2) % 0x10000,
                    true,
                    v,
                    0xFFFE,
                ),
        },
{
    assert(decode_of(0x00) == Some((Instr::Brk, 7u32)));
    lemma_stepped::<T>(m, Instr::Brk, 7);
    lemma_copied(m.cpu.p);
    let v = with(with(m.cpu.p, 0x10, true), 0x20, true);
    let m1 = moved(m, 1);
    let ret = wrap16(m1.cpu.pc + 1);
    assert(ret == (m.cpu.pc + 2) % 0x10000);
    let n = interrupted::<T>(m1, ret, v, 0xFFFE);
    lemma_interrupted::<T>(m1, ret, true, v, 0xFFFE);
    assert(step_of::<T>(m) == Some((n, 7u32)));
    assert(interrupts::<T>(m, n, (m.cpu.pc + 2) % 0x10000, true, v, 0xFFFE));
}

/// A non-maskable interrupt goes through $FFFA, returns to the next instruction, and
/// has bit 4 of its status copy clear.
pub proof fn law_interrupt<T: Bus>(m: Machine<T::State>)
    ensures
        exists|v: u8|
            #[trigger] interrupts::<T>(
                m,
                nmi_of::<T>(m),
                m.cpu.pc as int,
                false,
                v,
                0xFFFA,
            ),
{
    lemma_copied(m.cpu.p);
    let v = pulled_status(m.cpu.p);
    lemma_interrupted::<T>(m, m.cpu.pc, false, v, 0xFFFA);
    assert(nmi_of::<T>(m) == interrupted::<T>(m, m.cpu.pc, v, 0xFFFA));
    assert(interrupts::<T>(m, nmi_of::<T>(m), m.cpu.pc as int, false, v, 0xFFFA));
}

/// After reset the program counter comes from $FFFC, the stack pointer is $FD, and
/// interrupts are disabled.
pub proof fn law_reset<T: Bus>(m: Machine<T::State>)
    ensures
        ({
            let n = reset_of::<T>(m);
            let (b1, lo) = T::reading(m.bus, 0xFFFC);
            let (b2, hi) = T::reading(b1, 0xFFFD);
            &&& same_data(m, n)
            &&& n.cpu.pc == lo + 256 * hi
            &&& n.cpu.sp == 0xFD
            &&& n.cpu.p == 0x24
            &&& n.bus == b2
        }),
{
    assert(0x04u8 | 0x20u8 == 0x24u8) by (bit_vector);
}

/// Whether a branch is taken: the flag that the two high bits of the opcode name,
/// negative, overflow, carry or zero, is as bit 5 says.
pub open spec fn branches(op: u8, p: u8) -> bool {
    let set = if op / 64 == 0 {
        p & 0x80 != 0
    } else if op / 64 == 1 {
        p & 0x40 != 0
    } else if op / 64 == 2 {
        p & 0x01 != 0
    } else {
        p & 0x02 != 0
    };
    set == (op / 32 % 2 == 1)
}

spec fn tested_flag(op: u8) -> u8 {
    if op / 64 == 0 {
        0x80
    } else if op / 64 == 1 {
        0x40
    } else if op / 64 == 2 {
        0x01
    } else {
        0x02
    }
}

proof fn lemma_branch_opcodes(op: u8)
    requires
        op % 32 == 16,
    ensures
        decode_of(op) == Some((Instr::Branch(tested_flag(op), op / 32 % 2 == 1), 2u32)),
{
}

/// A step over a branch.
proof fn lemma_branched<T: Bus>(m: Machine<T::State>, f: u8, want: bool)
    requires
        undisturbed::<T>(m),
        decode_of(opcode::<T>(m)) == Some((Instr::Branch(f, want), 2u32)),
    ensures
        step_of::<T>(m) == Some(
            if has(m.cpu.p, f) == want {
                (moved(moved(m, 2), twos(behind::<T>(m, 1) as u8)), 3u32)
            } else {
                (moved(m, 2), 2u32)
            },
        ),
{
    lemma_fetched::<T>(m, 0);
    lemma_fetched::<T>(m, 1);
    reveal(step_of);
}

/// BPL, BMI, BVC, BVS, BCC, BCS, BNE, BEQ: the byte behind the opcode is a signed
/// distance from the next instruction; a branch that is taken costs one more cycle.
#[verifier::rlimit(60)]
pub proof fn law_branch<T: Bus>(m: Machine<T::State>)
    requires
        undisturbed::<T>(m),
        opcode::<T>(m) % 32 == 16,
    ensures
        ({
            let op = opcode::<T>(m);
            let off = twos(behind::<T>(m, 1) as u8);
            match step_of::<T>(m) {
                None => false,
                Some((n, t)) => {
                    &&& same_data(m, n) && n.cpu.sp == m.cpu.sp && n.cpu.p == m.cpu.p
                    &&& n.bus == m.bus
                    &&& branches(op, m.cpu.p) ==> n.cpu.pc == (m.cpu.pc + 2 + off) % 0x10000 && t
                        == 3
                    &&& !branches(op, m.cpu.p) ==> n.cpu.pc == (m.cpu.pc + 2) % 0x10000 && t == 2
                },
            }
        }),
{
    let op = opcode::<T>(m);
    let f = tested_flag(op);
    lemma_fetched::<T>(m, 0);
    lemma_fetched::<T>(m, 1);
    lemma_branch_opcodes(op);
    lemma_branched::<T>(m, f, op / 32 % 2 == 1);
}

/// An opcode that none of these instructions has stops the machine.
pub proof fn law_unknown_opcode<T: Bus>(m: Machine<T::State>)
    ensures
        step_of::<T>(m) is None <==> ({
            let op = opcode::<T>(m);
            &&& op % 4 != 1 || op == 0x89
            &&& !loads(op) && !stores(op) && !compares(op)
            &&& op != 0x24 && op != 0x2C
            &&& !(op % 4 == 2 && op / 4 % 2 == 1 && (op / 32 <= 3 || op / 32 >= 6))
            &&& op != 0xE8 && op != 0xCA && op != 0xC8 && op != 0x88
            &&& op != 0x0A && op != 0x2A && op != 0x4A && op != 0x6A
            &&& op != 0xAA && op != 0xA8 && op != 0x8A && op != 0x98 && op != 0xBA && op != 0x9A
            &&& op != 0x18 && op != 0x38 && op != 0x58 && op != 0x78 && op != 0xB8 && op != 0xD8
                && op != 0xF8 && op != 0xEA
            &&& op != 0x48 && op != 0x08 && op != 0x68 && op != 0x28
            &&& op != 0x4C && op != 0x6C && op != 0x20 && op != 0x60 && op != 0x40 && op != 0x00
            &&& op % 32 != 16
        }),
{
    reveal(step_of);
    lemma_official(opcode::<T>(m));
}

proof fn lemma_official(op: u8)
    ensures
        decode_of(op) is None <==> {
            &&& op % 4 != 1 || op == 0x89
            &&& !loads(op) && !stores(op) && !compares(op)
            &&& op != 0x24 && op != 0x2C
            &&& !(op % 4 == 2 && op / 4 % 2 == 1 && (op / 32 <= 3 || op / 32 >= 6))
            &&& op != 0xE8 && op != 0xCA && op != 0xC8 && op != 0x88
            &&& op != 0x0A && op != 0x2A && op != 0x4A && op != 0x6A
            &&& op != 0xAA && op != 0xA8 && op != 0x8A && op != 0x98 && op != 0xBA && op != 0x9A
            &&& op != 0x18 && op != 0x38 && op != 0x58 && op != 0x78 && op != 0xB8 && op != 0xD8
                && op != 0xF8 && op != 0xEA
            &&& op != 0x48 && op != 0x08 && op != 0x68 && op != 0x28
            &&& op != 0x4C && op != 0x6C && op != 0x20 && op != 0x60 && op != 0x40 && op != 0x00
            &&& op % 32 != 16
        },
{
}

} // verus!
