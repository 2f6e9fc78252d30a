//! What holds of the machine as a whole: status bits, stack, calls, interrupts,
//! memory mirrors, bank windows, video memory and the controller protocol.

use vstd::prelude::*;
use crate::cpu6502::{
    address_of, decode_of, execute_of, fetch16_of, fetch_of, has, nmi_of, operand_of,
    pop16_of, pop_of, pulled_status, push16_of, push_of, reset_of, step_of, vectored, with, word,
    wrap16, wrap8, Bus, Cpu, Instr, Machine, Mode, B, C, D, I, N, U, V, Z,
};
use crate::driver::{play_of, with_buttons};
use crate::nes::{
    booted, bus_reading, bus_sound, bus_writing, frame_of, frame_start, lemma_step_cycles,
    nes_sound, power_on, run_cycles, vblank_of, BusState, NesBus, NesState, CYCLES_PER_FRAME,
    VBLANK_CYCLES,
};

verus! {

// ---------------------------------------------------------------------------
// Status register
// ---------------------------------------------------------------------------

/// The unused bit is set and the break bit is clear.
pub open spec fn status_ok(p: u8) -> bool {
    has(p, U) && p & B == 0
}

proof fn lemma_with_other(p: u8, f: u8, on: bool)
    requires
        status_ok(p),
        f == C || f == Z || f == I || f == D || f == V || f == N,
    ensures
        status_ok(with(p, f, on)),
{
    assert((p | f) & 0x20 == p & 0x20 && (p | f) & 0x10 == p & 0x10 && (p & !f) & 0x20 == p & 0x20
        && (p & !f) & 0x10 == p & 0x10) by (bit_vector)
        requires
            f == 0x01u8 || f == 0x02u8 || f == 0x04u8 || f == 0x08u8 || f == 0x40u8 || f == 0x80u8,
    ;
}

proof fn lemma_pulled(v: u8)
    ensures
        status_ok(pulled_status(v)),
        status_ok(v) ==> pulled_status(v) == v,
{
    assert(((v | 0x20) & !0x10) & 0x20 != 0 && ((v | 0x20) & !0x10) & 0x10 == 0) by (bit_vector);
    assert(v & 0x20 != 0 && v & 0x10 == 0 ==> (v | 0x20) & !0x10 == v) by (bit_vector);
}

proof fn lemma_flags_follow(p: u8, a: bool, b: bool, c: bool, d: bool)
    requires
        status_ok(p),
    ensures
        status_ok(with(with(p, Z, a), N, b)),
        status_ok(with(with(with(p, C, c), Z, a), N, b)),
        status_ok(with(with(with(with(p, C, c), V, d), Z, a), N, b)),
        status_ok(with(with(with(p, Z, a), V, d), N, b)),
{
    lemma_with_other(p, Z, a);
    lemma_with_other(with(p, Z, a), N, b);
    lemma_with_other(with(p, Z, a), V, d);
    lemma_with_other(with(with(p, Z, a), V, d), N, b);
    lemma_with_other(p, C, c);
    let q = with(p, C, c);
    lemma_with_other(q, Z, a);
    lemma_with_other(with(q, Z, a), N, b);
    lemma_with_other(q, V, d);
    let r = with(q, V, d);
    lemma_with_other(r, Z, a);
    lemma_with_other(with(r, Z, a), N, b);
}

/// Finding an operand leaves the status register alone.
proof fn lemma_address_keeps<T: Bus>(m: Machine<T::State>, mode: Mode)
    ensures
        address_of::<T>(m, mode).0.cpu.p == m.cpu.p,
        operand_of::<T>(m, mode).0.cpu.p == m.cpu.p,
{
}

/// Flag instructions touch the flags that have one.
proof fn lemma_flag_instructions(op: u8)
    ensures
        decode_of(op) matches Some((Instr::Flag(f, _), _)) ==> f == C || f == I || f == V || f == D,
{
}

/// An official instruction keeps the unused status bit set and the break bit
/// clear.
pub proof fn law_status_bits<T: Bus>(m: Machine<T::State>)
    requires
        status_ok(m.cpu.p),
    ensures
        step_of::<T>(m) matches Some((after, _)) ==> status_ok(after.cpu.p),
        status_ok(fetch_of::<T>(m).0.cpu.p),
{
    reveal(step_of);
    let (m1, op) = fetch_of::<T>(m);
    lemma_flag_instructions(op);
    if let Some((i, _)) = decode_of(op) {
        let p = m1.cpu.p;
        assert forall|a: bool, b: bool, c: bool, d: bool|
            status_ok(#[trigger] with(with(with(with(p, C, c), V, d), Z, a), N, b)) by {
            lemma_flags_follow(p, a, b, c, d);
        }
        assert forall|a: bool, b: bool, c: bool|
            status_ok(#[trigger] with(with(with(p, C, c), Z, a), N, b)) by {
            lemma_flags_follow(p, a, b, c, true);
        }
        assert forall|a: bool, b: bool| status_ok(#[trigger] with(with(p, Z, a), N, b)) by {
            lemma_flags_follow(p, a, b, true, true);
        }
        assert forall|a: bool, b: bool, d: bool|
            status_ok(#[trigger] with(with(with(p, Z, a), V, d), N, b)) by {
            lemma_flags_follow(p, a, b, true, d);
        }
        assert forall|mode: Mode| (#[trigger] address_of::<T>(m1, mode)).0.cpu.p == p by {
            lemma_address_keeps::<T>(m1, mode);
        }
        match i {
            Instr::Flag(f, on) => {
                lemma_with_other(p, f, on);
            },
            Instr::Plp => {
                lemma_pulled(pop_of::<T>(m1).1);
            },
            Instr::Rti => {
                lemma_pulled(pop_of::<T>(m1).1);
            },
            Instr::Brk => {
                lemma_with_other(p, I, true);
            },
            _ => {},
        }
    }
}

/// Reset and interrupts leave the status bits as they have to be.
pub proof fn law_interrupt_status<T: Bus>(m: Machine<T::State>)
    ensures
        status_ok(reset_of::<T>(m).cpu.p),
        status_ok(m.cpu.p) ==> status_ok(nmi_of::<T>(m).cpu.p),
{
    assert((0x04u8 | 0x20u8) & 0x20 != 0 && (0x04u8 | 0x20u8) & 0x10 == 0) by (bit_vector);
    if status_ok(m.cpu.p) {
        lemma_with_other(m.cpu.p, I, true);
    }
}

// ---------------------------------------------------------------------------
// Memory
// ---------------------------------------------------------------------------

/// RAM repeats four times below $2000: what is written at an address is read at
/// every mirror of it, and reading changes nothing.
pub proof fn law_ram_mirrors(s: BusState, addr: u16, mirror: u16, v: u8)
    requires
        bus_sound(s),
        addr < 0x2000,
        mirror < 0x2000,
        addr % 0x800 == mirror % 0x800,
    ensures
        bus_reading(bus_writing(s, addr, v), mirror) == (bus_writing(s, addr, v), v),
{
}

/// A bank register decides what its window shows: bit 7 is stripped, and banks
/// past the end wrap around.
pub proof fn law_bank_window(s: BusState, window: u16, v: u8, addr: u16)
    requires
        bus_sound(s),
        window < 4,
        0x8000 + window * 0x2000 <= addr < 0x8000 + (window + 1) * 0x2000,
    ensures
        bus_reading(bus_writing(s, (0x5114 + window) as u16, v), addr).1 == s.prg[(v as int % 128) % (
        s.prg.len() as int / 0x2000) * 0x2000 + addr as int % 0x2000],
{
    let t = bus_writing(s, (0x5114 + window) as u16, v);
    assert((addr - 0x8000) / 0x2000 == window);
    assert(t.prg_bank[window as int] == v % 128);
}

/// An address written high byte first, then a byte: the byte goes to video
/// memory at that address, and nothing else in video memory changes.
pub proof fn law_video_write(s: BusState, hi: u8, lo: u8, v: u8)
    requires
        bus_sound(s),
        s.ppu_latch_hi,
        0x20 <= hi < 0x30,
    ensures
        ({
            let at = word(lo, hi) as int % 0x800;
            let s1 = bus_writing(bus_writing(s, 0x2006, hi), 0x2006, lo);
            let s2 = bus_writing(s1, 0x2007, v);
            &&& s2.vram == s.vram.update(at, v)
            &&& s2.ppu_latch_hi
        }),
{
    let s0 = bus_writing(s, 0x2006, hi);
    assert(s0.ppu_addr == word((s.ppu_addr % 256) as u8, hi));
    let s1 = bus_writing(s0, 0x2006, lo);
    assert(s0.ppu_addr / 256 == hi);
    assert(s1.ppu_addr == word(lo, hi));
}

// ---------------------------------------------------------------------------
// Calls and interrupts on the console
// ---------------------------------------------------------------------------

/// Reading keeps the bus sound.
proof fn lemma_reading_sound(s: BusState, addr: u16)
    requires
        bus_sound(s),
    ensures
        bus_sound(bus_reading(s, addr).0),
{
}

/// A push: the byte goes to the stack page, and the stack pointer moves down.
proof fn lemma_push(m: Machine<BusState>, v: u8)
    requires
        bus_sound(m.bus),
    ensures
        push_of::<NesBus>(m, v) == (Machine {
            cpu: Cpu { sp: wrap8(m.cpu.sp - 1), ..m.cpu },
            bus: BusState { ram: m.bus.ram.update(0x100 + m.cpu.sp, v), ..m.bus },
        }),
        bus_sound(push_of::<NesBus>(m, v).bus),
{
}

/// Reading a vector changes nothing but the program counter.
proof fn lemma_vector(m: Machine<BusState>)
    requires
        bus_sound(m.bus),
    ensures
        ({
            let r = vectored::<NesBus>(m, 0xFFFA);
            r.bus == m.bus && r.cpu == (Cpu { pc: r.cpu.pc, ..m.cpu })
        }),
{
}

proof fn lemma_stack_pointers(sp: u8)
    ensures
        wrap8(wrap8(sp - 1) - 1) == wrap8(sp - 2),
        wrap8(wrap8(sp - 2) - 1) == wrap8(sp - 3),
        wrap8(wrap8(sp - 3) + 1) == wrap8(sp - 2),
        wrap8(wrap8(sp - 3) + 2) == wrap8(sp - 1),
        wrap8(wrap8(sp - 3) + 3) == sp,
        wrap8(sp - 1) != sp,
        wrap8(sp - 2) != sp,
        wrap8(sp - 2) != wrap8(sp - 1),
{
}

/// What a call leaves on the stack: the address of its last byte.
proof fn lemma_call_stack(m: Machine<BusState>)
    requires
        bus_sound(m.bus),
    ensures
        ({
            let n = execute_of::<NesBus>(m, Instr::Jsr);
            let sp = m.cpu.sp;
            let ret = wrap16(m.cpu.pc + 1);
            &&& n.cpu == (Cpu { sp: wrap8(sp - 2), pc: n.cpu.pc, ..m.cpu })
            &&& bus_sound(n.bus)
            &&& n.bus.ram[0x100 + sp] == ret / 256
            &&& n.bus.ram[0x100 + wrap8(sp - 1)] == wrap8(ret as int)
        }),
{
    let (m1, target) = fetch16_of::<NesBus>(m);
    lemma_operand_fetched(m);
    let ret = wrap16(m1.cpu.pc - 1);
    lemma_before_last(m.cpu.pc);
    lemma_word_pushed(m1, ret);
    let m2 = push16_of::<NesBus>(m1, ret);
    lemma_jsr(m);
}

proof fn lemma_operand_fetched(m: Machine<BusState>)
    requires
        bus_sound(m.bus),
    ensures
        fetch16_of::<NesBus>(m).0.cpu == (Cpu { pc: wrap16(m.cpu.pc + 2), ..m.cpu }),
        bus_sound(fetch16_of::<NesBus>(m).0.bus),
{
    let (a, lo) = fetch_of::<NesBus>(m);
    lemma_reading_sound(m.bus, m.cpu.pc);
    lemma_reading_sound(a.bus, a.cpu.pc);
}

proof fn lemma_before_last(pc: u16)
    ensures
        wrap16(wrap16(pc + 2) - 1) == wrap16(pc + 1),
{
}

/// A word on the stack, high byte first.
proof fn lemma_word_pushed(m: Machine<BusState>, w: u16)
    requires
        bus_sound(m.bus),
    ensures
        ({
            let n = push16_of::<NesBus>(m, w);
            &&& n.cpu == (Cpu { sp: wrap8(m.cpu.sp - 2), ..m.cpu })
            &&& bus_sound(n.bus)
            &&& n.bus.ram[0x100 + m.cpu.sp] == w / 256
            &&& n.bus.ram[0x100 + wrap8(m.cpu.sp - 1)] == wrap8(w as int)
        }),
{
    lemma_stack_pointers(m.cpu.sp);
    lemma_push(m, (w / 256) as u8);
    lemma_push(push_of::<NesBus>(m, (w / 256) as u8), wrap8(w as int));
}

proof fn lemma_jsr(m: Machine<BusState>)
    ensures
        ({
            let (m1, target) = fetch16_of::<NesBus>(m);
            let m2 = push16_of::<NesBus>(m1, wrap16(m1.cpu.pc - 1));
            execute_of::<NesBus>(m, Instr::Jsr) == (Machine {
                cpu: Cpu { pc: target, ..m2.cpu },
                bus: m2.bus,
            })
        }),
{
}

/// What a return takes from the stack.
proof fn lemma_rts_stack(n: Machine<BusState>)
    requires
        bus_sound(n.bus),
    ensures
        ({
            let sp = n.cpu.sp;
            execute_of::<NesBus>(n, Instr::Rts).cpu == (Cpu {
                sp: wrap8(sp + 2),
                pc: wrap16(
                    word(n.bus.ram[0x100 + wrap8(sp + 1)], n.bus.ram[0x100 + wrap8(sp + 2)]) + 1,
                ),
                ..n.cpu
            })
        }),
{
    let sp = n.cpu.sp;
    let (n1, lo) = pop_of::<NesBus>(n);
    assert(n1.cpu.sp == wrap8(sp + 1) && n1.bus == n.bus);
    let (n2, hi) = pop_of::<NesBus>(n1);
    assert(n2.cpu.sp == wrap8(sp + 2) && n2.bus == n.bus);
}

proof fn lemma_call_back(c: Cpu, n: Cpu, ram: Seq<u8>, r: Cpu)
    requires
        n.sp == wrap8(c.sp - 2),
        n == (Cpu { sp: n.sp, pc: n.pc, ..c }),
        ram[0x100 + c.sp] == wrap16(c.pc + 1) / 256,
        ram[0x100 + wrap8(c.sp - 1)] == wrap8(wrap16(c.pc + 1) as int),
        r == (Cpu {
            sp: wrap8(n.sp + 2),
            pc: wrap16(word(ram[0x100 + wrap8(n.sp + 1)], ram[0x100 + wrap8(n.sp + 2)]) + 1),
            ..n
        }),
    ensures
        r == (Cpu { pc: wrap16(c.pc + 2), ..c }),
{
    let ret = wrap16(c.pc + 1);
    assert(wrap8(n.sp + 1) == wrap8(c.sp - 1));
    assert(wrap8(n.sp + 2) == c.sp);
    assert(word(wrap8(ret as int), (ret / 256) as u8) == ret);
}

/// On the console, wherever the code stands: a return executed right behind a call
/// comes back behind it with all registers as they were.
pub proof fn law_console_call_returns(m: Machine<BusState>)
    requires
        bus_sound(m.bus),
    ensures
        execute_of::<NesBus>(execute_of::<NesBus>(m, Instr::Jsr), Instr::Rts).cpu == (Cpu {
            pc: wrap16(m.cpu.pc + 2),
            ..m.cpu
        }),
{
    let n = execute_of::<NesBus>(m, Instr::Jsr);
    lemma_call_stack(m);
    lemma_rts_stack(n);
    lemma_call_back(m.cpu, n.cpu, n.bus.ram, execute_of::<NesBus>(n, Instr::Rts).cpu);
}

/// What an interrupt leaves on the stack.
proof fn lemma_interrupt_stack(m: Machine<BusState>)
    requires
        bus_sound(m.bus),
    ensures
        ({
            let n = nmi_of::<NesBus>(m);
            let sp = m.cpu.sp;
            &&& n.cpu == (Cpu {
                sp: wrap8(sp - 3),
                p: with(m.cpu.p, I, true),
                pc: n.cpu.pc,
                ..m.cpu
            })
            &&& bus_sound(n.bus)
            &&& n.bus.ram[0x100 + sp] == m.cpu.pc / 256
            &&& n.bus.ram[0x100 + wrap8(sp - 1)] == wrap8(m.cpu.pc as int)
            &&& n.bus.ram[0x100 + wrap8(sp - 2)] == pulled_status(m.cpu.p)
        }),
{
    let hi = (m.cpu.pc / 256) as u8;
    let lo = wrap8(m.cpu.pc as int);
    let p = pulled_status(m.cpu.p);
    lemma_stack_pointers(m.cpu.sp);
    lemma_push(m, hi);
    let m1 = push_of::<NesBus>(m, hi);
    lemma_push(m1, lo);
    let m2 = push_of::<NesBus>(m1, lo);
    lemma_push(m2, p);
    let m3 = push_of::<NesBus>(m2, p);
    let masked = Machine { cpu: Cpu { p: with(m3.cpu.p, I, true), ..m3.cpu }, bus: m3.bus };
    lemma_vector(masked);
    assert(nmi_of::<NesBus>(m) == vectored::<NesBus>(masked, 0xFFFA));
}

/// What a return from an interrupt takes from the stack.
proof fn lemma_return_stack(n: Machine<BusState>)
    requires
        bus_sound(n.bus),
    ensures
        ({
            let sp = n.cpu.sp;
            execute_of::<NesBus>(n, Instr::Rti).cpu == (Cpu {
                sp: wrap8(sp + 3),
                p: pulled_status(n.bus.ram[0x100 + wrap8(sp + 1)]),
                pc: word(n.bus.ram[0x100 + wrap8(sp + 2)], n.bus.ram[0x100 + wrap8(sp + 3)]),
                ..n.cpu
            })
        }),
{
    let sp = n.cpu.sp;
    let (n1, v) = pop_of::<NesBus>(n);
    assert(n1.cpu.sp == wrap8(sp + 1) && n1.bus == n.bus);
    let n2 = Machine { cpu: Cpu { p: pulled_status(v), ..n1.cpu }, bus: n1.bus };
    let (n3, lo) = pop_of::<NesBus>(n2);
    assert(n3.cpu.sp == wrap8(sp + 2) && n3.bus == n.bus);
    let (n4, hi) = pop_of::<NesBus>(n3);
    assert(n4.cpu.sp == wrap8(sp + 3) && n4.bus == n.bus);
}

/// On the console, wherever the code stands: a return executed right behind an
/// interrupt restores all registers.
pub proof fn law_console_interrupt_returns(m: Machine<BusState>)
    requires
        bus_sound(m.bus),
        status_ok(m.cpu.p),
    ensures
        execute_of::<NesBus>(nmi_of::<NesBus>(m), Instr::Rti).cpu == m.cpu,
{
    let n = nmi_of::<NesBus>(m);
    lemma_interrupt_stack(m);
    lemma_return_stack(n);
    lemma_registers_back(m.cpu, n.cpu, n.bus.ram, execute_of::<NesBus>(n, Instr::Rti).cpu);
}

proof fn lemma_registers_back(c: Cpu, n: Cpu, ram: Seq<u8>, r: Cpu)
    requires
        status_ok(c.p),
        n.sp == wrap8(c.sp - 3),
        n == (Cpu { sp: n.sp, p: n.p, pc: n.pc, ..c }),
        ram[0x100 + c.sp] == c.pc / 256,
        ram[0x100 + wrap8(c.sp - 1)] == wrap8(c.pc as int),
        ram[0x100 + wrap8(c.sp - 2)] == pulled_status(c.p),
        r == (Cpu {
            sp: wrap8(n.sp + 3),
            p: pulled_status(ram[0x100 + wrap8(n.sp + 1)]),
            pc: word(ram[0x100 + wrap8(n.sp + 2)], ram[0x100 + wrap8(n.sp + 3)]),
            ..n
        }),
    ensures
        r == c,
{
    lemma_stack_pointers(c.sp);
    lemma_pulled(c.p);
    assert(word(wrap8(c.pc as int), (c.pc / 256) as u8) == c.pc);
}

// ---------------------------------------------------------------------------
// Stack, calls and interrupts over any memory
// ---------------------------------------------------------------------------

/// The addresses of the stack.
pub open spec fn on_stack(a: u16) -> bool {
    0x100 <= a < 0x200
}

/// In the states `ok` the bus acts as memory at the addresses `near`, the stack
/// among them: reading there changes nothing, and a write to the stack changes the
/// byte written and no other byte there.
pub open spec fn acts_as_memory<T: Bus>(
    ok: spec_fn(T::State) -> bool,
    near: spec_fn(u16) -> bool,
) -> bool {
    &&& forall|a: u16| on_stack(a) ==> #[trigger] near(a)
    &&& forall|s: T::State, a: u16| ok(s) && near(a) ==> (#[trigger] T::reading(s, a)).0 == s
    &&& forall|s: T::State, a: u16, v: u8|
        ok(s) && on_stack(a) ==> ok(#[trigger] T::writing(s, a, v))
    &&& forall|s: T::State, a: u16, v: u8, b: u16|
        ok(s) && on_stack(a) && near(b) ==> (#[trigger] T::reading(T::writing(s, a, v), b)).1 == (
        if a == b {
            v
        } else {
            T::reading(s, b).1
        })
}

/// The stack cell that a stack pointer names.
pub open spec fn stack_cell(sp: u8) -> u16 {
    (0x100 + sp) as u16
}

/// The target of the call at the program counter.
pub open spec fn call_target<T: Bus>(m: Machine<T::State>) -> u16 {
    word(
        T::reading(m.bus, wrap16(m.cpu.pc + 1)).1,
        T::reading(m.bus, wrap16(m.cpu.pc + 2)).1,
    )
}

/// A step is the execution of the instruction fetched.
proof fn lemma_step_executes<T: Bus>(m: Machine<T::State>, i: Instr, n: u32)
    requires
        decode_of(T::reading(m.bus, m.cpu.pc).1) == Some((i, n)),
        !(i is Branch),
    ensures
        step_of::<T>(m) == Some((execute_of::<T>(fetch_of::<T>(m).0, i), n)),
{
    reveal(step_of);
}

/// What JSR does once its opcode is fetched, where its operand is memory.
proof fn lemma_jsr_executes<T: Bus>(m: Machine<T::State>)
    requires
        T::reading(m.bus, m.cpu.pc).0 == m.bus,
        T::reading(m.bus, wrap16(m.cpu.pc + 1)).0 == m.bus,
    ensures
        ({
            let ret = wrap16(m.cpu.pc + 1);
            let s1 = T::writing(m.bus, stack_cell(m.cpu.sp), (ret / 256) as u8);
            let s2 = T::writing(s1, stack_cell(wrap8(m.cpu.sp - 1)), wrap8(ret as int));
            execute_of::<T>(m, Instr::Jsr) == (Machine {
                cpu: Cpu {
                    sp: wrap8(m.cpu.sp - 2),
                    pc: word(
                        T::reading(m.bus, m.cpu.pc).1,
                        T::reading(m.bus, wrap16(m.cpu.pc + 1)).1,
                    ),
                    ..m.cpu
                },
                bus: s2,
            })
        }),
{
    lemma_stack_pointers(m.cpu.sp);
    lemma_before_last(m.cpu.pc);
    let (m1, target) = fetch16_of::<T>(m);
    assert(m1.bus == m.bus && m1.cpu == (Cpu { pc: wrap16(m.cpu.pc + 2), ..m.cpu }));
    let ret = wrap16(m.cpu.pc + 1);
    let m2 = push16_of::<T>(m1, ret);
    lemma_push16_any::<T>(m1, ret);
}

proof fn lemma_push16_any<T: Bus>(m: Machine<T::State>, w: u16)
    ensures
        ({
            let s1 = T::writing(m.bus, stack_cell(m.cpu.sp), (w / 256) as u8);
            let s2 = T::writing(s1, stack_cell(wrap8(m.cpu.sp - 1)), wrap8(w as int));
            push16_of::<T>(m, w) == (Machine {
                cpu: Cpu { sp: wrap8(m.cpu.sp - 2), ..m.cpu },
                bus: s2,
            })
        }),
{
    lemma_stack_pointers(m.cpu.sp);
}

/// A pop where the stack cell is memory.
proof fn lemma_pop_any<T: Bus>(m: Machine<T::State>)
    requires
        T::reading(m.bus, stack_cell(wrap8(m.cpu.sp + 1))).0 == m.bus,
    ensures
        pop_of::<T>(m) == (
            Machine { cpu: Cpu { sp: wrap8(m.cpu.sp + 1), ..m.cpu }, bus: m.bus },
            T::reading(m.bus, stack_cell(wrap8(m.cpu.sp + 1))).1,
        ),
{
}

/// Two pops where the stack cells are memory.
proof fn lemma_pop16_any<T: Bus>(m: Machine<T::State>)
    requires
        T::reading(m.bus, stack_cell(wrap8(m.cpu.sp + 1))).0 == m.bus,
        T::reading(m.bus, stack_cell(wrap8(m.cpu.sp + 2))).0 == m.bus,
    ensures
        pop16_of::<T>(m) == (
            Machine { cpu: Cpu { sp: wrap8(m.cpu.sp + 2), ..m.cpu }, bus: m.bus },
            word(
                T::reading(m.bus, stack_cell(wrap8(m.cpu.sp + 1))).1,
                T::reading(m.bus, stack_cell(wrap8(m.cpu.sp + 2))).1,
            ),
        ),
{
    assert(wrap8(wrap8(m.cpu.sp + 1) + 1) == wrap8(m.cpu.sp + 2));
    lemma_pop_any::<T>(m);
    lemma_pop_any::<T>(pop_of::<T>(m).0);
}

/// What is pushed is popped: the value comes back, and so do the registers.
pub proof fn law_push_pop<T: Bus>(
    m: Machine<T::State>,
    v: u8,
    ok: spec_fn(T::State) -> bool,
    near: spec_fn(u16) -> bool,
)
    requires
        acts_as_memory::<T>(ok, near),
        ok(m.bus),
    ensures
        pop_of::<T>(push_of::<T>(m, v)) == (
            Machine { cpu: m.cpu, bus: push_of::<T>(m, v).bus },
            v,
        ),
        ok(push_of::<T>(m, v).bus),
{
    let m1 = push_of::<T>(m, v);
    let at = stack_cell(m.cpu.sp);
    assert(on_stack(at) && near(at));
    assert(m1.bus == T::writing(m.bus, at, v));
    assert(ok(m1.bus));
    assert(wrap8(m1.cpu.sp + 1) == m.cpu.sp);
    assert(T::reading(T::writing(m.bus, at, v), at).1 == v);
    lemma_pop_any::<T>(m1);
}

/// A 16-bit number pushed is popped.
pub proof fn law_push_pop_word<T: Bus>(
    m: Machine<T::State>,
    w: u16,
    ok: spec_fn(T::State) -> bool,
    near: spec_fn(u16) -> bool,
)
    requires
        acts_as_memory::<T>(ok, near),
        ok(m.bus),
    ensures
        pop16_of::<T>(push16_of::<T>(m, w)) == (
            Machine { cpu: m.cpu, bus: push16_of::<T>(m, w).bus },
            w,
        ),
        ok(push16_of::<T>(m, w).bus),
{
    let sp = m.cpu.sp;
    let a1 = stack_cell(sp);
    let a2 = stack_cell(wrap8(sp - 1));
    let s1 = T::writing(m.bus, a1, (w / 256) as u8);
    let s2 = T::writing(s1, a2, wrap8(w as int));
    let n = push16_of::<T>(m, w);
    lemma_stack_pointers(sp);
    lemma_push16_any::<T>(m, w);
    assert(on_stack(a1) && on_stack(a2) && near(a1) && near(a2) && a1 != a2);
    assert(ok(s1) && ok(s2));
    assert(T::reading(s1, a1).1 == w / 256);
    assert(T::reading(s2, a1).1 == w / 256);
    assert(T::reading(s2, a2).1 == wrap8(w as int));
    assert(wrap8(n.cpu.sp + 1) == wrap8(sp - 1));
    assert(wrap8(n.cpu.sp + 2) == sp);
    lemma_pop16_any::<T>(n);
    assert(word(wrap8(w as int), (w / 256) as u8) == w);
}

/// What RTI does once its opcode is fetched, where the stack is memory.
proof fn lemma_rti_executes<T: Bus>(m: Machine<T::State>)
    requires
        T::reading(m.bus, stack_cell(wrap8(m.cpu.sp + 1))).0 == m.bus,
        T::reading(m.bus, stack_cell(wrap8(m.cpu.sp + 2))).0 == m.bus,
        T::reading(m.bus, stack_cell(wrap8(m.cpu.sp + 3))).0 == m.bus,
    ensures
        execute_of::<T>(m, Instr::Rti) == (Machine {
            cpu: Cpu {
                sp: wrap8(m.cpu.sp + 3),
                p: pulled_status(T::reading(m.bus, stack_cell(wrap8(m.cpu.sp + 1))).1),
                pc: word(
                    T::reading(m.bus, stack_cell(wrap8(m.cpu.sp + 2))).1,
                    T::reading(m.bus, stack_cell(wrap8(m.cpu.sp + 3))).1,
                ),
                ..m.cpu
            },
            bus: m.bus,
        }),
{
    let sp = m.cpu.sp;
    assert(wrap8(wrap8(sp + 1) + 1) == wrap8(sp + 2));
    assert(wrap8(wrap8(sp + 2) + 1) == wrap8(sp + 3));
    lemma_pop_any::<T>(m);
    let (m1, v) = pop_of::<T>(m);
    let m2 = Machine { cpu: Cpu { p: pulled_status(v), ..m1.cpu }, bus: m1.bus };
    lemma_pop_any::<T>(m2);
    let (m3, lo) = pop_of::<T>(m2);
    lemma_pop_any::<T>(m3);
}

/// JSR over memory: the return address is on the stack, and the target is next.
#[verifier::rlimit(60)]
proof fn lemma_jsr_step<T: Bus>(
    m: Machine<T::State>,
    ok: spec_fn(T::State) -> bool,
    near: spec_fn(u16) -> bool,
)
    requires
        acts_as_memory::<T>(ok, near),
        ok(m.bus),
        near(m.cpu.pc),
        near(wrap16(m.cpu.pc + 1)),
        near(wrap16(m.cpu.pc + 2)),
        T::reading(m.bus, m.cpu.pc).1 == 0x20,
    ensures
        ({
            let ret = wrap16(m.cpu.pc + 2);
            let s1 = T::writing(m.bus, stack_cell(m.cpu.sp), (ret / 256) as u8);
            let s2 = T::writing(s1, stack_cell(wrap8(m.cpu.sp - 1)), wrap8(ret as int));
            step_of::<T>(m) == Some(
                (
                    Machine {
                        cpu: Cpu { sp: wrap8(m.cpu.sp - 2), pc: call_target::<T>(m), ..m.cpu },
                        bus: s2,
                    },
                    6u32,
                ),
            )
        }),
{
    assert(decode_of(0x20) == Some((Instr::Jsr, 6u32)));
    lemma_step_executes::<T>(m, Instr::Jsr, 6);
    let m1 = fetch_of::<T>(m).0;
    assert(m1.bus == m.bus && m1.cpu == (Cpu { pc: wrap16(m.cpu.pc + 1), ..m.cpu }));
    assert(wrap16(m1.cpu.pc + 1) == wrap16(m.cpu.pc + 2));
    lemma_jsr_executes::<T>(m1);
}

/// RTS over memory: the program goes on behind the address on the stack.
#[verifier::rlimit(60)]
proof fn lemma_rts_step<T: Bus>(
    m: Machine<T::State>,
    ok: spec_fn(T::State) -> bool,
    near: spec_fn(u16) -> bool,
)
    requires
        acts_as_memory::<T>(ok, near),
        ok(m.bus),
        near(m.cpu.pc),
        T::reading(m.bus, m.cpu.pc).1 == 0x60,
    ensures
        ({
            let lo = T::reading(m.bus, stack_cell(wrap8(m.cpu.sp + 1))).1;
            let hi = T::reading(m.bus, stack_cell(wrap8(m.cpu.sp + 2))).1;
            step_of::<T>(m) == Some(
                (
                    Machine {
                        cpu: Cpu {
                            sp: wrap8(m.cpu.sp + 2),
                            pc: wrap16(word(lo, hi) + 1),
                            ..m.cpu
                        },
                        bus: m.bus,
                    },
                    6u32,
                ),
            )
        }),
{
    let sp = m.cpu.sp;
    assert(decode_of(0x60) == Some((Instr::Rts, 6u32)));
    lemma_step_executes::<T>(m, Instr::Rts, 6);
    let m1 = fetch_of::<T>(m).0;
    assert(m1.bus == m.bus && m1.cpu == (Cpu { pc: wrap16(m.cpu.pc + 1), ..m.cpu }));
    assert(near(stack_cell(wrap8(sp + 1))) && near(stack_cell(wrap8(sp + 2))));
    lemma_pop16_any::<T>(m1);
}

/// A subroutine that returns at once comes back behind its call: JSR, then RTS at
/// its target, take six cycles each and leave the program counter three bytes on
/// and all other registers as they were. This holds on any bus that acts as memory
/// where the code and the stack are, unless the return address is pushed onto the
/// RTS itself.
pub proof fn law_call_returns<T: Bus>(
    m: Machine<T::State>,
    ok: spec_fn(T::State) -> bool,
    near: spec_fn(u16) -> bool,
)
    requires
        acts_as_memory::<T>(ok, near),
        ok(m.bus),
        near(m.cpu.pc),
        near(wrap16(m.cpu.pc + 1)),
        near(wrap16(m.cpu.pc + 2)),
        near(call_target::<T>(m)),
        T::reading(m.bus, m.cpu.pc).1 == 0x20,
        T::reading(m.bus, call_target::<T>(m)).1 == 0x60,
        call_target::<T>(m) != stack_cell(m.cpu.sp),
        call_target::<T>(m) != stack_cell(wrap8(m.cpu.sp - 1)),
    ensures
        step_of::<T>(m) matches Some((called, 6)) && step_of::<T>(called) matches Some((back, 6))
            && back.cpu == (Cpu { pc: wrap16(m.cpu.pc + 3), ..m.cpu }) && back.bus == called.bus,
{
    let sp = m.cpu.sp;
    let target = call_target::<T>(m);
    let ret = wrap16(m.cpu.pc + 2);
    let a1 = stack_cell(sp);
    let a2 = stack_cell(wrap8(sp - 1));
    lemma_stack_pointers(sp);
    lemma_jsr_step::<T>(m, ok, near);
    let s1 = T::writing(m.bus, a1, (ret / 256) as u8);
    let s2 = T::writing(s1, a2, wrap8(ret as int));
    assert(on_stack(a1) && on_stack(a2) && near(a1) && near(a2) && a1 != a2);
    assert(ok(s1) && ok(s2));
    assert(T::reading(s1, target).1 == 0x60);
    assert(T::reading(s2, target).1 == 0x60);
    assert(T::reading(s1, a1).1 == ret / 256);
    assert(T::reading(s2, a1).1 == ret / 256);
    assert(T::reading(s2, a2).1 == wrap8(ret as int));
    let called = Machine { cpu: Cpu { sp: wrap8(sp - 2), pc: target, ..m.cpu }, bus: s2 };
    lemma_rts_step::<T>(called, ok, near);
    assert(wrap8(called.cpu.sp + 1) == wrap8(sp - 1));
    assert(wrap8(called.cpu.sp + 2) == sp);
    assert(word(wrap8(ret as int), (ret / 256) as u8) == ret);
    assert(wrap16(ret + 1) == wrap16(m.cpu.pc + 3));
}

/// An interrupt over memory: return address and status are on the stack.
#[verifier::rlimit(60)]
proof fn lemma_nmi_step<T: Bus>(
    m: Machine<T::State>,
    ok: spec_fn(T::State) -> bool,
    near: spec_fn(u16) -> bool,
)
    requires
        acts_as_memory::<T>(ok, near),
        ok(m.bus),
        near(0xFFFA),
        near(0xFFFB),
    ensures
        ({
            let sp = m.cpu.sp;
            let s1 = T::writing(m.bus, stack_cell(sp), (m.cpu.pc / 256) as u8);
            let s2 = T::writing(s1, stack_cell(wrap8(sp - 1)), wrap8(m.cpu.pc as int));
            let s3 = T::writing(s2, stack_cell(wrap8(sp - 2)), pulled_status(m.cpu.p));
            nmi_of::<T>(m) == (Machine {
                cpu: Cpu {
                    sp: wrap8(sp - 3),
                    p: with(m.cpu.p, I, true),
                    pc: nmi_handler::<T>(m.bus),
                    ..m.cpu
                },
                bus: s3,
            })
        }),
{
    let sp = m.cpu.sp;
    lemma_stack_pointers(sp);
    let s1 = T::writing(m.bus, stack_cell(sp), (m.cpu.pc / 256) as u8);
    let s2 = T::writing(s1, stack_cell(wrap8(sp - 1)), wrap8(m.cpu.pc as int));
    let s3 = T::writing(s2, stack_cell(wrap8(sp - 2)), pulled_status(m.cpu.p));
    assert(on_stack(stack_cell(sp)) && on_stack(stack_cell(wrap8(sp - 1))) && on_stack(
        stack_cell(wrap8(sp - 2)),
    ));
    assert(ok(s1) && ok(s2) && ok(s3));
    assert(T::reading(s1, 0xFFFA).1 == T::reading(m.bus, 0xFFFA).1);
    assert(T::reading(s2, 0xFFFA).1 == T::reading(s1, 0xFFFA).1);
    assert(T::reading(s3, 0xFFFA).1 == T::reading(s2, 0xFFFA).1);
    assert(T::reading(s1, 0xFFFB).1 == T::reading(m.bus, 0xFFFB).1);
    assert(T::reading(s2, 0xFFFB).1 == T::reading(s1, 0xFFFB).1);
    assert(T::reading(s3, 0xFFFB).1 == T::reading(s2, 0xFFFB).1);
    let m1 = push_of::<T>(m, (m.cpu.pc / 256) as u8);
    let m2 = push_of::<T>(m1, wrap8(m.cpu.pc as int));
    let m3 = push_of::<T>(m2, pulled_status(m.cpu.p));
    assert(m3.bus == s3);
}

/// Where a non-maskable interrupt goes.
pub open spec fn nmi_handler<T: Bus>(s: T::State) -> u16 {
    word(T::reading(s, 0xFFFA).1, T::reading(s, 0xFFFB).1)
}

/// RTI over memory: status and program counter come from the stack.
#[verifier::rlimit(60)]
proof fn lemma_rti_step<T: Bus>(
    m: Machine<T::State>,
    ok: spec_fn(T::State) -> bool,
    near: spec_fn(u16) -> bool,
)
    requires
        acts_as_memory::<T>(ok, near),
        ok(m.bus),
        near(m.cpu.pc),
        T::reading(m.bus, m.cpu.pc).1 == 0x40,
    ensures
        ({
            let sp = m.cpu.sp;
            let p = T::reading(m.bus, stack_cell(wrap8(sp + 1))).1;
            let lo = T::reading(m.bus, stack_cell(wrap8(sp + 2))).1;
            let hi = T::reading(m.bus, stack_cell(wrap8(sp + 3))).1;
            step_of::<T>(m) == Some(
                (
                    Machine {
                        cpu: Cpu {
                            sp: wrap8(sp + 3),
                            p: pulled_status(p),
                            pc: word(lo, hi),
                            ..m.cpu
                        },
                        bus: m.bus,
                    },
                    6u32,
                ),
            )
        }),
{
    let sp = m.cpu.sp;
    assert(decode_of(0x40) == Some((Instr::Rti, 6u32)));
    lemma_step_executes::<T>(m, Instr::Rti, 6);
    let m1 = fetch_of::<T>(m).0;
    assert(m1.bus == m.bus && m1.cpu == (Cpu { pc: wrap16(m.cpu.pc + 1), ..m.cpu }));
    assert(near(stack_cell(wrap8(sp + 1))) && near(stack_cell(wrap8(sp + 2))) && near(
        stack_cell(wrap8(sp + 3)),
    ));
    lemma_rti_executes::<T>(m1);
}

/// An interrupt whose handler returns at once is not noticed: all registers are as
/// they were. This holds on any bus that acts as memory where the vector, the
/// handler and the stack are, unless the handler's RTI is pushed onto.
pub proof fn law_interrupt_returns<T: Bus>(
    m: Machine<T::State>,
    ok: spec_fn(T::State) -> bool,
    near: spec_fn(u16) -> bool,
)
    requires
        acts_as_memory::<T>(ok, near),
        ok(m.bus),
        status_ok(m.cpu.p),
        near(0xFFFA),
        near(0xFFFB),
        near(nmi_handler::<T>(m.bus)),
        T::reading(m.bus, nmi_handler::<T>(m.bus)).1 == 0x40,
        nmi_handler::<T>(m.bus) != stack_cell(m.cpu.sp),
        nmi_handler::<T>(m.bus) != stack_cell(wrap8(m.cpu.sp - 1)),
        nmi_handler::<T>(m.bus) != stack_cell(wrap8(m.cpu.sp - 2)),
    ensures
        step_of::<T>(nmi_of::<T>(m)) matches Some((back, 6)) && back.cpu == m.cpu && back.bus
            == nmi_of::<T>(m).bus,
{
    let sp = m.cpu.sp;
    let at = nmi_handler::<T>(m.bus);
    let a1 = stack_cell(sp);
    let a2 = stack_cell(wrap8(sp - 1));
    let a3 = stack_cell(wrap8(sp - 2));
    let s1 = T::writing(m.bus, a1, (m.cpu.pc / 256) as u8);
    let s2 = T::writing(s1, a2, wrap8(m.cpu.pc as int));
    let s3 = T::writing(s2, a3, pulled_status(m.cpu.p));
    lemma_stack_pointers(sp);
    lemma_pulled(m.cpu.p);
    lemma_nmi_step::<T>(m, ok, near);
    assert(on_stack(a1) && on_stack(a2) && on_stack(a3));
    assert(near(a1) && near(a2) && near(a3) && a1 != a2 && a1 != a3 && a2 != a3);
    assert(ok(s1) && ok(s2) && ok(s3));
    assert(T::reading(s1, at).1 == 0x40);
    assert(T::reading(s2, at).1 == 0x40);
    assert(T::reading(s3, at).1 == 0x40);
    assert(T::reading(s1, a1).1 == m.cpu.pc / 256);
    assert(T::reading(s2, a1).1 == m.cpu.pc / 256);
    assert(T::reading(s3, a1).1 == m.cpu.pc / 256);
    assert(T::reading(s2, a2).1 == wrap8(m.cpu.pc as int));
    assert(T::reading(s3, a2).1 == wrap8(m.cpu.pc as int));
    assert(T::reading(s3, a3).1 == pulled_status(m.cpu.p));
    let n = nmi_of::<T>(m);
    lemma_rti_step::<T>(n, ok, near);
    assert(wrap8(n.cpu.sp + 1) == wrap8(sp - 2));
    assert(wrap8(n.cpu.sp + 2) == wrap8(sp - 1));
    assert(wrap8(n.cpu.sp + 3) == sp);
    assert(word(wrap8(m.cpu.pc as int), (m.cpu.pc / 256) as u8) == m.cpu.pc);
}

/// The console acts as memory in RAM below its mirrors and in ROM.
pub proof fn law_console_memory()
    ensures
        acts_as_memory::<NesBus>(
            |s: BusState| bus_sound(s),
            |a: u16| a < 0x800 || a >= 0x8000,
        ),
{
    let ok = |s: BusState| bus_sound(s);
    let near = |a: u16| a < 0x800 || a >= 0x8000;
    assert forall|s: BusState, a: u16| ok(s) && near(a) implies (#[trigger] NesBus::reading(
        s,
        a,
    )).0 == s by {}
    assert forall|s: BusState, a: u16, v: u8| ok(s) && on_stack(a) implies ok(
        #[trigger] NesBus::writing(s, a, v),
    ) by {}
    assert forall|s: BusState, a: u16, v: u8, b: u16|
        ok(s) && on_stack(a) && near(b) implies (#[trigger] NesBus::reading(
        NesBus::writing(s, a, v),
        b,
    )).1 == (if a == b {
        v
    } else {
        NesBus::reading(s, b).1
    }) by {}
}

// ---------------------------------------------------------------------------
// What every instruction, frame and session keeps
// ---------------------------------------------------------------------------

/// What every single bus access keeps, every instruction keeps.
pub proof fn law_step_keeps<T: Bus>(m: Machine<T::State>, keeps: spec_fn(T::State) -> bool)
    requires
        keeps(m.bus),
        forall|s: T::State, addr: u16| keeps(s) ==> keeps((#[trigger] T::reading(s, addr)).0),
        forall|s: T::State, addr: u16, v: u8|
            keeps(s) ==> keeps(#[trigger] T::writing(s, addr, v)),
    ensures
        step_of::<T>(m) matches Some((after, _)) ==> keeps(after.bus),
        keeps(fetch_of::<T>(m).0.bus),
{
    reveal(step_of);
    let (m1, op) = fetch_of::<T>(m);
    assert(keeps(m1.bus));
    assert forall|a: Machine<T::State>, mode: Mode| keeps(a.bus) implies keeps(
        (#[trigger] address_of::<T>(a, mode)).0.bus,
    ) by {
        lemma_address_bus::<T>(a, mode, keeps);
    }
    if let Some((i, _)) = decode_of(op) {
        lemma_execute_keeps::<T>(m1, i, keeps);
    }
}

proof fn lemma_address_bus<T: Bus>(
    m: Machine<T::State>,
    mode: Mode,
    keeps: spec_fn(T::State) -> bool,
)
    requires
        keeps(m.bus),
        forall|s: T::State, addr: u16| keeps(s) ==> keeps((#[trigger] T::reading(s, addr)).0),
    ensures
        keeps(address_of::<T>(m, mode).0.bus),
        keeps(operand_of::<T>(m, mode).0.bus),
{
}

proof fn lemma_execute_keeps<T: Bus>(
    m: Machine<T::State>,
    i: Instr,
    keeps: spec_fn(T::State) -> bool,
)
    requires
        keeps(m.bus),
        forall|s: T::State, addr: u16| keeps(s) ==> keeps((#[trigger] T::reading(s, addr)).0),
        forall|s: T::State, addr: u16, v: u8|
            keeps(s) ==> keeps(#[trigger] T::writing(s, addr, v)),
    ensures
        keeps(execute_of::<T>(m, i).bus),
{
    match i {
        Instr::Load(_, mode) | Instr::Store(_, mode) | Instr::Logic(_, mode) | Instr::Bit(mode)
        | Instr::Adc(mode) | Instr::Sbc(mode) | Instr::Compare(_, mode) | Instr::Inc(mode)
        | Instr::Dec(mode) | Instr::ShiftMem(_, mode) => {
            lemma_address_bus::<T>(m, mode, keeps);
        },
        _ => {},
    }
}

/// Interrupts too keep what every single bus access keeps.
proof fn lemma_nmi_keeps<T: Bus>(m: Machine<T::State>, keeps: spec_fn(T::State) -> bool)
    requires
        keeps(m.bus),
        forall|s: T::State, addr: u16| keeps(s) ==> keeps((#[trigger] T::reading(s, addr)).0),
        forall|s: T::State, addr: u16, v: u8|
            keeps(s) ==> keeps(#[trigger] T::writing(s, addr, v)),
    ensures
        keeps(nmi_of::<T>(m).bus),
{
}

/// A bus with this ROM, memories of the right sizes.
pub open spec fn holds_rom(s: BusState, prg: Seq<u8>) -> bool {
    bus_sound(s) && s.prg == prg
}

proof fn lemma_access_keeps_rom(prg: Seq<u8>)
    ensures
        forall|s: BusState, addr: u16|
            holds_rom(s, prg) ==> holds_rom((#[trigger] NesBus::reading(s, addr)).0, prg),
        forall|s: BusState, addr: u16, v: u8|
            holds_rom(s, prg) ==> holds_rom(#[trigger] NesBus::writing(s, addr, v), prg),
{
    assert forall|s: BusState, addr: u16| holds_rom(s, prg) implies holds_rom(
        (#[trigger] NesBus::reading(s, addr)).0,
        prg,
    ) by {
        assert(holds_rom(bus_reading(s, addr).0, prg));
    }
    assert forall|s: BusState, addr: u16, v: u8| holds_rom(s, prg) implies holds_rom(
        #[trigger] NesBus::writing(s, addr, v),
        prg,
    ) by {
        assert(holds_rom(bus_writing(s, addr, v), prg));
    }
}

/// No instruction changes the ROM, nor the sizes of the memories.
pub proof fn law_step_keeps_rom(m: Machine<BusState>, prg: Seq<u8>)
    requires
        holds_rom(m.bus, prg),
    ensures
        step_of::<NesBus>(m) matches Some((after, _)) ==> holds_rom(after.bus, prg),
        holds_rom(fetch_of::<NesBus>(m).0.bus, prg),
{
    lemma_access_keeps_rom(prg);
    law_step_keeps::<NesBus>(m, |s: BusState| holds_rom(s, prg));
}

proof fn lemma_run_keeps(m: Machine<BusState>, cycle: int, over: bool, prg: Seq<u8>)
    requires
        holds_rom(m.bus, prg),
        status_ok(m.cpu.p),
    ensures
        holds_rom(run_cycles(m, cycle, over).0.bus, prg),
        status_ok(run_cycles(m, cycle, over).0.cpu.p),
        run_cycles(m, cycle, over).2 ==> run_cycles(m, cycle, over).1 >= CYCLES_PER_FRAME,
        cycle < CYCLES_PER_FRAME + 7 ==> run_cycles(m, cycle, over).1 < CYCLES_PER_FRAME + 7,
        cycle >= 0 ==> run_cycles(m, cycle, over).1 >= 0,
        !run_cycles(m, cycle, over).2 ==> run_cycles(m, cycle, over).1 < CYCLES_PER_FRAME,
    decreases CYCLES_PER_FRAME + 7 - cycle,
{
    if cycle < CYCLES_PER_FRAME {
        let past = over || cycle >= VBLANK_CYCLES;
        let m1 = if past && !over {
            Machine { cpu: m.cpu, bus: vblank_of(m.bus, false) }
        } else {
            m
        };
        lemma_step_cycles::<NesBus>(m1);
        law_step_keeps_rom(m1, prg);
        law_status_bits::<NesBus>(m1);
        if let Some((m2, n)) = step_of::<NesBus>(m1) {
            lemma_run_keeps(m2, cycle + n, past, prg);
        }
    }
}

/// Consoles whose memories fit, whose frame has cycles left, and whose status
/// bits are as they have to be, with this ROM.
pub open spec fn console_ok(s: NesState, prg: Seq<u8>) -> bool {
    nes_sound(s) && s.bus.prg == prg && status_ok(s.cpu.p)
}

/// A console that was just reset is in order.
pub proof fn law_boot_ok(prg: Seq<u8>)
    requires
        prg.len() > 0,
        prg.len() % 0x2000 == 0,
    ensures
        console_ok(booted(prg), prg),
{
    let cpu = Cpu { a: 0, x: 0, y: 0, sp: 0xFD, pc: 0, p: I | U };
    law_interrupt_status::<NesBus>(Machine { cpu, bus: power_on(prg) });
}

/// A frame keeps the console in order and its ROM unchanged, whether or not it
/// runs to its end.
pub proof fn law_frame_keeps(s: NesState, prg: Seq<u8>)
    requires
        console_ok(s, prg),
    ensures
        console_ok(frame_of(s).0, prg),
{
    reveal(frame_of);
    let m = Machine { cpu: s.cpu, bus: vblank_of(s.bus, true) };
    lemma_access_keeps_rom(prg);
    lemma_nmi_keeps::<NesBus>(m, |b: BusState| holds_rom(b, prg));
    law_interrupt_status::<NesBus>(m);
    lemma_run_keeps(frame_start(s), s.cycle, false, prg);
}

/// So does a whole tape of button presses.
pub proof fn law_session_keeps(s: NesState, tape: Seq<u8>, prg: Seq<u8>)
    requires
        console_ok(s, prg),
    ensures
        console_ok(play_of(s, tape).0, prg),
    decreases tape.len(),
{
    if tape.len() > 0 {
        law_session_keeps(s, tape.drop_last(), prg);
        law_frame_keeps(with_buttons(play_of(s, tape.drop_last()).0, tape.last()), prg);
    }
}

// ---------------------------------------------------------------------------
// Controller
// ---------------------------------------------------------------------------

/// The bus after `k` reads of the controller.
pub open spec fn after_reads(s: BusState, k: nat) -> BusState
    decreases k,
{
    if k == 0 {
        s
    } else {
        bus_reading(after_reads(s, (k - 1) as nat), 0x4016).0
    }
}

/// Button `k` of a button byte, as a bit.
pub open spec fn button(buttons: u8, k: nat) -> u8 {
    if k == 0 {
        buttons % 2
    } else if k == 1 {
        buttons / 2 % 2
    } else if k == 2 {
        buttons / 4 % 2
    } else if k == 3 {
        buttons / 8 % 2
    } else if k == 4 {
        buttons / 16 % 2
    } else if k == 5 {
        buttons / 32 % 2
    } else if k == 6 {
        buttons / 64 % 2
    } else {
        buttons / 128 % 2
    }
}

/// The shift register after `k` reads.
spec fn shift_after(b: u8, k: nat) -> u8 {
    if k == 0 {
        b
    } else if k == 1 {
        (b / 2 + 128) as u8
    } else if k == 2 {
        (b / 4 + 192) as u8
    } else if k == 3 {
        (b / 8 + 224) as u8
    } else if k == 4 {
        (b / 16 + 240) as u8
    } else if k == 5 {
        (b / 32 + 248) as u8
    } else if k == 6 {
        (b / 64 + 252) as u8
    } else if k == 7 {
        (b / 128 + 254) as u8
    } else {
        255
    }
}

proof fn lemma_after_reads(s: BusState, k: nat)
    requires
        !s.strobe,
    ensures
        after_reads(s, k) == (BusState { shift: shift_after(s.shift, k), ..s }),
    decreases k,
{
    if k > 0 {
        lemma_after_reads(s, (k - 1) as nat);
    }
}

/// The controller protocol: writing 1 and then 0 latches the buttons; the next
/// eight reads deliver them from A to Right, and all reads behind them ones.
pub proof fn law_controller(s: BusState, k: nat)
    ensures
        ({
            let latched = bus_writing(bus_writing(s, 0x4016, 1), 0x4016, 0);
            bus_reading(after_reads(latched, k), 0x4016).1 == 0x40 + if k < 8 {
                button(s.buttons, k)
            } else {
                1
            }
        }),
{
    let latched = bus_writing(bus_writing(s, 0x4016, 1), 0x4016, 0);
    assert(latched.shift == s.buttons && !latched.strobe);
    lemma_after_reads(latched, k);
}

} // verus!
