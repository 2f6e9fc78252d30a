//! What the console has to satisfy: its memories and registers, the timing of a
//! frame, the screen and ROM files.

use vstd::prelude::*;
use crate::cpu6502::{step_of, with, Machine};
use crate::instruction_laws::{interrupts, law_interrupt, law_reset, undisturbed};
use crate::lines::trim_end;
use crate::nes::{
    booted, bus_reading, bus_sound, bus_writing, frame_of, frame_start, ines_of, lemma_step_cycles,
    mapper_of, power_on, row_of, run_cycles, screen_of, shown, vblank_of, BusState, NesBus,
    NesState, RomError,
};
use crate::text::is_white;
use crate::text_laws::lemma_trim_end;

verus! {

// ---------------------------------------------------------------------------
// Reads
// ---------------------------------------------------------------------------

/// Reading the status register gives it and clears its vblank flag, so that the next
/// read finds the flag clear; the next address byte is a high byte. It does so at
/// every eighth address of its range.
pub proof fn law_status_read(s: BusState, addr: u16)
    requires
        0x2000 <= addr < 0x4000,
        addr % 8 == 2,
    ensures
        ({
            let (t, v) = bus_reading(s, addr);
            &&& v == s.ppu_status
            &&& t.ppu_status & 0x80 == 0
            &&& t.ppu_status & 0x7F == s.ppu_status & 0x7F
            &&& t.ppu_latch_hi
            &&& t == (BusState { ppu_status: t.ppu_status, ppu_latch_hi: true, ..s })
            &&& bus_reading(t, addr).1 & 0x80 == 0
        }),
{
    let p = s.ppu_status;
    assert((p & !0x80u8) & 0x80 == 0 && (p & !0x80u8) & 0x7F == p & 0x7F) by (bit_vector);
}

/// No other read but that of the controller changes anything: RAM, extra RAM and
/// ROM can be read again and again, and what is not there reads as zero.
pub proof fn law_quiet_reads(s: BusState, addr: u16)
    requires
        bus_sound(s),
        addr != 0x4016,
        !(0x2000 <= addr < 0x4000 && addr % 8 == 2),
    ensures
        bus_reading(s, addr).0 == s,
        addr < 0x2000 ==> bus_reading(s, addr).1 == s.ram[addr as int % 2048],
        0x5C00 <= addr <= 0x5FFF ==> bus_reading(s, addr).1 == s.exram[addr - 0x5C00],
        0x2000 <= addr < 0x5C00 || 0x6000 <= addr < 0x8000 ==> bus_reading(s, addr).1 == 0,
        addr >= 0x8000 ==> bus_reading(s, addr).1 == s.prg[(s.prg_bank[(addr - 0x8000) / 8192] as int
            % (s.prg.len() as int / 8192)) * 8192 + addr as int % 8192],
{
}

/// While the strobe is on, every read of the controller gives button A and changes
/// nothing.
pub proof fn law_strobe_reads(s: BusState)
    requires
        s.strobe,
    ensures
        bus_reading(s, 0x4016) == (s, (0x40 + s.buttons % 2) as u8),
{
}

/// Code in RAM, extra RAM or ROM can be fetched without a change on the bus.
pub proof fn law_console_undisturbed(m: Machine<BusState>)
    requires
        bus_sound(m.bus),
        m.cpu.pc < 0x1FFE || 0x5C00 <= m.cpu.pc < 0x5FFE || 0x8000 <= m.cpu.pc,
    ensures
        undisturbed::<NesBus>(m),
{
}

// ---------------------------------------------------------------------------
// Writes
// ---------------------------------------------------------------------------

/// RAM and extra RAM hold what was written last: a write changes the byte it
/// addresses, no other byte, and nothing else.
pub proof fn law_memory_write(s: BusState, addr: u16, v: u8, k: int)
    requires
        bus_sound(s),
    ensures
        addr < 0x2000 ==> bus_writing(s, addr, v) == (BusState {
            ram: bus_writing(s, addr, v).ram,
            ..s
        }) && (0 <= k < 2048 ==> bus_writing(s, addr, v).ram[k] == if k == addr as int % 2048 {
            v
        } else {
            s.ram[k]
        }),
        0x5C00 <= addr <= 0x5FFF ==> bus_writing(s, addr, v) == (BusState {
            exram: bus_writing(s, addr, v).exram,
            ..s
        }) && (0 <= k < 1024 ==> bus_writing(s, addr, v).exram[k] == if k == addr - 0x5C00 {
            v
        } else {
            s.exram[k]
        }),
{
}

/// A bank register keeps the low seven bits, each its own; writes where nothing is
/// change nothing.
pub proof fn law_register_write(s: BusState, addr: u16, v: u8, k: int)
    requires
        bus_sound(s),
        0x4000 <= addr,
        addr != 0x4016,
        !(0x5C00 <= addr <= 0x5FFF),
        0 <= k < 4,
    ensures
        ({
            let t = bus_writing(s, addr, v);
            &&& t == (BusState { prg_bank: t.prg_bank, ..s })
            &&& t.prg_bank[k] == if addr == 0x5114 + k {
                v % 128
            } else {
                s.prg_bank[k]
            }
        }),
{
    let t = bus_writing(s, addr, v);
    assert(t =~= (BusState { prg_bank: t.prg_bank, ..s }));
}

/// The video registers: the first is control, the seventh takes an address in two
/// bytes, high and low in turn, the eighth takes data; the others take nothing.
pub proof fn law_video_registers(s: BusState, addr: u16, v: u8)
    requires
        bus_sound(s),
        0x2000 <= addr < 0x4000,
        addr % 8 != 7,
    ensures
        ({
            let t = bus_writing(s, addr, v);
            &&& addr % 8 == 0 ==> t == (BusState { ppu_ctrl: v, ..s })
            &&& addr % 8 == 6 && s.ppu_latch_hi ==> t == (BusState {
                ppu_addr: t.ppu_addr,
                ppu_latch_hi: false,
                ..s
            }) && t.ppu_addr as int == v * 256 + s.ppu_addr as int % 256
            &&& addr % 8 == 6 && !s.ppu_latch_hi ==> t == (BusState {
                ppu_addr: t.ppu_addr,
                ppu_latch_hi: true,
                ..s
            }) && t.ppu_addr as int == s.ppu_addr as int / 256 * 256 + v
            &&& addr % 8 != 0 && addr % 8 != 6 ==> t == s
        }),
{
}

/// A data byte goes to the name tables, two kilobytes repeated from $2000 to $2FFF,
/// or to the 32 palette bytes from $3F00 on, or nowhere; then the address moves on by
/// one, or by a row of 32 where bit 2 of control says so.
pub proof fn law_video_data(s: BusState, addr: u16, v: u8, k: int)
    requires
        bus_sound(s),
        0x2000 <= addr < 0x4000,
        addr % 8 == 7,
    ensures
        ({
            let t = bus_writing(s, addr, v);
            let at = s.ppu_addr as int % 0x4000;
            &&& t == (BusState { vram: t.vram, palette: t.palette, ppu_addr: t.ppu_addr, ..s })
            &&& t.ppu_addr as int == (s.ppu_addr + (if s.ppu_ctrl & 0x04 != 0 {
                32int
            } else {
                1int
            })) % 0x10000
            &&& 0 <= k < 2048 ==> t.vram[k] == if 0x2000 <= at <= 0x2FFF && k == at % 2048 {
                v
            } else {
                s.vram[k]
            }
            &&& 0 <= k < 32 ==> t.palette[k] == if 0x3F00 <= at && k == at % 32 {
                v
            } else {
                s.palette[k]
            }
        }),
{
    let t = bus_writing(s, addr, v);
    assert(t =~= (BusState { vram: t.vram, palette: t.palette, ppu_addr: t.ppu_addr, ..s }));
}

/// A write to the controller port: bit 0 is the strobe, and dropping it latches the
/// buttons.
pub proof fn law_strobe(s: BusState, v: u8)
    ensures
        ({
            let t = bus_writing(s, 0x4016, v);
            &&& t == (BusState { strobe: t.strobe, shift: t.shift, ..s })
            &&& t.strobe <==> v as int % 2 == 1
            &&& t.shift == if s.strobe && !t.strobe {
                s.buttons
            } else {
                s.shift
            }
        }),
{
}

// ---------------------------------------------------------------------------
// Power-on
// ---------------------------------------------------------------------------

/// At power-on all memories are zero, every window shows the last bank, and the
/// program starts at the address in the last four bytes but two of the ROM.
#[verifier::rlimit(60)]
pub proof fn law_power_on(prg: Seq<u8>, k: int)
    requires
        prg.len() > 0,
        prg.len() % 8192 == 0,
        prg.len() <= 256 * 8192,
    ensures
        ({
            let s = booted(prg);
            let n = prg.len() as int;
            &&& s.bus.prg == prg
            &&& s.bus.ram.len() == 2048 && s.bus.vram.len() == 2048 && s.bus.exram.len() == 1024
                && s.bus.palette.len() == 32 && s.bus.prg_bank.len() == 4
            &&& 0 <= k < 2048 ==> s.bus.ram[k] == 0 && s.bus.vram[k] == 0
            &&& 0 <= k < 1024 ==> s.bus.exram[k] == 0
            &&& 0 <= k < 32 ==> s.bus.palette[k] == 0
            &&& 0 <= k < 4 ==> s.bus.prg_bank[k] == n / 8192 - 1
            &&& s.bus.ppu_ctrl == 0 && s.bus.ppu_status == 0 && s.bus.ppu_addr == 0
                && s.bus.ppu_latch_hi
            &&& s.bus.buttons == 0 && !s.bus.strobe && s.bus.shift == 0
            &&& s.cpu.a == 0 && s.cpu.x == 0 && s.cpu.y == 0 && s.cpu.sp == 0xFD && s.cpu.p == 0x24
            &&& s.cpu.pc == prg[n - 4] + 256 * prg[n - 3]
            &&& s.frame == 0 && s.cycle == 0
        }),
{
    let n = prg.len() as int;
    let on = power_on(prg);
    let banks = n / 8192;
    assert(banks * 8192 == n);
    let m = Machine {
        cpu: crate::cpu6502::Cpu {
            a: 0,
            x: 0,
            y: 0,
            sp: 0xFD,
            pc: 0,
            p: crate::cpu6502::I | crate::cpu6502::U,
        },
        bus: on,
    };
    law_reset::<NesBus>(m);
    assert((0xFFFC - 0x8000) / 0x2000 == 3 && (0xFFFD - 0x8000) / 0x2000 == 3);
    assert(on.prg_bank[3] == banks - 1);
    vstd::arithmetic::div_mod::lemma_small_mod((banks - 1) as nat, banks as nat);
    assert((banks - 1) * 0x2000 + 0x1FFC == n - 4);
}

// ---------------------------------------------------------------------------
// Frames
// ---------------------------------------------------------------------------

/// Two states that differ in the vblank flag at most, which is as given in the
/// second.
pub open spec fn flagged(a: BusState, b: BusState, on: bool) -> bool {
    &&& b == (BusState { ppu_status: b.ppu_status, ..a })
    &&& (b.ppu_status & 0x80 != 0) == on
    &&& b.ppu_status & 0x7F == a.ppu_status & 0x7F
}

proof fn lemma_flagged(s: BusState, on: bool)
    ensures
        flagged(s, vblank_of(s, on), on),
{
    let p = s.ppu_status;
    assert((p & !0x80u8) & 0x80 == 0 && (p & !0x80u8) & 0x7F == p & 0x7F && (p | 0x80u8) & 0x80 != 0
        && (p | 0x80u8) & 0x7F == p & 0x7F) by (bit_vector);
}

/// One instruction within a frame, from `a` at cycle `c` to `b` at cycle `d`: the
/// first instruction at or behind cycle 2273 finds the vblank flag dropped.
pub open spec fn ran(
    a: Machine<BusState>,
    c: int,
    b: Machine<BusState>,
    d: int,
    over: bool,
) -> bool {
    exists|bus: BusState|
        #![trigger step_of::<NesBus>(Machine { cpu: a.cpu, bus })]
        (if c >= 2273 && !over {
            flagged(a.bus, bus, false)
        } else {
            bus == a.bus
        }) && step_of::<NesBus>(Machine { cpu: a.cpu, bus }) == Some((b, (d - c) as u32)) && d > c
}

/// Instructions run one behind the other, each before the frame is full. `over` says
/// whether vblank was over before.
pub open spec fn ran_all(states: Seq<Machine<BusState>>, at: Seq<int>, over: bool) -> bool {
    &&& states.len() == at.len()
    &&& states.len() > 0
    &&& forall|i: int|
        0 <= i < at.len() - 1 ==> #[trigger] at[i] < 29781 && ran(
            states[i],
            at[i],
            states[i + 1],
            at[i + 1],
            over || (i > 0 && at[i - 1] >= 2273),
        )
}

/// The frame stops at a machine whose next opcode is not official.
pub open spec fn stopped(a: Machine<BusState>, c: int, over: bool) -> bool {
    exists|bus: BusState|
        #![trigger step_of::<NesBus>(Machine { cpu: a.cpu, bus })]
        (if c >= 2273 && !over {
            flagged(a.bus, bus, false)
        } else {
            bus == a.bus
        }) && step_of::<NesBus>(Machine { cpu: a.cpu, bus }) is None
}

#[verifier::rlimit(60)]
proof fn lemma_run_trace(m: Machine<BusState>, cycle: int, over: bool) -> (out: (
    Seq<Machine<BusState>>,
    Seq<int>,
))
    requires
        over ==> cycle >= 2273,
    ensures
        ran_all(out.0, out.1, over),
        out.0[0] == m,
        out.1[0] == cycle,
        ({
            let (n, c, ok) = run_cycles(m, cycle, over);
            let k = out.1.len() - 1;
            &&& c == out.1[k]
            &&& ok ==> c >= 29781 && n == out.0[k]
            &&& !ok ==> c < 29781 && stopped(
                out.0[k],
                c,
                over || (k > 0 && out.1[k - 1] >= 2273),
            )
        }),
    decreases 29781 + 7 - cycle,
{
    if cycle >= 29781 {
        (seq![m], seq![cycle])
    } else {
        let now = over || cycle >= 2273;
        let m1 = if now && !over {
            Machine { cpu: m.cpu, bus: vblank_of(m.bus, false) }
        } else {
            m
        };
        lemma_flagged(m.bus, false);
        lemma_step_cycles::<NesBus>(m1);
        assert(m1 == (Machine { cpu: m.cpu, bus: m1.bus }));
        match step_of::<NesBus>(m1) {
            Some((m2, n)) => {
                let (states, at) = lemma_run_trace(m2, cycle + n, now);
                let all = seq![m] + states;
                let times = seq![cycle] + at;
                assert(ran(m, cycle, m2, cycle + n, over)) by {
                    assert(step_of::<NesBus>(Machine { cpu: m.cpu, bus: m1.bus }) == Some(
                        (m2, (cycle + n - cycle) as u32),
                    ));
                }
                assert forall|i: int| 0 <= i < times.len() - 1 implies #[trigger] times[i] < 29781
                    && ran(
                    all[i],
                    times[i],
                    all[i + 1],
                    times[i + 1],
                    over || (i > 0 && times[i - 1] >= 2273),
                ) by {
                    if i > 0 {
                        assert(at[i - 1] < 29781);
                        assert(times[i] == at[i - 1] && times[i + 1] == at[i]);
                        assert(all[i] == states[i - 1] && all[i + 1] == states[i]);
                        if i > 1 {
                            assert(times[i - 1] == at[i - 2]);
                            lemma_times_grow(states, at, now, 0, i - 2);
                        }
                    }
                }
                let k = times.len() - 1;
                assert(times[k] == at[k - 1] && all[k] == states[k - 1]);
                if k > 1 {
                    assert(times[k - 1] == at[k - 2]);
                    lemma_times_grow(states, at, now, 0, k - 2);
                }
                (all, times)
            },
            None => {
                assert(stopped(m, cycle, over)) by {
                    assert(step_of::<NesBus>(Machine { cpu: m.cpu, bus: m1.bus }) is None);
                }
                (seq![m], seq![cycle])
            },
        }
    }
}

/// Cycles only go up.
proof fn lemma_times_grow(
    states: Seq<Machine<BusState>>,
    at: Seq<int>,
    over: bool,
    i: int,
    j: int,
)
    requires
        ran_all(states, at, over),
        0 <= i <= j < at.len(),
    ensures
        at[i] <= at[j],
    decreases j - i,
{
    if i < j {
        lemma_times_grow(states, at, over, i, j - 1);
        assert(at[j - 1] < 29781);
    }
}

/// A frame raises the vblank flag, takes the interrupt if bit 7 of control enables
/// it, and runs instruction by instruction until its 29781 cycles are used up; the
/// first instruction at or behind cycle 2273 finds the flag dropped. Cycles too many
/// count for the next frame.
#[verifier::rlimit(60)]
pub proof fn law_frame_runs(s: NesState)
    ensures
        exists|start: Machine<BusState>, states: Seq<Machine<BusState>>, at: Seq<int>|
            #![trigger frame_starts(s, start), ran_all(states, at, false)]
            frame_starts(s, start) && ran_all(states, at, false) && states[0] == start && at[0]
                == s.cycle && frame_ends(s, states, at, frame_of(s)),
{
    reveal(frame_of);
    let start = frame_start(s);
    lemma_flagged(s.bus, true);
    let raised = Machine { cpu: s.cpu, bus: vblank_of(s.bus, true) };
    law_interrupt::<NesBus>(raised);
    assert(frame_starts(s, start)) by {
        assert(flagged(s.bus, raised.bus, true));
    }
    let (states, at) = lemma_run_trace(start, s.cycle, false);
    assert(frame_ends(s, states, at, frame_of(s)));
}

/// The machine at the start of a frame.
pub open spec fn frame_starts(s: NesState, start: Machine<BusState>) -> bool {
    exists|bus: BusState|
        #![trigger flagged(s.bus, bus, true)]
        flagged(s.bus, bus, true) && (if s.bus.ppu_ctrl & 0x80 != 0 {
            exists|v: u8|
                #[trigger] interrupts::<NesBus>(
                    Machine { cpu: s.cpu, bus },
                    start,
                    s.cpu.pc as int,
                    false,
                    v,
                    0xFFFA,
                )
        } else {
            start == (Machine { cpu: s.cpu, bus })
        })
}

/// The console at the end of a frame that ran through these instructions.
pub open spec fn frame_ends(
    s: NesState,
    states: Seq<Machine<BusState>>,
    at: Seq<int>,
    end: (NesState, bool),
) -> bool {
    let k = at.len() - 1;
    if end.1 {
        &&& at[k] >= 29781
        &&& end.0.cpu == states[k].cpu
        &&& end.0.bus == states[k].bus
        &&& end.0.frame == s.frame + 1
        &&& end.0.cycle == at[k] - 29781
    } else {
        &&& at[k] < 29781
        &&& stopped(states[k], at[k], k > 0 && at[k - 1] >= 2273)
        &&& end.0.frame == s.frame
    }
}

// ---------------------------------------------------------------------------
// Screen and ROM files
// ---------------------------------------------------------------------------

/// What a tile shows.
pub proof fn law_tiles_shown(alphabet: Seq<char>, tile: u8)
    ensures
        tile == 62 ==> shown(alphabet, tile) == '>',
        tile == 63 ==> shown(alphabet, tile) == '#',
        48 <= tile <= 56 ==> shown(alphabet, tile) == '@',
        !(48 <= tile <= 56) && tile != 62 && tile != 63 && tile < alphabet.len() ==> shown(
            alphabet,
            tile,
        ) == alphabet[tile as int],
        !(48 <= tile <= 56) && tile != 62 && tile != 63 && tile >= alphabet.len() ==> shown(
            alphabet,
            tile,
        ) == ' ',
{
}

/// Lines joined, each with a newline behind it.
pub open spec fn with_newlines(lines: Seq<Seq<char>>) -> Seq<char>
    decreases lines.len(),
{
    if lines.len() == 0 {
        seq![]
    } else {
        with_newlines(lines.drop_last()) + lines.last() + seq!['\n']
    }
}

/// The screen has a line for each row; line `r` shows the 32 tiles from 32 `r` on, up
/// to the blank ones at its end.
#[verifier::rlimit(60)]
pub proof fn law_screen_lines(vram: Seq<u8>, alphabet: Seq<char>, rows: nat)
    requires
        vram.len() >= 32 * rows,
    ensures
        exists|lines: Seq<Seq<char>>|
            #![trigger with_newlines(lines)]
            lines.len() == rows && screen_of(vram, alphabet, rows) == with_newlines(lines)
                && forall|r: int|
                0 <= r < rows ==> line_shows(vram, alphabet, r, #[trigger] lines[r]),
    decreases rows,
{
    if rows == 0 {
        let none: Seq<Seq<char>> = seq![];
        assert(with_newlines(none) =~= screen_of(vram, alphabet, rows));
    } else {
        law_screen_lines(vram, alphabet, (rows - 1) as nat);
        let before = choose|lines: Seq<Seq<char>>|
            #![trigger with_newlines(lines)]
            lines.len() == rows - 1 && screen_of(vram, alphabet, (rows - 1) as nat)
                == with_newlines(lines) && forall|r: int|
                0 <= r < rows - 1 ==> line_shows(vram, alphabet, r, #[trigger] lines[r]);
        let row = row_of(vram, alphabet, rows - 1);
        let line = trim_end(row);
        let lines = before.push(line);
        assert(lines.drop_last() =~= before);
        lemma_trim_end(row);
        assert forall|c: int| 0 <= c < line.len() implies #[trigger] line[c] == shown(
            alphabet,
            vram[32 * (rows - 1) + c],
        ) by {
            assert(line[c] == row[c]);
        }
        assert forall|c: int| line.len() <= c < 32 implies is_white(
            #[trigger] shown(alphabet, vram[32 * (rows - 1) + c]),
        ) by {
            assert(is_white(row[c]));
        }
        assert(line_shows(vram, alphabet, rows - 1, line));
        assert forall|r: int| 0 <= r < rows implies line_shows(
            vram,
            alphabet,
            r,
            #[trigger] lines[r],
        ) by {
            if r < rows - 1 {
                assert(lines[r] == before[r]);
            }
        }
        assert(screen_of(vram, alphabet, rows) == with_newlines(lines));
    }
}

/// A line shows a row of tiles but for the blank ones at its end.
pub open spec fn line_shows(vram: Seq<u8>, alphabet: Seq<char>, r: int, line: Seq<char>) -> bool {
    &&& line.len() <= 32
    &&& forall|c: int| 0 <= c < line.len() ==> #[trigger] line[c] == shown(alphabet, vram[32 * r + c])
    &&& line.len() > 0 ==> !is_white(line.last())
    &&& forall|c: int|
        line.len() <= c < 32 ==> is_white(#[trigger] shown(alphabet, vram[32 * r + c]))
}

/// A ROM file is one with an iNES header for mapper 5 and all of its PRG, which it
/// gives in units of 16 KiB from byte 16 on.
pub proof fn law_rom_file(bytes: Seq<u8>)
    ensures
        ({
            let header = bytes.len() >= 16 && bytes[0] == 0x4E && bytes[1] == 0x45 && bytes[2] == 0x53
                && bytes[3] == 0x1A;
            let mapper = bytes[6] as int / 16 + 16 * (bytes[7] as int / 16);
            let n = 16384 * bytes[4];
            &&& !header ==> ines_of(bytes) == Err::<Seq<u8>, RomError>(RomError::NotInes)
            &&& header && mapper != 5 ==> ines_of(bytes) == Err::<Seq<u8>, RomError>(
                RomError::WrongMapper(mapper as u8),
            )
            &&& header && mapper == 5 && bytes.len() < 16 + n ==> ines_of(bytes) == Err::<
                Seq<u8>,
                RomError,
            >(RomError::Truncated)
            &&& header && mapper == 5 && bytes.len() >= 16 + n ==> (ines_of(bytes) matches Ok(prg)
                && prg.len() == n && forall|i: int| 0 <= i < n ==> #[trigger] prg[i] == bytes[16 + i])
        }),
{
    let magic = seq![0x4Eu8, 0x45u8, 0x53u8, 0x1Au8];
    if bytes.len() >= 16 {
        let t = bytes.take(4);
        assert(t[0] == bytes[0] && t[1] == bytes[1] && t[2] == bytes[2] && t[3] == bytes[3]);
        if bytes[0] == 0x4E && bytes[1] == 0x45 && bytes[2] == 0x53 && bytes[3] == 0x1A {
            assert(t =~= magic);
        } else {
            assert(t[0] != magic[0] || t[1] != magic[1] || t[2] != magic[2] || t[3] != magic[3]);
        }
        assert(mapper_of(bytes) == bytes[6] as int / 16 + 16 * (bytes[7] as int / 16));
    }
}

} // verus!
