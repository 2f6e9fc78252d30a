//! Headless NES: CPU + RAM + MMC5-banked PRG ROM + a PPU stub (vblank flag,
//! NMI, $2006/$2007 VRAM writes, so that the nametable text can be dumped) +
//! one controller.
//!
//! MMC5 subset modeled: PRG mode 3 (four 8 KiB windows, $5114-$5117, bit 7 =
//! ROM) and ExRAM as scratch memory. The mapper is a bank window, not a
//! co-processor.

use vstd::prelude::*;
use crate::cpu6502::{
    fetch_of, has, lemma_base_cycles, machine, nmi_of, reset_of, step_of, with, word, wrap16, Bus,
    Cpu, Machine,
};
use crate::lines::{trim_end, without_end};
use crate::text::chars_of;

pub use crate::driver::Driver;

verus! {

/// NTSC CPU cycles per frame.
pub const CYCLES_PER_FRAME: u64 = 29781;

/// Cycles of vblank at the start of a frame (about 20 scanlines).
pub const VBLANK_CYCLES: u64 = 2273;

pub const BTN_A: u8 = 0x01;

pub const BTN_B: u8 = 0x02;

pub const BTN_SELECT: u8 = 0x04;

pub const BTN_START: u8 = 0x08;

pub const BTN_UP: u8 = 0x10;

pub const BTN_DOWN: u8 = 0x20;

pub const BTN_LEFT: u8 = 0x40;

pub const BTN_RIGHT: u8 = 0x80;

/// The PPU status and control bit for vblank and its interrupt.
pub const VBLANK: u8 = 0x80;

/// Everything on the bus.
pub struct NesBus {
    pub ram: [u8; 0x800],
    /// n x 8 KiB banks.
    pub prg: Vec<u8>,
    /// $5114-$5117 (bit 7 stripped), windows at $8000/$A000/$C000/$E000.
    pub prg_bank: [u8; 4],
    pub vram: [u8; 0x800],
    pub palette: [u8; 32],
    pub ppu_ctrl: u8,
    pub ppu_status: u8,
    pub ppu_addr: u16,
    pub ppu_latch_hi: bool,
    /// bit0=A, 1=B, 2=Select, 3=Start, 4=Up, 5=Down, 6=Left, 7=Right.
    pub buttons: u8,
    pub strobe: bool,
    pub shift: u8,
    /// MMC5 ExRAM ($5C00-$5FFF).
    pub exram: [u8; 1024],
}

/// The state of the bus as contracts see it.
#[verifier::ext_equal]
pub struct BusState {
    pub ram: Seq<u8>,
    pub prg: Seq<u8>,
    pub prg_bank: Seq<u8>,
    pub vram: Seq<u8>,
    pub palette: Seq<u8>,
    pub ppu_ctrl: u8,
    pub ppu_status: u8,
    pub ppu_addr: u16,
    pub ppu_latch_hi: bool,
    pub buttons: u8,
    pub strobe: bool,
    pub shift: u8,
    pub exram: Seq<u8>,
}

/// The memories have their sizes, and PRG is made of whole 8 KiB banks.
pub open spec fn bus_sound(s: BusState) -> bool {
    &&& s.ram.len() == 0x800
    &&& s.prg.len() > 0
    &&& s.prg.len() % 0x2000 == 0
    &&& s.prg_bank.len() == 4
    &&& s.vram.len() == 0x800
    &&& s.palette.len() == 32
    &&& s.exram.len() == 1024
}

/// The byte of PRG ROM that a CPU address shows through its window.
pub open spec fn prg_byte(s: BusState, addr: u16) -> u8 {
    let n_banks = s.prg.len() as int / 0x2000;
    let bank = s.prg_bank[(addr - 0x8000) / 0x2000] as int % n_banks;
    s.prg[bank * 0x2000 + addr as int % 0x2000]
}

/// A read on the bus.
pub open spec fn bus_reading(s: BusState, addr: u16) -> (BusState, u8) {
    if addr < 0x2000 {
        (s, s.ram[addr as int % 0x800])
    } else if addr < 0x4000 {
        // PPU registers repeat every eight bytes; only the status reads back.
        if addr % 8 == 2 {
            (
                BusState {
                    ppu_status: with(s.ppu_status, VBLANK, false),
                    ppu_latch_hi: true,
                    ..s
                },
                s.ppu_status,
            )
        } else {
            (s, 0)
        }
    } else if addr == 0x4016 {
        // Controller: the strobe holds button A, otherwise the shift register
        // delivers one button per read and then ones.
        if s.strobe {
            (s, (0x40 + s.buttons % 2) as u8)
        } else {
            (BusState { shift: (s.shift / 2 + 128) as u8, ..s }, (0x40 + s.shift % 2) as u8)
        }
    } else if 0x5C00 <= addr < 0x6000 {
        (s, s.exram[addr - 0x5C00])
    } else if addr >= 0x8000 {
        (s, prg_byte(s, addr))
    } else {
        (s, 0)
    }
}

/// A byte that goes to VRAM or the palette; pattern memory is not modeled.
pub open spec fn ppu_stored(s: BusState, val: u8) -> BusState {
    let at = s.ppu_addr as int % 0x4000;
    if 0x2000 <= at < 0x3000 {
        BusState { vram: s.vram.update(at % 0x800, val), ..s }
    } else if at >= 0x3F00 {
        BusState { palette: s.palette.update(at % 32, val), ..s }
    } else {
        s
    }
}

/// A write on the bus.
pub open spec fn bus_writing(s: BusState, addr: u16, val: u8) -> BusState {
    if addr < 0x2000 {
        BusState { ram: s.ram.update(addr as int % 0x800, val), ..s }
    } else if addr < 0x4000 {
        if addr % 8 == 0 {
            BusState { ppu_ctrl: val, ..s }
        } else if addr % 8 == 6 {
            BusState {
                ppu_addr: if s.ppu_latch_hi {
                    word((s.ppu_addr % 256) as u8, val)
                } else {
                    word(val, (s.ppu_addr / 256) as u8)
                },
                ppu_latch_hi: !s.ppu_latch_hi,
                ..s
            }
        } else if addr % 8 == 7 {
            let step: int = if has(s.ppu_ctrl, 0x04) {
                32
            } else {
                1
            };
            BusState { ppu_addr: wrap16(s.ppu_addr + step), ..ppu_stored(s, val) }
        } else {
            s
        }
    } else if addr == 0x4016 {
        // Dropping the strobe latches the buttons.
        BusState {
            shift: if s.strobe && val % 2 == 0 {
                s.buttons
            } else {
                s.shift
            },
            strobe: val % 2 == 1,
            ..s
        }
    } else if 0x5C00 <= addr < 0x6000 {
        BusState { exram: s.exram.update(addr - 0x5C00, val), ..s }
    } else if 0x5114 <= addr <= 0x5117 {
        BusState { prg_bank: s.prg_bank.update(addr - 0x5114, (val % 128) as u8), ..s }
    } else {
        s
    }
}

/// The bus with the vblank flag set or cleared.
pub open spec fn vblank_of(s: BusState, on: bool) -> BusState {
    BusState { ppu_status: with(s.ppu_status, VBLANK, on), ..s }
}

/// The bus at power-on: everything zero, the first PPU address byte is the
/// high one, and all windows show the last bank (so vectors work).
pub open spec fn power_on(prg: Seq<u8>) -> BusState {
    let last = ((prg.len() as int / 0x2000 - 1) % 256) as u8;
    BusState {
        ram: Seq::new(0x800, |i: int| 0u8),
        prg,
        prg_bank: Seq::new(4, |i: int| last),
        vram: Seq::new(0x800, |i: int| 0u8),
        palette: Seq::new(32, |i: int| 0u8),
        ppu_ctrl: 0,
        ppu_status: 0,
        ppu_addr: 0,
        ppu_latch_hi: true,
        buttons: 0,
        strobe: false,
        shift: 0,
        exram: Seq::new(1024, |i: int| 0u8),
    }
}

impl NesBus {
    /// A bus with this PRG ROM, which must be made of whole 8 KiB banks.
    pub fn new(prg: Vec<u8>) -> (bus: NesBus)
        requires
            prg@.len() > 0,
            prg@.len() % 0x2000 == 0,
        ensures
            bus.state() == power_on(prg@),
    {
        let last: u8 = ((prg.len() / 0x2000 - 1) % 256) as u8;
        let bus = NesBus {
            ram: [0;0x800],
            prg,
            prg_bank: [last;4],
            vram: [0;0x800],
            palette: [0;32],
            ppu_ctrl: 0,
            ppu_status: 0,
            ppu_addr: 0,
            ppu_latch_hi: true,
            buttons: 0,
            strobe: false,
            shift: 0,
            exram: [0;1024],
        };
        assert(bus.state() =~= power_on(prg@));
        bus
    }

    fn n_banks(&self) -> (n: usize)
        ensures
            n == self.prg@.len() as int / 0x2000,
    {
        self.prg.len() / 0x2000
    }

    /// Whether vblank raises an interrupt.
    pub fn nmi_enabled(&self) -> (on: bool)
        ensures
            on == has(self.state().ppu_ctrl, VBLANK),
    {
        self.ppu_ctrl & VBLANK != 0
    }

    /// Raises or drops the vblank flag.
    pub fn set_vblank(&mut self, on: bool)
        ensures
            final(self).state() == vblank_of(old(self).state(), on),
    {
        if on {
            self.ppu_status = self.ppu_status | VBLANK;
        } else {
            self.ppu_status = self.ppu_status & !VBLANK;
        }
    }

    fn read_prg(&self, addr: u16) -> (val: u8)
        requires
            bus_sound(self.state()),
            addr >= 0x8000,
        ensures
            val == prg_byte(self.state(), addr),
    {
        let window: usize = ((addr - 0x8000) / 0x2000) as usize;
        let n = self.n_banks();
        let bank: usize = self.prg_bank[window] as usize % n;
        assert(bank < n);
        assert(n * 0x2000 == self.prg.len());
        self.prg[bank * 0x2000 + addr as usize % 0x2000]
    }

    fn write_ppu_data(&mut self, val: u8)
        requires
            bus_sound(old(self).state()),
        ensures
            final(self).state() == bus_writing(old(self).state(), 0x2007, val),
    {
        let at: usize = self.ppu_addr as usize % 0x4000;
        if 0x2000 <= at && at < 0x3000 {
            self.vram[at % 0x800] = val;
        } else if at >= 0x3F00 {
            self.palette[at % 32] = val;
        }
        let step: u16 = if self.ppu_ctrl & 0x04 != 0 {
            32
        } else {
            1
        };
        self.ppu_addr = self.ppu_addr.wrapping_add(step);
        assert(self.state() =~= bus_writing(old(self).state(), 0x2007, val));
    }
}

impl Bus for NesBus {
    type State = BusState;

    open spec fn state(&self) -> BusState {
        BusState {
            ram: self.ram@,
            prg: self.prg@,
            prg_bank: self.prg_bank@,
            vram: self.vram@,
            palette: self.palette@,
            ppu_ctrl: self.ppu_ctrl,
            ppu_status: self.ppu_status,
            ppu_addr: self.ppu_addr,
            ppu_latch_hi: self.ppu_latch_hi,
            buttons: self.buttons,
            strobe: self.strobe,
            shift: self.shift,
            exram: self.exram@,
        }
    }

    open spec fn sound(s: BusState) -> bool {
        bus_sound(s)
    }

    open spec fn reading(s: BusState, addr: u16) -> (BusState, u8) {
        bus_reading(s, addr)
    }

    open spec fn writing(s: BusState, addr: u16, val: u8) -> BusState {
        bus_writing(s, addr, val)
    }

    fn read(&mut self, addr: u16) -> (val: u8) {
        if addr < 0x2000 {
            self.ram[addr as usize % 0x800]
        } else if addr < 0x4000 {
            if addr % 8 == 2 {
                let v = self.ppu_status;
                self.set_vblank(false);
                self.ppu_latch_hi = true;
                v
            } else {
                0
            }
        } else if addr == 0x4016 {
            if self.strobe {
                0x40 + self.buttons % 2
            } else {
                let bit: u8 = self.shift % 2;
                self.shift = self.shift / 2 + 128;
                0x40 + bit
            }
        } else if 0x5C00 <= addr && addr < 0x6000 {
            self.exram[(addr - 0x5C00) as usize]
        } else if addr >= 0x8000 {
            self.read_prg(addr)
        } else {
            0
        }
    }

    fn write(&mut self, addr: u16, val: u8) {
        if addr < 0x2000 {
            self.ram[addr as usize % 0x800] = val;
        } else if addr < 0x4000 {
            if addr % 8 == 0 {
                self.ppu_ctrl = val;
            } else if addr % 8 == 6 {
                if self.ppu_latch_hi {
                    self.ppu_addr = val as u16 * 256 + self.ppu_addr % 256;
                } else {
                    self.ppu_addr = self.ppu_addr / 256 * 256 + val as u16;
                }
                self.ppu_latch_hi = !self.ppu_latch_hi;
            } else if addr % 8 == 7 {
                self.write_ppu_data(val);
            }
        } else if addr == 0x4016 {
            let strobe = val % 2 == 1;
            if self.strobe && !strobe {
                self.shift = self.buttons;
            }
            self.strobe = strobe;
        } else if 0x5C00 <= addr && addr < 0x6000 {
            self.exram[(addr - 0x5C00) as usize] = val;
        } else if 0x5114 <= addr && addr <= 0x5117 {
            self.prg_bank[(addr - 0x5114) as usize] = val % 128;
        }
        assert(self.state() =~= bus_writing(old(self).state(), addr, val));
    }
}


// ---------------------------------------------------------------------------
// The console
// ---------------------------------------------------------------------------

/// Console: processor, bus, frames run so far, and the cycles by which the
/// last frame overran.
pub struct Nes {
    pub cpu: Cpu,
    pub bus: NesBus,
    pub frame: u64,
    pub cycle_in_frame: u64,
}

/// The console's state as contracts see it.
#[verifier::ext_equal]
pub struct NesState {
    pub cpu: Cpu,
    pub bus: BusState,
    pub frame: int,
    pub cycle: int,
}

impl View for Nes {
    type V = NesState;

    open spec fn view(&self) -> NesState {
        NesState {
            cpu: self.cpu,
            bus: self.bus.state(),
            frame: self.frame as int,
            cycle: self.cycle_in_frame as int,
        }
    }
}

/// The bus is sound and the frame has cycles left.
pub open spec fn nes_sound(s: NesState) -> bool {
    bus_sound(s.bus) && 0 <= s.cycle < CYCLES_PER_FRAME
}

/// An instruction takes two to seven cycles.
pub proof fn lemma_step_cycles<T: Bus>(m: Machine<T::State>)
    ensures
        step_of::<T>(m) matches Some((_, n)) ==> 2 <= n <= 7,
{
    reveal(step_of);
    lemma_base_cycles(fetch_of::<T>(m).1);
}

/// Runs instructions until the frame's cycles are used up; the first
/// instruction boundary past `VBLANK_CYCLES` ends vblank. Gives the machine,
/// the cycle count, and whether every opcode was official; an opcode that is
/// not stops the machine right behind it.
pub open spec fn run_cycles(m: Machine<BusState>, cycle: int, vblank_over: bool) -> (
    Machine<BusState>,
    int,
    bool,
)
    decreases CYCLES_PER_FRAME + 7 - cycle,
{
    if cycle >= CYCLES_PER_FRAME {
        (m, cycle, true)
    } else {
        let over = vblank_over || cycle >= VBLANK_CYCLES;
        let m1 = if over && !vblank_over {
            Machine { cpu: m.cpu, bus: vblank_of(m.bus, false) }
        } else {
            m
        };
        proof {
            lemma_step_cycles::<NesBus>(m1);
        }
        match step_of::<NesBus>(m1) {
            Some((m2, n)) => run_cycles(m2, cycle + n, over),
            None => (fetch_of::<NesBus>(m1).0, cycle, false),
        }
    }
}

/// The machine at the start of a frame: vblank raised, its interrupt taken if
/// enabled.
pub open spec fn frame_start(s: NesState) -> Machine<BusState> {
    let m = Machine { cpu: s.cpu, bus: vblank_of(s.bus, true) };
    if has(m.bus.ppu_ctrl, VBLANK) {
        nmi_of::<NesBus>(m)
    } else {
        m
    }
}

/// One frame: the console after it, and whether it ran to its end.
#[verifier::opaque]
pub open spec fn frame_of(s: NesState) -> (NesState, bool) {
    let (m, cycle, ok) = run_cycles(frame_start(s), s.cycle, false);
    if ok {
        (
            NesState {
                cpu: m.cpu,
                bus: m.bus,
                frame: s.frame + 1,
                cycle: cycle - CYCLES_PER_FRAME,
            },
            true,
        )
    } else {
        (NesState { cpu: m.cpu, bus: m.bus, frame: s.frame, cycle }, false)
    }
}

/// A frame that runs to its end is counted.
pub proof fn lemma_frame_counted(s: NesState)
    ensures
        frame_of(s).1 ==> frame_of(s).0.frame == s.frame + 1,
{
    reveal(frame_of);
}

/// A console with this PRG ROM, just reset.
pub open spec fn booted(prg: Seq<u8>) -> NesState {
    let m = reset_of::<NesBus>(
        Machine {
            cpu: Cpu {
                a: 0,
                x: 0,
                y: 0,
                sp: 0xFD,
                pc: 0,
                p: crate::cpu6502::I | crate::cpu6502::U,
            },
            bus: power_on(prg),
        },
    );
    NesState { cpu: m.cpu, bus: m.bus, frame: 0, cycle: 0 }
}

impl Nes {
    /// A console with this PRG ROM, just reset.
    pub fn new(prg: Vec<u8>) -> (nes: Nes)
        requires
            prg@.len() > 0,
            prg@.len() % 0x2000 == 0,
        ensures
            nes@ == booted(prg@),
            nes_sound(nes@),
    {
        let mut bus = NesBus::new(prg);
        let mut cpu = Cpu::new();
        cpu.reset(&mut bus);
        Nes { cpu, bus, frame: 0, cycle_in_frame: 0 }
    }

    /// Runs one frame and says whether it ran to its end; a frame stops at an
    /// opcode that is not official.
    pub fn try_run_frame(&mut self) -> (ok: bool)
        requires
            nes_sound(old(self)@),
            old(self).frame < u64::MAX,
        ensures
            nes_sound(final(self)@),
            (final(self)@, ok) == frame_of(old(self)@),
            final(self).frame == old(self).frame + if ok {
                1int
            } else {
                0int
            },
    {
        reveal(frame_of);
        self.bus.set_vblank(true);
        if self.bus.nmi_enabled() {
            self.cpu.nmi(&mut self.bus);
        }
        let ghost start = frame_start(old(self)@);
        assert(machine(self.cpu, self.bus) == start);
        let mut vblank_over = false;
        while self.cycle_in_frame < CYCLES_PER_FRAME
            invariant
                bus_sound(self.bus.state()),
                self.frame == old(self).frame,
                self.frame < u64::MAX,
                start == frame_start(old(self)@),
                self.cycle_in_frame < CYCLES_PER_FRAME + 7,
                run_cycles(
                    machine(self.cpu, self.bus),
                    self.cycle_in_frame as int,
                    vblank_over,
                ) == run_cycles(start, old(self)@.cycle, false),
            decreases CYCLES_PER_FRAME + 7 - self.cycle_in_frame,
        {
            if !vblank_over && self.cycle_in_frame >= VBLANK_CYCLES {
                self.bus.set_vblank(false);
                vblank_over = true;
            }
            proof {
                lemma_step_cycles::<NesBus>(machine(self.cpu, self.bus));
            }
            match self.cpu.try_step(&mut self.bus) {
                Some(n) => {
                    self.cycle_in_frame = self.cycle_in_frame + n as u64;
                },
                None => {
                    reveal(frame_of);
                    return false;
                },
            }
        }
        self.cycle_in_frame = self.cycle_in_frame - CYCLES_PER_FRAME;
        self.frame = self.frame + 1;
        true
    }

    /// Runs one frame of a program that only uses official opcodes.
    pub fn run_frame(&mut self)
        requires
            nes_sound(old(self)@),
            old(self).frame < u64::MAX,
            frame_of(old(self)@).1,
        ensures
            nes_sound(final(self)@),
            final(self)@ == frame_of(old(self)@).0,
    {
        let _ = self.try_run_frame();
    }

    /// Decodes the nametable to text using tile == character id (plus UI tiles).
    pub fn screen_text(&self, vocab: &str) -> (text: String)
        ensures
            text@ == screen_of(self@.bus.vram, vocab@, 30),
    {
        let chars = chars_of(vocab);
        let mut out = String::new();
        let mut row: usize = 0;
        while row < 30
            invariant
                row <= 30,
                chars@ == vocab@,
                out@ == screen_of(self.bus.vram@, vocab@, row as nat),
            decreases 30 - row,
        {
            let mut line: Vec<char> = Vec::new();
            let mut col: usize = 0;
            while col < 32
                invariant
                    row < 30,
                    col <= 32,
                    chars@ == vocab@,
                    line@ == row_of(self.bus.vram@, vocab@, row as int).take(col as int),
                decreases 32 - col,
            {
                let tile = self.bus.vram[row * 32 + col];
                let ch = if tile == 62 {
                    '>'
                } else if tile == 63 {
                    '#'
                } else if 48 <= tile && tile <= 56 {
                    '@'
                } else if (tile as usize) < chars.len() {
                    chars[tile as usize]
                } else {
                    ' '
                };
                line.push(ch);
                col = col + 1;
            }
            assert(line@ == row_of(self.bus.vram@, vocab@, row as int));
            let ghost base = out@;
            let shown = without_end(&line);
            let mut k: usize = 0;
            while k < shown.len()
                invariant
                    k <= shown.len(),
                    out@ == base + shown@.take(k as int),
                decreases shown.len() - k,
            {
                out.push(shown[k]);
                assert(shown@.take(k + 1) == shown@.take(k as int).push(shown@[k as int]));
                k = k + 1;
            }
            assert(shown@.take(k as int) == shown@);
            out.push('\n');
            row = row + 1;
        }
        out
    }
}

/// What a tile shows: the selector, the block cursor, the llama, or a
/// character of the alphabet.
pub open spec fn shown(alphabet: Seq<char>, tile: u8) -> char {
    if tile == 62 {
        '>'
    } else if tile == 63 {
        '#'
    } else if 48 <= tile <= 56 {
        '@'
    } else if tile < alphabet.len() {
        alphabet[tile as int]
    } else {
        ' '
    }
}

/// One nametable row of 32 tiles.
pub open spec fn row_of(vram: Seq<u8>, alphabet: Seq<char>, row: int) -> Seq<char> {
    Seq::new(32, |col: int| shown(alphabet, vram[row * 32 + col]))
}

/// The first rows of the nametable, each trimmed and ended by a newline.
pub open spec fn screen_of(vram: Seq<u8>, alphabet: Seq<char>, rows: nat) -> Seq<char>
    decreases rows,
{
    if rows == 0 {
        seq![]
    } else {
        screen_of(vram, alphabet, (rows - 1) as nat) + trim_end(
            row_of(vram, alphabet, rows - 1),
        ) + seq!['\n']
    }
}

// ---------------------------------------------------------------------------
// ROM files
// ---------------------------------------------------------------------------

/// A parsed ROM file.
pub struct Rom {
    pub prg: Vec<u8>,
    pub mapper: u8,
}

/// Why a file is not a usable ROM.
#[derive(Clone, Copy, Debug, PartialEq, Eq, Structural)]
pub enum RomError {
    /// No iNES header.
    NotInes,
    /// A mapper other than MMC5; which one.
    WrongMapper(u8),
    /// The header promises more PRG than the file holds.
    Truncated,
}

/// The mapper number of an iNES header: its low half is in byte 6, its high
/// half in byte 7.
pub open spec fn mapper_of(bytes: Seq<u8>) -> u8 {
    (bytes[6] / 16 + bytes[7] / 16 * 16) as u8
}

/// The PRG ROM of an iNES file for mapper 5.
pub open spec fn ines_of(bytes: Seq<u8>) -> Result<Seq<u8>, RomError> {
    let prg_len = bytes[4] as int * 16384;
    if bytes.len() < 16 || bytes.take(4) != seq![0x4Eu8, 0x45u8, 0x53u8, 0x1Au8] {
        Err(RomError::NotInes)
    } else if mapper_of(bytes) != 5 {
        Err(RomError::WrongMapper(mapper_of(bytes)))
    } else if bytes.len() < 16 + prg_len {
        Err(RomError::Truncated)
    } else {
        Ok(bytes.subrange(16, 16 + prg_len))
    }
}

/// Parses an iNES file (mapper 5 / MMC5 expected).
pub fn parse_ines(bytes: &[u8]) -> (rom: Result<Rom, RomError>)
    ensures
        match rom {
            Ok(rom) => ines_of(bytes@) == Ok::<Seq<u8>, RomError>(rom.prg@) && rom.mapper == 5,
            Err(e) => ines_of(bytes@) == Err::<Seq<u8>, RomError>(e),
        },
{
    if bytes.len() < 16 {
        return Err(RomError::NotInes);
    }
    if bytes[0] != 0x4E || bytes[1] != 0x45 || bytes[2] != 0x53 || bytes[3] != 0x1A {
        assert(bytes@.take(4)[0] == bytes@[0] && bytes@.take(4)[1] == bytes@[1] && bytes@.take(4)[2]
            == bytes@[2] && bytes@.take(4)[3] == bytes@[3]);
        return Err(RomError::NotInes);
    }
    assert(bytes@.take(4) =~= seq![0x4Eu8, 0x45u8, 0x53u8, 0x1Au8]);
    let mapper: u8 = bytes[6] / 16 + bytes[7] / 16 * 16;
    if mapper != 5 {
        return Err(RomError::WrongMapper(mapper));
    }
    let prg_len: usize = bytes[4] as usize * 16384;
    if bytes.len() < 16 + prg_len {
        return Err(RomError::Truncated);
    }
    let prg = vstd::slice::slice_to_vec(&bytes[16..16 + prg_len]);
    Ok(Rom { prg, mapper })
}

} // verus!
