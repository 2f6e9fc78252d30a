//! The processor, the bus and the console, on small hand-assembled programs.

use nano_nes_model_builder::cpu6502::{Bus, Cpu};
use nano_nes_model_builder::nes::{
    parse_ines, Nes, NesBus, RomError, BTN_A, BTN_RIGHT, BTN_START, CYCLES_PER_FRAME,
};
use nano_nes_model_builder::VOCAB;

/// One 8 KiB bank with `code` at $E000 and the vectors at its end.
fn prg(code: &[u8], nmi: u16) -> Vec<u8> {
    let mut p = vec![0u8; 0x2000];
    p[..code.len()].copy_from_slice(code);
    p[0x1FFA..0x1FFC].copy_from_slice(&nmi.to_le_bytes());
    p[0x1FFC..0x1FFE].copy_from_slice(&0xE000u16.to_le_bytes());
    p[0x1FFE..0x2000].copy_from_slice(&0xE100u16.to_le_bytes());
    p
}

fn boot(code: &[u8]) -> (Cpu, NesBus) {
    let mut bus = NesBus::new(prg(code, 0xE200));
    let mut cpu = Cpu::new();
    cpu.reset(&mut bus);
    (cpu, bus)
}

/// Runs `n` instructions and gives the cycles they took.
fn run(cpu: &mut Cpu, bus: &mut NesBus, n: usize) -> u32 {
    (0..n).map(|_| cpu.step(bus)).sum()
}

const C: u8 = 0x01;
const Z: u8 = 0x02;
const I: u8 = 0x04;
const B: u8 = 0x10;
const U: u8 = 0x20;
const V: u8 = 0x40;
const N: u8 = 0x80;

#[test]
fn reset_state() {
    let (cpu, _) = boot(&[]);
    assert_eq!((cpu.a, cpu.x, cpu.y, cpu.sp, cpu.pc, cpu.p), (0, 0, 0, 0xFD, 0xE000, I | U));
}

#[test]
fn loads_stores_and_flags() {
    // LDA #$80; STA $10; LDX $10; STX $0810; LDY #0; STY $11; TAX; TXS; TSX
    let (mut cpu, mut bus) = boot(&[
        0xA9, 0x80, 0x85, 0x10, 0xA6, 0x10, 0x8E, 0x20, 0x08, 0xA0, 0x00, 0x84, 0x11, 0xAA, 0x9A, 0xBA,
    ]);
    assert_eq!(run(&mut cpu, &mut bus, 1), 2);
    assert_eq!((cpu.a, cpu.p), (0x80, I | U | N));
    assert_eq!(run(&mut cpu, &mut bus, 3), 3 + 3 + 4);
    assert_eq!((bus.ram[0x10], cpu.x, bus.ram[0x20]), (0x80, 0x80, 0x80));
    run(&mut cpu, &mut bus, 2);
    assert_eq!((cpu.y, cpu.p), (0, I | U | Z));
    run(&mut cpu, &mut bus, 2);
    assert_eq!(cpu.sp, 0x80);
    run(&mut cpu, &mut bus, 1);
    assert_eq!((cpu.x, cpu.p), (0x80, I | U | N));
}

#[test]
fn addition_and_subtraction() {
    // LDA #$7F; ADC #1; SEC; SBC #$80; CLC; SBC #0
    let (mut cpu, mut bus) =
        boot(&[0xA9, 0x7F, 0x69, 0x01, 0x38, 0xE9, 0x80, 0x18, 0xE9, 0x00, 0x69, 0xFF]);
    run(&mut cpu, &mut bus, 2);
    assert_eq!((cpu.a, cpu.p), (0x80, I | U | N | V));
    run(&mut cpu, &mut bus, 2);
    assert_eq!((cpu.a, cpu.p), (0x00, I | U | Z | C));
    // 0 - 0 - 1 = -1 with a borrow
    run(&mut cpu, &mut bus, 2);
    assert_eq!((cpu.a, cpu.p), (0xFF, I | U | N));
    // $FF + $FF = $1FE
    run(&mut cpu, &mut bus, 1);
    assert_eq!((cpu.a, cpu.p), (0xFE, I | U | N | C));
}

#[test]
fn compares_and_bit_tests() {
    // LDA #5; CMP #5; CMP #6; LDX #9; CPX #1; BIT $10
    let (mut cpu, mut bus) =
        boot(&[0xA9, 0x05, 0xC9, 0x05, 0xC9, 0x06, 0xA2, 0x09, 0xE0, 0x01, 0x24, 0x10]);
    run(&mut cpu, &mut bus, 2);
    assert_eq!(cpu.p, I | U | Z | C);
    run(&mut cpu, &mut bus, 1);
    assert_eq!(cpu.p, I | U | N);
    run(&mut cpu, &mut bus, 2);
    assert_eq!(cpu.p, I | U | C);
    bus.ram[0x10] = 0xC2;
    run(&mut cpu, &mut bus, 1);
    assert_eq!(cpu.p, I | U | C | N | V | Z);
}

#[test]
fn logic_and_shifts() {
    // LDA #$A5; AND #$0F; ORA #$30; EOR #$FF; ASL; ROL; LSR; ROR $20
    let (mut cpu, mut bus) = boot(&[
        0xA9, 0xA5, 0x29, 0x0F, 0x09, 0x30, 0x49, 0xFF, 0x0A, 0x2A, 0x4A, 0x66, 0x20,
    ]);
    bus.ram[0x20] = 0x01;
    run(&mut cpu, &mut bus, 4);
    assert_eq!(cpu.a, 0xCA);
    run(&mut cpu, &mut bus, 1);
    assert_eq!((cpu.a, cpu.p & C), (0x94, C));
    run(&mut cpu, &mut bus, 1);
    assert_eq!((cpu.a, cpu.p & C), (0x29, C));
    run(&mut cpu, &mut bus, 1);
    assert_eq!((cpu.a, cpu.p & C), (0x14, C));
    assert_eq!(run(&mut cpu, &mut bus, 1), 5);
    assert_eq!((bus.ram[0x20], cpu.p & (C | N)), (0x80, C | N));
}

#[test]
fn addressing_modes() {
    // LDX #$FF; LDA $02,X; LDY #1; LDA ($10),Y; LDA ($11,X); STA $0300,Y
    let (mut cpu, mut bus) = boot(&[
        0xA2, 0xFF, 0xB5, 0x02, 0xA0, 0x01, 0xB1, 0x10, 0xA1, 0x11, 0x99, 0x00, 0x03,
    ]);
    bus.ram[0x01] = 0x77;
    bus.ram[0x10] = 0xFF;
    bus.ram[0x11] = 0x01;
    bus.ram[0x200] = 0x42;
    bus.ram[0x1FF] = 0x24;
    run(&mut cpu, &mut bus, 2);
    assert_eq!(cpu.a, 0x77);
    assert_eq!(run(&mut cpu, &mut bus, 2), 2 + 5);
    assert_eq!(cpu.a, 0x42);
    assert_eq!(run(&mut cpu, &mut bus, 1), 6);
    assert_eq!(cpu.a, 0x24);
    assert_eq!(run(&mut cpu, &mut bus, 1), 5);
    assert_eq!(bus.ram[0x301], 0x24);
}

#[test]
fn zero_page_pointers_wrap() {
    // LDY #0; LDA ($FF),Y
    let (mut cpu, mut bus) = boot(&[0xA0, 0x00, 0xB1, 0xFF]);
    bus.ram[0xFF] = 0x34;
    bus.ram[0x00] = 0x02;
    bus.ram[0x234] = 0x99;
    run(&mut cpu, &mut bus, 2);
    assert_eq!(cpu.a, 0x99);
}

#[test]
fn counting_loop_and_branches() {
    // LDX #3; loop: INC $40; DEX; BNE loop; BEQ +2
    let (mut cpu, mut bus) =
        boot(&[0xA2, 0x03, 0xE6, 0x40, 0xCA, 0xD0, 0xFB, 0xF0, 0x02, 0xEA, 0xEA, 0xC6, 0x40]);
    // 2 + 3 * (5 + 2) + 2 * 3 + 2, then 3 for the branch taken
    assert_eq!(run(&mut cpu, &mut bus, 11), 2 + 21 + 6 + 2 + 3);
    assert_eq!((bus.ram[0x40], cpu.x, cpu.pc), (3, 0, 0xE00B));
    run(&mut cpu, &mut bus, 1);
    assert_eq!(bus.ram[0x40], 2);
}

#[test]
fn calls_return_behind_themselves() {
    // JSR $E010; ...; $E010: RTS
    let mut code = vec![0xEA; 0x20];
    code[0..3].copy_from_slice(&[0x20, 0x10, 0xE0]);
    code[0x10] = 0x60;
    let (mut cpu, mut bus) = boot(&code);
    assert_eq!(run(&mut cpu, &mut bus, 1), 6);
    assert_eq!((cpu.pc, cpu.sp, bus.ram[0x1FD], bus.ram[0x1FC]), (0xE010, 0xFB, 0xE0, 0x02));
    run(&mut cpu, &mut bus, 1);
    assert_eq!((cpu.pc, cpu.sp), (0xE003, 0xFD));
}

#[test]
fn stack_pushes_and_pulls() {
    // LDA #$81; PHA; PHP; LDA #0; PLP; PLA
    let (mut cpu, mut bus) = boot(&[0xA9, 0x81, 0x48, 0x08, 0xA9, 0x00, 0x28, 0x68]);
    run(&mut cpu, &mut bus, 3);
    assert_eq!((bus.ram[0x1FD], bus.ram[0x1FC]), (0x81, I | U | B | N));
    run(&mut cpu, &mut bus, 2);
    assert_eq!(cpu.p, I | U | N);
    run(&mut cpu, &mut bus, 1);
    assert_eq!((cpu.a, cpu.sp), (0x81, 0xFD));
}

#[test]
fn interrupts_return_to_where_they_came_from() {
    let mut code = vec![0xEA; 0x300];
    code[0] = 0x38;
    code[0x200] = 0x40;
    let (mut cpu, mut bus) = boot(&code);
    run(&mut cpu, &mut bus, 1);
    cpu.nmi(&mut bus);
    assert_eq!((cpu.pc, cpu.sp), (0xE200, 0xFA));
    assert_eq!(bus.ram[0x1FB], I | U | C);
    run(&mut cpu, &mut bus, 1);
    assert_eq!((cpu.pc, cpu.sp, cpu.p), (0xE001, 0xFD, I | U | C));
}

#[test]
fn software_interrupts_skip_a_byte() {
    let mut code = vec![0xEA; 0x200];
    code[0] = 0x00;
    code[0x100] = 0x40;
    let (mut cpu, mut bus) = boot(&code);
    assert_eq!(run(&mut cpu, &mut bus, 1), 7);
    assert_eq!((cpu.pc, bus.ram[0x1FB]), (0xE100, I | U | B));
    run(&mut cpu, &mut bus, 1);
    assert_eq!((cpu.pc, cpu.p), (0xE002, I | U));
}

#[test]
fn indirect_jumps_stay_in_the_page() {
    // JMP ($02FF)
    let (mut cpu, mut bus) = boot(&[0x6C, 0xFF, 0x02]);
    bus.ram[0x2FF] = 0x00;
    bus.ram[0x200] = 0x04;
    bus.ram[0x300] = 0xE1;
    assert_eq!(run(&mut cpu, &mut bus, 1), 5);
    assert_eq!(cpu.pc, 0x0400);
}

#[test]
fn opcodes_that_are_not_official_stop() {
    let (mut cpu, mut bus) = boot(&[0xEA, 0x02]);
    assert_eq!(cpu.try_step(&mut bus), Some(2));
    assert_eq!(cpu.try_step(&mut bus), None);
    assert_eq!(cpu.pc, 0xE002);
}

#[test]
fn ram_mirrors() {
    let mut bus = NesBus::new(prg(&[], 0));
    bus.write(0x1823, 9);
    assert_eq!(bus.ram[0x23], 9);
    for base in [0x0000, 0x0800, 0x1000, 0x1800] {
        assert_eq!(bus.read(base + 0x23), 9);
    }
    bus.write(0x5C10, 7);
    assert_eq!((bus.read(0x5C10), bus.exram[0x10]), (7, 7));
    assert_eq!(bus.read(0x5000), 0);
    assert_eq!(bus.read(0x2000), 0);
}

#[test]
fn bank_windows() {
    let mut p = Vec::new();
    for b in 0..3u8 {
        p.extend(vec![b; 0x2000]);
    }
    let mut bus = NesBus::new(p);
    // power-on: the last bank everywhere
    assert_eq!((bus.read(0x8000), bus.read(0xFFFF)), (2, 2));
    bus.write(0x5114, 0x80);
    bus.write(0x5115, 0x81);
    bus.write(0x5116, 4);
    assert_eq!((bus.read(0x9FFF), bus.read(0xA000), bus.read(0xDFFF), bus.read(0xE000)), (0, 1, 1, 2));
}

#[test]
fn controller_protocol() {
    let mut bus = NesBus::new(prg(&[], 0));
    bus.buttons = BTN_A | BTN_START | BTN_RIGHT;
    bus.write(0x4016, 1);
    // while the strobe is up, only A is read
    assert_eq!((bus.read(0x4016), bus.read(0x4016)), (0x41, 0x41));
    bus.write(0x4016, 0);
    bus.buttons = 0;
    let got: Vec<u8> = (0..10).map(|_| bus.read(0x4016)).collect();
    assert_eq!(got, vec![0x41, 0x40, 0x40, 0x41, 0x40, 0x40, 0x40, 0x41, 0x41, 0x41]);
}

#[test]
fn video_memory_and_screen() {
    let mut nes = Nes::new(prg(&[], 0));
    let b = &mut nes.bus;
    let put = |b: &mut NesBus, addr: u16, bytes: &[u8]| {
        b.write(0x2006, (addr >> 8) as u8);
        b.write(0x2006, addr as u8);
        for &x in bytes {
            b.write(0x2007, x);
        }
    };
    put(b, 0x2000, &[62, 8, 9, 0, 63, 48, 56, 200]);
    // increments of 32 go down a column
    b.write(0x2000, 0x04);
    put(b, 0x2061, &[1, 2]);
    put(b, 0x3F01, &[0x30]);
    put(b, 0x1000, &[99]);
    assert_eq!(b.palette[1], 0x30);
    let screen = nes.screen_text(VOCAB);
    let lines: Vec<&str> = screen.lines().collect();
    assert_eq!(lines.len(), 30);
    assert_eq!(lines[0], ">HI #@@");
    assert_eq!((lines[1], lines[2], lines[3], lines[4]), ("", "", " A", " B"));
}

#[test]
fn status_reads_clear_vblank_and_the_latch() {
    let mut bus = NesBus::new(prg(&[], 0));
    bus.set_vblank(true);
    bus.write(0x2006, 0x21);
    assert_eq!(bus.read(0x2002), 0x80);
    assert_eq!(bus.read(0x200A), 0);
    // the next address byte is a high one again
    bus.write(0x2006, 0x20);
    bus.write(0x2006, 0x05);
    bus.write(0x2007, 1);
    assert_eq!(bus.vram[5], 1);
    assert!(!bus.nmi_enabled());
    bus.write(0x3FF8, 0x80);
    assert!(bus.nmi_enabled());
    bus.set_vblank(true);
    bus.set_vblank(false);
    assert_eq!(bus.read(0x2002), 0);
}

#[test]
fn frames_count_cycles_and_raise_nmi() {
    // LDA #$80; STA $2000; loop: JMP loop   NMI: INC $20; RTI
    let mut code = vec![0xEA; 0x300];
    code[0..8].copy_from_slice(&[0xA9, 0x80, 0x8D, 0x00, 0x20, 0x4C, 0x05, 0xE0]);
    code[0x200..0x203].copy_from_slice(&[0xE6, 0x20, 0x40]);
    let mut nes = Nes::new(prg(&code, 0xE200));
    nes.run_frame();
    assert_eq!((nes.frame, nes.bus.ram[0x20]), (1, 0));
    assert!(nes.cycle_in_frame < 7);
    for _ in 0..5 {
        nes.run_frame();
    }
    assert_eq!((nes.frame, nes.bus.ram[0x20]), (6, 5));
    assert_eq!(CYCLES_PER_FRAME, 29781);
}

#[test]
fn vblank_ends_inside_the_frame() {
    // loop: LDA $2002; BPL loop; INC $11; JMP loop
    let code = [0xAD, 0x02, 0x20, 0x10, 0xFB, 0xE6, 0x11, 0x4C, 0x00, 0xE0];
    let mut nes = Nes::new(prg(&code, 0xE200));
    for _ in 0..4 {
        nes.run_frame();
    }
    // the flag is seen once per frame: reading clears it
    assert_eq!(nes.bus.ram[0x11], 4);
}

#[test]
fn frames_leave_the_rom_and_the_buttons_alone() {
    // LDX #$FF; PHP; PLP; STX $E000; STX $8123; INC $FFFC; JMP $E000
    let code = [
        0xA2, 0xFF, 0x08, 0x28, 0x8E, 0x00, 0xE0, 0x8E, 0x23, 0x81, 0xEE, 0xFC, 0xFF, 0x4C, 0x00, 0xE0,
    ];
    let rom = prg(&code, 0xE200);
    let mut nes = Nes::new(rom.clone());
    nes.bus.buttons = BTN_START;
    for _ in 0..3 {
        nes.run_frame();
        assert_eq!((nes.cpu.p & U, nes.cpu.p & B), (U, 0));
    }
    assert_eq!(nes.bus.prg, rom);
    assert_eq!(nes.bus.buttons, BTN_START);
}

#[test]
fn a_frame_stops_at_a_bad_opcode() {
    let mut nes = Nes::new(prg(&[0xEA, 0x02], 0xE200));
    assert!(!nes.try_run_frame());
    assert_eq!(nes.frame, 0);
}

#[test]
fn ines_files() {
    let mut f = vec![0u8; 16 + 16384];
    f[0..4].copy_from_slice(b"NES\x1a");
    f[4] = 1;
    f[6] = 0x50;
    f[16] = 7;
    let rom = parse_ines(&f).map_err(|_| ()).unwrap();
    assert_eq!((rom.prg.len(), rom.prg[0], rom.mapper), (16384, 7, 5));
    let refused = |b: &[u8]| match parse_ines(b) {
        Ok(_) => None,
        Err(e) => Some(e),
    };
    assert_eq!(refused(&f[0..15]), Some(RomError::NotInes));
    let mut g = f.clone();
    g[3] = 0;
    assert_eq!(refused(&g), Some(RomError::NotInes));
    let mut g = f.clone();
    g[7] = 0x10;
    assert_eq!(refused(&g), Some(RomError::WrongMapper(0x15)));
    assert_eq!(refused(&f[0..16 + 16383]), Some(RomError::Truncated));
}
