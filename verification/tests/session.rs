//! Typing, sessions, reports and the terminal player.

use nano_nes_model_builder::driver::plan_keys;
use nano_nes_model_builder::nes::{
    Driver, Nes, BTN_A, BTN_B, BTN_DOWN, BTN_LEFT, BTN_RIGHT, BTN_START, BTN_UP,
};
use nano_nes_model_builder::neural::NeuralInt;
use nano_nes_model_builder::report::{
    mode_name, parity, read_report, reference_code, reference_fits, rom_mismatch, trace_parity,
    words_valid, RefMismatch, RomMismatch,
};
use nano_nes_model_builder::terminal::{draw_box, hint, Keypad};
use nano_nes_model_builder::{answer_pipeline, build_model, char_ids, plan_model, Model};

fn model() -> Model {
    let p = plan_model("Why hum? We hum. Hi! Why hum? We hum.", "EMERGENCY -> WHY HUM", "").unwrap();
    let v = p.vocab.words.len();
    let net = NeuralInt {
        v,
        emb: vec![0; v * 8],
        w1: vec![0; 256],
        b1: vec![0; 16],
        w2: vec![0; v * 16],
        b2: vec![0; v],
        sh_h: 0,
        sh_out: 0,
    };
    build_model(p, net).0
}

fn prg(code: &[u8]) -> Vec<u8> {
    let mut p = vec![0u8; 0x2000];
    p[..code.len()].copy_from_slice(code);
    p[0x1FFC..0x1FFE].copy_from_slice(&0xE000u16.to_le_bytes());
    p
}

/// A program that stores bytes and then loops.
fn storing(bytes: &[(u16, u8)]) -> Vec<u8> {
    let mut code = Vec::new();
    for &(addr, v) in bytes {
        code.extend_from_slice(&[0xA9, v, 0x8D, addr as u8, (addr >> 8) as u8]);
    }
    let here = 0xE000 + code.len() as u16;
    code.extend_from_slice(&[0x4C, here as u8, (here >> 8) as u8]);
    prg(&code)
}

/// A program that counts button presses (rising edges of any button) in $10 and
/// keeps the last one in $11.
fn counting() -> Vec<u8> {
    prg(&[
        0xA9, 0x01, 0x8D, 0x16, 0x40, // strobe up
        0xA9, 0x00, 0x8D, 0x16, 0x40, // strobe down
        0xA2, 0x08, // LDX #8
        0xAD, 0x16, 0x40, // LDA $4016
        0x4A, // LSR
        0x66, 0x12, // ROR $12
        0xCA, // DEX
        0xD0, 0xF7, // BNE
        0xA5, 0x12, // LDA $12
        0xF0, 0x08, // BEQ released
        0xA6, 0x13, // LDX $13
        0xD0, 0x06, // BNE held
        0xE6, 0x10, // INC $10
        0x85, 0x11, // STA $11
        0x85, 0x13, // STA $13 (held and released meet here)
        0x4C, 0x00, 0xE0,
    ])
}

#[test]
fn strokes_walk_the_grid() {
    // A is in row 0, column 1; L (12) in row 1, column 1; ? (42) in row 3, column 9
    assert_eq!(plan_keys(&char_ids("A"), 0, 0), vec![BTN_RIGHT, BTN_A]);
    assert_eq!(plan_keys(&char_ids("AL"), 0, 0), vec![BTN_RIGHT, BTN_A, BTN_DOWN, BTN_A]);
    assert_eq!(
        plan_keys(&char_ids("B"), 3, 4),
        vec![BTN_UP, BTN_UP, BTN_UP, BTN_LEFT, BTN_LEFT, BTN_A]
    );
    assert_eq!(plan_keys(&char_ids("?"), 0, 0).len(), 3 + 9 + 1);
    assert_eq!(plan_keys(&[], 2, 2), Vec::<u8>::new());
}

#[test]
fn presses_reach_the_program() {
    let mut d = Driver::new(Nes::new(counting()));
    assert!(d.try_idle(2));
    d.press(BTN_START);
    assert_eq!((d.nes.bus.ram[0x10], d.nes.bus.ram[0x11], d.nes.frame), (1, BTN_START, 6));
    // L from the first cell: down, right, A, and Start at the end
    d.type_and_ask("l");
    assert_eq!((d.nes.bus.ram[0x10], d.nes.bus.ram[0x11], d.nes.frame), (5, BTN_START, 22));
    assert_eq!((d.kb_row, d.kb_col), (1, 1));
    d.idle(3);
    assert_eq!((d.nes.bus.ram[0x10], d.nes.frame), (5, 25));
    d.reset_kb();
    assert_eq!((d.kb_row, d.kb_col), (0, 0));
}

#[test]
fn a_driver_stops_at_a_bad_opcode() {
    let mut d = Driver::new(Nes::new(prg(&[0xEA, 0x02])));
    assert!(!d.try_press(BTN_A));
    let mut d = Driver::new(Nes::new(prg(&[0xEA, 0x02])));
    assert!(!d.try_idle(3));
    assert_eq!(d.nes.frame, 0);
    let mut d = Driver::new(Nes::new(prg(&[0xEA, 0x02])));
    assert!(!d.try_type_and_ask("hi"));
    let mut d = Driver::new(Nes::new(prg(&[0xEA, 0x02])));
    assert!(!d.try_wait(10));
}

#[test]
fn reports_are_read_from_ram() {
    let mut ram = [0u8; 0x800];
    ram[0x300..0x303].copy_from_slice(&[4, 5, 6]);
    ram[0x7F0..0x7F9].copy_from_slice(&[2, 3, 0xFF, 32, 1, 4, 3, 200, 1]);
    let r = read_report(&ram);
    assert_eq!(r.words, vec![4, 5, 6]);
    assert_eq!((r.status, r.count, r.budget, r.reason, r.level, r.tone), (2, 3, 32, 1, 4, 3));
    assert_eq!((r.bank_switches, r.mode), (200, 1));
    assert!(words_valid(&r, 7) && !words_valid(&r, 6));
    // too short for a pass
    assert!(!parity(&r, &[4, 5, 6], 1, 4, "GREETING", 7));
    assert_eq!((mode_name(0), mode_name(1), mode_name(2)), ("PURE_6502", "MMC5_MAX", "PURE_6502"));
}

#[test]
fn parity_checks_everything() {
    let mut ram = [0u8; 0x800];
    ram[0x300..0x306].copy_from_slice(&[1, 2, 3, 4, 5, 6]);
    ram[0x7F0] = 2;
    ram[0x7F1] = 6;
    ram[0x7F4] = 3;
    ram[0x7F5] = 1;
    ram[0x7F6] = 4;
    let ok = |ram: &[u8; 0x800]| parity(&read_report(ram), &[1, 2, 3, 4, 5, 6], 3, 1, "TECHNICAL", 7);
    assert!(ok(&ram));
    for (at, v) in [(0x7F0, 1), (0x7F1, 5), (0x7F1, 33), (0x7F4, 4), (0x7F5, 0), (0x7F6, 0), (0x302, 9), (0x305, 7)] {
        let mut bad = ram;
        bad[at] = v;
        assert!(!ok(&bad), "{at:x}");
    }
}

#[test]
fn a_question_in_a_session() {
    let m = model();
    let t = answer_pipeline(&m, "why hum?");
    let mut bytes: Vec<(u16, u8)> =
        t.words.iter().enumerate().map(|(i, &w)| (0x300 + i as u16, w)).collect();
    bytes.extend_from_slice(&[
        (0x7F1, t.words.len() as u8),
        (0x7F4, t.reason),
        (0x7F5, t.gen_level_max),
        (0x7F6, t.tone),
        (0x7F0, 2),
    ]);
    let mut d = Driver::new(Nes::new(storing(&bytes)));
    let o = d.try_question(&m, "why hum?").unwrap();
    assert!(o.pass && trace_parity(&o.report, &t, m.vocab.words.len()));
    assert_eq!(o.report.words, t.words);
    // the answer is there at once: the frames are those of the presses
    let strokes = plan_keys(&char_ids("why hum?"), 0, 0).len() as u64 + 1;
    assert_eq!(o.frames, 4 * strokes);
    assert_eq!(d.nes.frame, o.frames + 12);
    assert_eq!((d.kb_row, d.kb_col), (0, 0));
    // another tone is noticed
    let at = bytes.len() - 2;
    bytes[at].1 = t.tone + 1;
    let mut d = Driver::new(Nes::new(storing(&bytes)));
    assert!(!d.try_question(&m, "why hum?").unwrap().pass);
}

#[test]
fn a_question_that_never_ends_times_out() {
    let m = model();
    let mut d = Driver::new(Nes::new(storing(&[(0x7F0, 1)])));
    let o = d.try_question(&m, "a").unwrap();
    assert!(!o.pass);
    assert_eq!((o.report.status, o.frames), (1, 8000));
    let mut d = Driver::new(Nes::new(prg(&[0x02])));
    assert!(d.try_question(&m, "a").is_none());
}

#[test]
fn waiting_stops_at_the_limit_or_when_done() {
    let mut d = Driver::new(Nes::new(storing(&[(0x7F0, 2)])));
    assert!(d.try_wait(10));
    assert_eq!(d.nes.frame, 1);
    let mut d = Driver::new(Nes::new(storing(&[])));
    assert!(d.try_wait(10));
    assert_eq!(d.nes.frame, 10);
    assert!(d.try_wait(5));
    assert_eq!(d.nes.frame, 10);
}

#[test]
fn roms_are_compared_with_the_model() {
    let m = model();
    let mut p = vec![0u8; 1_048_576];
    p[..m.tri.len()].copy_from_slice(&m.tri);
    p[126 * 8192..126 * 8192 + m.bi.len()].copy_from_slice(&m.bi);
    assert_eq!(rom_mismatch(&p, &m), None);
    assert_eq!(rom_mismatch(&p[1..], &m), Some(RomMismatch::Size));
    p[126 * 8192] ^= 1;
    assert_eq!(rom_mismatch(&p, &m), Some(RomMismatch::Bigram));
    p[77] ^= 1;
    assert_eq!(rom_mismatch(&p, &m), Some(RomMismatch::Trigram));
}

#[test]
fn references_belong_to_one_run() {
    let fits = |m: &str, c: &str, q: &str| reference_fits(m, c, q, "aa", "bb", "why?");
    assert_eq!(fits("aa", "bb", "why?"), None);
    assert_eq!(fits("", "b", "why"), Some(RefMismatch::Model));
    assert_eq!(fits("aa", "b", "why"), Some(RefMismatch::Corpus));
    assert_eq!(fits("aa", "bb", "WHY?"), Some(RefMismatch::Question));
    assert_eq!((reference_code(Some(3)), reference_code(Some(259)), reference_code(None)), (3, 3, 99));
}

#[test]
fn keys_become_presses() {
    let mut k = Keypad::new();
    assert!(!k.key(b'a', 0));
    assert_eq!(k.presses.len(), 8);
    assert_eq!((k.row, k.col), (0, 1));
    let tape: Vec<u8> = (0..9).map(|_| k.next_buttons()).collect();
    assert_eq!(tape, vec![BTN_RIGHT, BTN_RIGHT, 0, 0, BTN_A, BTN_A, 0, 0, 0]);
    // not on the chat screen: ignored; no tile: ignored
    assert!(!k.key(b'b', 1) && !k.key(b'@', 0) && !k.key(b'\t', 0) && !k.key(0xE9, 0));
    assert!(k.presses.is_empty());
    assert!(!k.key(b'\n', 1));
    assert_eq!(k.next_buttons(), BTN_START);
}

#[test]
fn keys_and_scripted_typing_press_the_same() {
    let mut k = Keypad::new();
    assert!(!k.keys(b"why hum?", 0));
    let strokes = plan_keys(&char_ids("why hum?"), 0, 0);
    let tape: Vec<u8> = strokes.iter().flat_map(|&b| [b, b, 0, 0]).collect();
    assert_eq!(k.presses.iter().copied().collect::<Vec<u8>>(), tape);
    assert_eq!((k.row, k.col), (3, 9));
}

#[test]
fn backspace_resets_the_cursor_after_an_answer() {
    let mut k = Keypad::new();
    k.key(b'?', 0);
    assert_eq!((k.row, k.col), (3, 9));
    let n = k.presses.len();
    assert!(!k.key(0x7F, 1));
    assert_eq!((k.row, k.col, k.presses.len()), (3, 9, n + 4));
    assert!(!k.key(0x08, 2));
    assert_eq!((k.row, k.col), (0, 0));
    assert_eq!(k.presses[n], BTN_B);
}

#[test]
fn quitting_and_piped_sessions() {
    let mut k = Keypad::new();
    assert!(k.key(0x03, 0) && k.key(0x1B, 0));
    // keys behind a quit are still taken
    assert!(k.keys(&[0x03, b'\r'], 0));
    assert_eq!(k.presses.len(), 4);
    assert!(!k.is_over(false, true, 2, 0));
    for _ in 0..4 {
        k.next_buttons();
    }
    assert!(k.is_over(false, true, 2, 0));
    assert!(!k.is_over(true, true, 2, 0) && !k.is_over(false, false, 2, 0));
    assert!(!k.is_over(false, true, 1, 20_000) && k.is_over(false, true, 1, 20_001));
}

#[test]
fn the_screen_in_a_box() {
    let text = draw_box("HI\n\n");
    let lines: Vec<&str> = text.lines().collect();
    assert_eq!(lines.len(), 4);
    assert_eq!(lines[0], format!("┌{}┐", "─".repeat(32)));
    assert_eq!(lines[1], format!("│HI{}│", " ".repeat(30)));
    assert_eq!(lines[2], format!("│{}│", " ".repeat(32)));
    assert_eq!(lines[3], format!("└{}┘", "─".repeat(32)));
    assert!(hint(0).starts_with("type your question"));
    assert_eq!(hint(1), "the 6502 is generating...");
    assert!(hint(2).starts_with("done") && hint(9).starts_with("done"));
}
