//! The integer network.

use nano_nes_model_builder::neural::{Lcg, NeuralInt, LCG_SEED};

/// Two words; hidden unit 0 sums the first input of each word, unit 1 is the
/// negative of it; word 0 listens to unit 0, word 1 to unit 1.
fn net() -> NeuralInt {
    let mut emb = vec![0i8; 16];
    emb[0] = 100;
    emb[8] = -50;
    let mut w1 = vec![0i8; 256];
    w1[0] = 10;
    w1[8] = 20;
    w1[16] = -10;
    w1[24] = -20;
    let mut b1 = vec![0i16; 16];
    b1[0] = 7;
    b1[1] = -3;
    let mut w2 = vec![0i8; 32];
    w2[0] = 3;
    w2[17] = 5;
    NeuralInt { v: 2, emb, w1, b1, w2, b2: vec![-100, 40], sh_h: 3, sh_out: 4 }
}

#[test]
fn forward_pass_by_hand() {
    let n = net();
    // context (0, 0): unit 0 = 7 + 1000 + 2000 = 3007, unit 1 = -3003
    assert_eq!(n.hidden_acc(0, 0, 0), 3007);
    assert_eq!(n.hidden_acc(0, 0, 1), -3003);
    let h = n.hidden(0, 0);
    // 3007 >> 3 = 375, capped at 255; the negative unit is 0
    assert_eq!((h[0], h[1], h[2]), (255, 0, 0));
    assert_eq!(n.logit_acc(0, &h), 665);
    assert_eq!(n.logit_acc(1, &h), 40);
    // 665 >> 4 = 41; 40 >> 4 = 2
    assert_eq!(n.forward_int(0, 0), vec![41, 2]);
    // context (none, 1): unit 0 = 7 - 1000, unit 1 = -3 + 1000 = 997 >> 3 = 124
    assert_eq!(n.hidden(0xFF, 1)[1], 124);
    // word 0: -100 gives 0; word 1: 40 + 620 = 660 >> 4 = 41
    assert_eq!(n.forward_int(0xFF, 1), vec![0, 41]);
}

#[test]
fn base_scores_are_capped() {
    let mut n = net();
    n.sh_out = 0;
    assert_eq!(n.forward_int(0, 0), vec![48, 40]);
}

#[test]
fn calibration_finds_the_least_shift() {
    let mut n = net();
    let contexts = [(0u8, 0u8, 0u8), (0xFF, 1, 0)];
    // largest hidden accumulator 3007: 3007 >> 3 = 375, >> 4 = 187
    n.sh_h = n.calibrate_hidden(&contexts);
    assert_eq!(n.sh_h, 4);
    // with 187 and 62 the logits are 461 and 350: 461 >> 3 = 57, >> 4 = 28
    n.sh_out = n.calibrate_out(&contexts);
    assert_eq!(n.sh_out, 4);
    assert_eq!(n.hidden(0, 0)[0], 187);
    assert_eq!(n.forward_int(0, 0)[0], 28);
    // nothing to calibrate on: no shift
    assert_eq!(n.calibrate_hidden(&[]), 0);
    assert_eq!(n.calibrate_out(&[]), 0);
}

#[test]
fn bank_image_layout_and_roundtrip() {
    let n = net();
    let b = n.bank_image();
    assert_eq!(b.len(), 8192);
    assert_eq!((b[0], b[8]), (100, 206));
    assert_eq!((b[0x800], b[0x810], b[0x818]), (10, 246, 236));
    assert_eq!((b[0x900], b[0x901], b[0x902], b[0x903]), (7, 0, 0xFD, 0xFF));
    assert_eq!((b[0xA00], b[0xA01], b[0xA02], b[0xA03]), (156, 255, 40, 0));
    assert_eq!((b[0xC00], b[0xC11]), (3, 5));
    assert_eq!((b[0x1FF0], b[0x1FF1], b[0x1FF2]), (3, 4, 2));
    let m = NeuralInt::from_bank(&b, 2);
    assert_eq!(m.emb, n.emb);
    assert_eq!(m.w1, n.w1);
    assert_eq!(m.b1, n.b1);
    assert_eq!(m.w2, n.w2);
    assert_eq!(m.b2, n.b2);
    assert_eq!((m.v, m.sh_h, m.sh_out), (2, 3, 4));
}

#[test]
fn extreme_weights_fit_24_bits() {
    let n = NeuralInt {
        v: 1,
        emb: vec![-128; 8],
        w1: vec![-128; 256],
        b1: vec![i16::MAX; 16],
        w2: vec![-128; 16],
        b2: vec![i16::MIN; 1],
        sh_h: 0,
        sh_out: 0,
    };
    assert_eq!(n.hidden_acc(0, 0, 0), 294_911);
    assert_eq!(n.logit_acc(0, &[255; 16]), -555_008);
}

#[test]
fn initial_weights_are_reproducible() {
    let mut g = Lcg::new();
    assert_eq!(g.state, LCG_SEED);
    assert_eq!(g.next_bits(), 1875219937);
    assert_eq!(g.state, 0xDF8B2BC2C7C9C3F8);
    assert_eq!(g.next_bits(), 843835270);
    assert_eq!(g.next_bits(), 1106674914);
}
