//! Models trained from a small corpus, and what they answer.

use nano_nes_model_builder::neural::{Lcg, NeuralInt, BASE_CLAMP, EMB_DIM, HID_DIM, IN_DIM};
use nano_nes_model_builder::{
    answer_pipeline, build_model, char_ids, plan_model, reason_name, stem_lookup, word_ids,
    words_to_text, Model, MIN_ANSWER_WORDS, R_EXACT, R_FALLBACK, R_TOPIC, TONE_EMPTY,
    TONE_NONSENSE, TONE_NORMAL, TONE_TECHNICAL, WORD_BUDGET,
};

const CORPUS: &str = "Why do llamas hum? Humming calms the herd. \
    What is a llama? A llama is a camelid. The herd hums at dawn. \
    Why do llamas hum? Humming calms the herd. Wow? Beep beep, a tiny \
    brain missed that, but the model is still alive.";
const ROUTES: &str =
    "WHY HUM -> HUM ?\n* LLAMA -> LLAMA ?\nWHY * -> HUM ?\nEMERGENCY -> WOW ?\n";
const TOPICS: &str = "TOPIC LLAMA: LLAMA LLAMAS HUM\nTOPIC SELF TECH: MODEL\n";

fn next_f(rng: &mut Lcg) -> f32 {
    (rng.next_bits() as f32 / (1u64 << 31) as f32) - 1.0
}

struct NetF32 {
    v: usize,
    emb: Vec<f32>,
    w1: Vec<f32>,
    b1: Vec<f32>,
    w2: Vec<f32>,
    b2: Vec<f32>,
}

fn train(v: usize, triples: &[(u8, u8, u8)], epochs: usize, lr0: f32) -> NetF32 {
    let mut rng = Lcg::new();
    let r = 0.5;
    let mut net = NetF32 {
        v,
        emb: (0..v * EMB_DIM).map(|_| next_f(&mut rng) * r).collect(),
        w1: (0..HID_DIM * IN_DIM).map(|_| next_f(&mut rng) * r).collect(),
        b1: vec![0.0; HID_DIM],
        w2: (0..v * HID_DIM).map(|_| next_f(&mut rng) * r).collect(),
        b2: vec![0.0; v],
    };
    for ep in 0..epochs {
        let lr = lr0 / (1.0 + ep as f32 / epochs as f32 * 3.0);
        for &(c1, c2, target) in triples {
            let mut x = [0.0f32; IN_DIM];
            if c1 != 0xFF {
                x[..EMB_DIM].copy_from_slice(&net.emb[c1 as usize * EMB_DIM..][..EMB_DIM]);
            }
            x[EMB_DIM..].copy_from_slice(&net.emb[c2 as usize * EMB_DIM..][..EMB_DIM]);
            let mut hpre = [0.0f32; HID_DIM];
            let mut h = [0.0f32; HID_DIM];
            for i in 0..HID_DIM {
                let mut a = net.b1[i];
                for j in 0..IN_DIM {
                    a += net.w1[i * IN_DIM + j] * x[j];
                }
                hpre[i] = a;
                h[i] = a.max(0.0);
            }
            let mut logits = vec![0.0f32; v];
            let mut maxl = f32::NEG_INFINITY;
            for t in 0..v {
                let mut a = net.b2[t];
                for i in 0..HID_DIM {
                    a += net.w2[t * HID_DIM + i] * h[i];
                }
                logits[t] = a;
                maxl = maxl.max(a);
            }
            let mut z = 0.0;
            for t in 0..v {
                logits[t] = (logits[t] - maxl).exp();
                z += logits[t];
            }
            let mut dh = [0.0f32; HID_DIM];
            for t in 0..v {
                let dl = logits[t] / z - if t == target as usize { 1.0 } else { 0.0 };
                for i in 0..HID_DIM {
                    dh[i] += dl * net.w2[t * HID_DIM + i];
                    net.w2[t * HID_DIM + i] -= lr * dl * h[i];
                }
                net.b2[t] -= lr * dl;
            }
            let mut dx = [0.0f32; IN_DIM];
            for i in 0..HID_DIM {
                if hpre[i] <= 0.0 {
                    continue;
                }
                for j in 0..IN_DIM {
                    dx[j] += dh[i] * net.w1[i * IN_DIM + j];
                    net.w1[i * IN_DIM + j] -= lr * dh[i] * x[j];
                }
                net.b1[i] -= lr * dh[i];
            }
            if c1 != 0xFF {
                for j in 0..EMB_DIM {
                    net.emb[c1 as usize * EMB_DIM + j] -= lr * dx[j];
                }
            }
            for j in 0..EMB_DIM {
                net.emb[c2 as usize * EMB_DIM + j] -= lr * dx[EMB_DIM + j];
            }
        }
    }
    net
}

fn quant_i8(v: &[f32]) -> (Vec<i8>, f32) {
    let m = v.iter().fold(0.0f32, |a, &x| a.max(x.abs())).max(1e-6);
    let s = 127.0 / m;
    (v.iter().map(|&x| (x * s).round().clamp(-127.0, 127.0) as i8).collect(), s)
}

fn quantize(net: &NetF32, triples: &[(u8, u8, u8)]) -> NeuralInt {
    let (emb, se) = quant_i8(&net.emb);
    let (w1, s1) = quant_i8(&net.w1);
    let (w2, s2) = quant_i8(&net.w2);
    let scaled = |bs: &[f32], k: f32| -> Vec<i16> {
        bs.iter().map(|&b| (b * k).round().clamp(-32000.0, 32000.0) as i16).collect()
    };
    let b1 = scaled(&net.b1, se * s1);
    let mut q = NeuralInt { v: net.v, emb, w1, b1, w2, b2: vec![0; net.v], sh_h: 0, sh_out: 0 };
    q.sh_h = q.calibrate_hidden(triples);
    let sh_eff = se * s1 / (1 << q.sh_h) as f32;
    q.b2 = net
        .b2
        .iter()
        .map(|&b| (b * sh_eff * s2).round().clamp(-32000.0, 32000.0) as i16)
        .collect();
    q.sh_out = q.calibrate_out(triples);
    q
}

fn model() -> Model {
    let plan = plan_model(CORPUS, ROUTES, TOPICS).unwrap();
    let net = train(plan.vocab.words.len(), &plan.examples, 1200, 0.08);
    let neural = quantize(&net, &plan.examples);
    build_model(plan, neural).0
}

#[test]
fn roundtrip() {
    let m = model();
    let m2 = Model::from_bytes(&m.to_bytes()).unwrap();
    assert_eq!(m.vocab.words, m2.vocab.words);
    assert_eq!(m.routes.len(), m2.routes.len());
    assert_eq!(m.emergency, m2.emergency);
    let a = answer_pipeline(&m, "why do llamas hum?");
    let b = answer_pipeline(&m2, "why do llamas hum?");
    assert_eq!(a.words, b.words);
    assert_eq!(a.reason, b.reason);
}

#[test]
fn exact_route() {
    let m = model();
    let t = answer_pipeline(&m, "WHY DO LLAMAS HUM?");
    assert_eq!(t.reason, R_EXACT);
    assert!(words_to_text(&m.vocab, &t.words).starts_with("HUMMING CALMS THE HERD"));
}

#[test]
fn topic_route() {
    let m = model();
    // "LLAMA JAZZ" -> (LLAMA, JAZZ-unknown): no exact context, topic LLAMA
    let t = answer_pipeline(&m, "LLAMA JAZZ");
    assert_eq!(t.reason, R_TOPIC);
    assert!(t.words.len() >= MIN_ANSWER_WORDS);
}

#[test]
fn unknown_never_blank() {
    let m = model();
    for q in ["", "zzz qqq", "xkcd!", "....", "a", "lol lol lol"] {
        let t = answer_pipeline(&m, q);
        assert!(
            t.words.len() >= MIN_ANSWER_WORDS,
            "{q:?} gave {} words (reason {})",
            t.words.len(),
            reason_name(t.reason)
        );
        assert!(t.words.iter().all(|&w| (w as usize) < m.vocab.words.len()));
    }
}

#[test]
fn a_final_s_is_stripped_from_short_words_too() {
    let m = model();
    assert_eq!(m.vocab.id("A"), Some(3));
    assert_eq!(m.vocab.id("AS"), None);
    assert_eq!(stem_lookup(&m, &char_ids("AS")), Some(3));
    assert_eq!(stem_lookup(&m, &char_ids("S")), None);
    assert_eq!(answer_pipeline(&m, "as").known_word_ids, vec![3]);
}

#[test]
fn shown_answers_read_back() {
    let m = model();
    for q in ["why do llamas hum?", "what is a llama?", "model", "zzz"] {
        let t = answer_pipeline(&m, q);
        assert_eq!(word_ids(&m.vocab, &words_to_text(&m.vocab, &t.words)), t.words);
    }
}

#[test]
fn trained_network_is_calibrated() {
    let m = model();
    assert!(m.is_sound());
    let plan = plan_model(CORPUS, ROUTES, TOPICS).unwrap();
    let mut most = 0u8;
    for &(c1, c2, _) in &plan.examples {
        let base = m.neural.forward_int(c1, c2);
        assert_eq!(base.len(), m.vocab.words.len());
        for b in base {
            assert!(b <= BASE_CLAMP);
            most = most.max(b);
        }
    }
    // the least shift that fits leaves the largest score in the upper half
    assert!(most >= BASE_CLAMP / 2);
}

#[test]
fn answers_stop_at_a_sentence_end_or_at_the_budget() {
    let m = model();
    for q in ["why do llamas hum?", "what is a llama?", "model", "?", "beep", "dawn herd"] {
        let t = answer_pipeline(&m, q);
        let n = t.words.len();
        assert!((MIN_ANSWER_WORDS..=WORD_BUDGET).contains(&n));
        for &w in &t.words[MIN_ANSWER_WORDS - 1..n - 1] {
            assert!(!m.is_end_tok(w));
        }
        assert!(n == WORD_BUDGET || m.is_end_tok(t.words[n - 1]));
    }
}

#[test]
fn the_answer_depends_on_the_typed_form_only() {
    let m = model();
    let a = answer_pipeline(&m, "why\tdo  llamas hum? and so on and on");
    let b = answer_pipeline(&m, "WHY DO  LLAMAS HUM? AND SO ON");
    assert_eq!(a.normalized_text, "WHY DO  LLAMAS HUM? AND ");
    assert_eq!(a.typed, b.typed);
    assert_eq!(a.words, b.words);
    assert_eq!(a.seed, b.seed);
}

#[test]
fn tones_and_reasons() {
    let m = model();
    let t = answer_pipeline(&m, "");
    assert_eq!((t.tone, t.reason), (TONE_EMPTY, R_FALLBACK));
    assert_eq!(t.seed, (0xFF, m.qmark_id));
    let t = answer_pipeline(&m, "zzz qqq");
    assert_eq!((t.tone, t.reason), (TONE_NONSENSE, R_FALLBACK));
    let t = answer_pipeline(&m, "model");
    assert_eq!(t.tone, TONE_TECHNICAL);
    assert_eq!(t.topic, Some(1));
    let t = answer_pipeline(&m, "herd");
    assert_eq!(t.tone, TONE_NORMAL);
}
