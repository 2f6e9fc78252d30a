//! The stored model.

use nano_nes_model_builder::neural::NeuralInt;
use nano_nes_model_builder::{
    answer_pipeline, Model, ModelError, RouteRow, WordVocab, BI_LEN, CLS_LEN, HEADER_LEN, MAGIC,
    MODEL_FORMAT_VERSION, R_TOPIC, TOKENIZER_VERSION, TRI_LEN, WILDCARD,
};

fn model() -> Model {
    let words: Vec<String> = vec![".".into(), "?".into(), "HERD".into(), "LLAMA".into()];
    let v = words.len();
    let mut tri = vec![0u8; TRI_LEN];
    let mut bi = vec![0u8; BI_LEN];
    for (i, b) in tri.iter_mut().enumerate() {
        *b = if i % 2 == 0 { 0xFF } else { 0 };
    }
    for (i, b) in bi.iter_mut().enumerate() {
        *b = if i % 2 == 0 { 0xFF } else { 0 };
    }
    bi[3 * 16] = 2;
    bi[3 * 16 + 1] = 63;
    let mut attr = [0u8; 256];
    attr[3] = 2;
    let mut cls = vec![0u8; CLS_LEN];
    cls[0x1B00] = 1;
    cls[0x1C00 + 3] = 1;
    Model {
        vocab_size: v as u8,
        k: 8,
        qmark_id: 1,
        emergency: (3, 1),
        tri,
        bi,
        vocab: WordVocab { words },
        attr,
        routes: vec![RouteRow { level: R_TOPIC, qtype: WILDCARD, topic: 3, seed1: 3, seed2: 1 }],
        cls,
        neural: NeuralInt {
            v,
            emb: (0..v * 8).map(|i| i as i8 - 10).collect(),
            w1: (0..256).map(|i| (i % 256) as u8 as i8).collect(),
            b1: (0..16).map(|i| i * 300 - 2000).collect(),
            w2: (0..v * 16).map(|i| 30 - i as i8).collect(),
            b2: vec![-300, 0, 5, 32000],
            sh_h: 7,
            sh_out: 6,
        },
        topic_names: vec!["CAMELIDS".into(), "\u{e9}t\u{e9}".into()],
        topic_tech: vec![false, true],
        qtype_names: vec!["WHY".into()],
    }
}

#[test]
fn everything_comes_back() {
    let m = model();
    let bytes = m.to_bytes();
    let r = Model::from_bytes(&bytes).unwrap();
    assert_eq!((r.vocab_size, r.k, r.qmark_id, r.emergency), (4, 8, 1, (3, 1)));
    assert_eq!(r.tri, m.tri);
    assert_eq!(r.bi, m.bi);
    assert_eq!(r.vocab.words, m.vocab.words);
    assert_eq!(r.attr, m.attr);
    assert_eq!(r.routes, m.routes);
    assert_eq!(r.cls, m.cls);
    assert_eq!(r.neural.emb, m.neural.emb);
    assert_eq!(r.neural.b2, m.neural.b2);
    assert_eq!((r.neural.v, r.neural.sh_h, r.neural.sh_out), (4, 7, 6));
    assert_eq!(r.topic_names, m.topic_names);
    assert_eq!(r.topic_tech, m.topic_tech);
    assert_eq!(r.qtype_names, m.qtype_names);
    assert_eq!(answer_pipeline(&m, "llama?").words, answer_pipeline(&r, "llama?").words);
    // the bytes of what was read are the bytes it was read from
    assert_eq!(r.to_bytes(), bytes);
}

#[test]
fn header_and_sections() {
    let m = model();
    let b = m.to_bytes();
    assert_eq!(&b[0..4], &MAGIC);
    assert_eq!(&b[4..16], &[5, 4, 8, 0, 1, 32, 6, 3, 1, 0, 0, 0]);
    assert_eq!(&b[16..20], &[0, 0x80, 0x0F, 0]);
    assert_eq!(&b[20..24], &[0x80, 0x0F, 0, 0]);
    // two tables of 248 offsets and 2 + 2 + 5 + 6 bytes of characters
    assert_eq!(&b[24..28], &[0xFF, 0x01, 0, 0]);
    assert_eq!(&b[28..32], &[0, 0, 0, 0]);
    let tail = HEADER_LEN + TRI_LEN + BI_LEN + 511;
    assert_eq!(b[tail + 3], 2);
    assert_eq!(&b[tail + 256..tail + 262], &[1, R_TOPIC, WILDCARD, 3, 3, 1]);
    assert_eq!(m.routes_bytes(), vec![1, R_TOPIC, WILDCARD, 3, 3, 1]);
    let names = tail + 262 + 8192 + 8192;
    assert_eq!(
        &b[names..],
        &[2, 8, b'C', b'A', b'M', b'E', b'L', b'I', b'D', b'S', 0x85, 0xC3, 0xA9, b't', 0xC3, 0xA9, 1, 3, b'W', b'H', b'Y']
    );
}

fn refused(bytes: &[u8]) -> Option<ModelError> {
    match Model::checked_from_bytes(bytes) {
        Some(Err(e)) => Some(e),
        _ => None,
    }
}

#[test]
fn what_is_refused() {
    let good = model().to_bytes();
    assert_eq!(refused(&good[0..32]), Some(ModelError::TooShort));
    assert_eq!(refused(&[]), Some(ModelError::TooShort));
    let mut b = good.clone();
    b[3] = b'4';
    assert_eq!(refused(&b), Some(ModelError::BadMagic));
    let mut b = good.clone();
    b[4] = 4;
    assert_eq!(refused(&b), Some(ModelError::BadVersion));
    let mut b = good.clone();
    b[16] = 1;
    assert_eq!(refused(&b), Some(ModelError::TableSize));
    let mut b = good.clone();
    b[21] = 0;
    assert_eq!(refused(&b), Some(ModelError::TableSize));
    let tail = HEADER_LEN + TRI_LEN + BI_LEN + 511;
    assert_eq!(refused(&good[0..tail + 256]), Some(ModelError::MissingSections));
    assert!(matches!(Model::from_bytes(&good[0..tail + 256]), Err(ModelError::MissingSections)));
}

#[test]
fn what_is_cut_short() {
    let good = model().to_bytes();
    let tail = HEADER_LEN + TRI_LEN + BI_LEN + 511;
    for n in [
        33,
        HEADER_LEN + TRI_LEN,
        tail - 1,
        tail + 257,
        tail + 262 + 8191,
        tail + 262 + 16383,
        good.len() - 1,
        good.len() - 5,
    ] {
        assert!(Model::checked_from_bytes(&good[0..n]).is_none(), "{n}");
    }
    // a word table without room for its offsets
    let mut b = good.clone();
    b[24] = 0;
    assert!(Model::checked_from_bytes(&b).is_none());
    // an offset past the character data
    let mut b = good.clone();
    b[HEADER_LEN + TRI_LEN + BI_LEN] = 200;
    assert!(Model::checked_from_bytes(&b).is_none());
    // what follows the names is ignored
    let mut b = good.clone();
    b.push(77);
    assert!(matches!(Model::checked_from_bytes(&b), Some(Ok(_))));
}

#[test]
fn names_that_are_not_utf8_are_patched() {
    let mut b = model().to_bytes();
    let n = b.len();
    b[n - 2] = 0xFF;
    let r = Model::from_bytes(&b).unwrap();
    assert_eq!(r.qtype_names, vec!["W\u{fffd}Y"]);
}

#[test]
fn accessors_read_the_bank() {
    let mut m = model();
    m.cls[5 * 256 + 3] = 9;
    m.cls[0x1000 + 2 * 256 + 3] = 4;
    m.cls[0x1D00 + 2] = 11;
    m.cls[0x1E00 + 16] = 77;
    m.cls[0x1F00 + 32] = 78;
    m.cls[0x1FC0] = 79;
    assert_eq!(m.topic_bias(Some(5), 3), 9);
    assert_eq!(m.topic_bias(None, 3), 0);
    assert_eq!(m.qtype_bias(Some(2), 3), 4);
    assert_eq!(m.qtype_bias(None, 3), 0);
    assert!(m.is_end_tok(0) && !m.is_end_tok(1));
    assert_eq!((m.tgroup(3), m.tgroup(2)), (Some(0), None));
    assert_eq!((m.qgroup(2), m.qgroup(3)), (Some(10), None));
    assert_eq!((m.topic_rec(1)[0], m.qtype_rec(2)[0], m.global_rec()[0]), (77, 78, 79));
    assert_eq!(m.bi_rec(3)[0..2], [2, 63]);
    m.tri[2 * 4096 + 3 * 16 + 1] = 5;
    assert_eq!(m.tri_rec(2, 3)[0..2], [0xFF, 5]);
}

#[test]
fn unsound_models_are_noticed() {
    assert!(model().is_sound());
    let mut m = model();
    m.qmark_id = 4;
    assert!(!m.is_sound());
    let mut m = model();
    m.tri.pop();
    assert!(!m.is_sound());
    let mut m = model();
    m.neural.sh_h = 32;
    assert!(!m.is_sound());
    let mut m = model();
    m.routes[0].seed1 = 4;
    assert!(!m.is_sound());
    let mut m = model();
    m.routes[0].seed1 = 0xFF;
    assert!(m.is_sound());
    let mut m = model();
    m.cls[0x1C00 + 1] = 33;
    assert!(!m.is_sound());
    let mut m = model();
    m.cls[0x1D00 + 1] = 17;
    assert!(!m.is_sound());
}

#[test]
fn format_names() {
    assert_eq!(TOKENIZER_VERSION, "v4-stem1");
    assert_eq!(MODEL_FORMAT_VERSION, "NNW5-neural1");
}
