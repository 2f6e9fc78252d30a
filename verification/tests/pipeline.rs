//! Parsing, routing and generation on hand-made models.

use nano_nes_model_builder::neural::NeuralInt;
use nano_nes_model_builder::{
    answer_pipeline, char_ids, gen_from, is_sentence_end, level_name, parse_typed, reason_name,
    resolve_seed, split_words, stem_lookup, tone_name, Model, RouteRow, WordVocab, BI_LEN, CLS_LEN,
    L_BI, L_GLOBAL, L_QTYPE, L_TOPIC, L_TRI, NO_WORD, R_EXACT, R_FALLBACK, R_QTYPE, R_QT_TOPIC,
    R_TOPIC, TONE_EMPTY, TONE_GREETING, TONE_NONSENSE, TONE_NORMAL, TONE_TECHNICAL, TRI_LEN,
    WILDCARD, WORD_BUDGET,
};

const WORDS: [&str; 10] =
    [".", "?", "DO", "HUM", "HUMM", "HUMMING", "LLAMA", "MODEL", "THE", "WHY"];

/// Words without any statistics: all records empty, the network silent.
fn model() -> Model {
    let v = WORDS.len();
    let empty = |n: usize| -> Vec<u8> {
        (0..n).map(|i| if i % 2 == 0 { NO_WORD } else { 0 }).collect()
    };
    let mut cls = vec![0u8; CLS_LEN];
    for i in (0x1E00..0x1FD0).step_by(2) {
        cls[i] = NO_WORD;
    }
    cls[0x1B00] = 1;
    cls[0x1B01] = 1;
    cls[0x1C00 + 3] = 1;
    cls[0x1C00 + 6] = 2;
    cls[0x1C00 + 7] = 3;
    cls[0x1D00 + 2] = 8;
    cls[0x1D00 + 9] = 1;
    let mut attr = [0u8; 256];
    attr[9] = 1;
    attr[3] = 2;
    attr[6] = 2;
    Model {
        vocab_size: v as u8,
        k: 8,
        qmark_id: 1,
        emergency: (3, 1),
        tri: empty(TRI_LEN),
        bi: empty(BI_LEN),
        vocab: WordVocab { words: WORDS.iter().map(|w| w.to_string()).collect() },
        attr,
        routes: vec![
            RouteRow { level: R_QT_TOPIC, qtype: 9, topic: 3, seed1: 3, seed2: 1 },
            RouteRow { level: R_TOPIC, qtype: WILDCARD, topic: 6, seed1: 6, seed2: 1 },
            RouteRow { level: R_QTYPE, qtype: 9, topic: WILDCARD, seed1: 9, seed2: 2 },
        ],
        cls,
        neural: NeuralInt {
            v,
            emb: vec![0; v * 8],
            w1: vec![0; 256],
            b1: vec![0; 16],
            w2: vec![0; v * 16],
            b2: vec![0; v],
            sh_h: 0,
            sh_out: 0,
        },
        topic_names: vec!["SOUND".into(), "GREETING".into(), "SELF".into()],
        topic_tech: vec![false, false, true],
        qtype_names: vec!["WHY".into()],
    }
}

fn set(table: &mut [u8], at: usize, pairs: &[(u8, u8)]) {
    for (i, &(t, s)) in pairs.iter().enumerate() {
        table[at + 2 * i] = t;
        table[at + 2 * i + 1] = s;
    }
}

#[test]
fn stems() {
    let m = model();
    let stem = |w: &str| stem_lookup(&m, &char_ids(w));
    assert_eq!(stem("HUM"), Some(3));
    assert_eq!(stem("HUMS"), Some(3));
    // one final S goes, if a word is left
    assert_eq!(stem("DOS"), Some(2));
    assert_eq!(stem("DOSS"), None);
    assert_eq!(stem("OS"), None);
    assert_eq!(stem("S"), None);
    // the longest stem of four letters or more
    assert_eq!(stem("HUMMINGBIRD"), Some(5));
    assert_eq!(stem("HUMMER"), Some(4));
    assert_eq!(stem("HUMAN"), None);
    // longer than any word
    assert_eq!(stem("MODELMODELMODEL"), Some(7));
    assert_eq!(stem("?"), Some(1));
    assert_eq!(stem("!"), None);
    assert_eq!(stem(""), None);
}

#[test]
fn parsing_finds_words_groups_and_tone() {
    let m = model();
    let parse = |q: &str| parse_typed(&m, &char_ids(q));
    assert_eq!(parse("why do llamas hum?"), (vec![9, 2, 6, 3, 1], Some(0), Some(0), TONE_NORMAL));
    // the first question word, the last topic word
    assert_eq!(parse("do why hum llama"), (vec![2, 9, 3, 6], Some(7), Some(1), TONE_GREETING));
    assert_eq!(parse("the-model"), (vec![8, 7], None, Some(2), TONE_TECHNICAL));
    assert_eq!(parse("the"), (vec![8], None, None, TONE_NORMAL));
    assert_eq!(parse("zip zap"), (vec![], None, None, TONE_NONSENSE));
    assert_eq!(parse("!"), (vec![], None, None, TONE_NONSENSE));
    assert_eq!(parse(" - "), (vec![], None, None, TONE_EMPTY));
    assert_eq!(parse(""), (vec![], None, None, TONE_EMPTY));
}

#[test]
fn both_tokenizers_see_the_same_words() {
    let m = model();
    for q in ["why do llamas hum?", "the-model.", "Hum hum, hum?  \tdo", "?why."] {
        let by_words: Vec<u8> = split_words(q)
            .iter()
            .filter_map(|w| stem_lookup(&m, &char_ids(w)))
            .collect();
        assert_eq!(parse_typed(&m, &char_ids(q)).0, by_words, "{q}");
    }
}

#[test]
fn the_seed_ladder() {
    let mut m = model();
    // no trigram record: the routes decide, in order
    assert_eq!(resolve_seed(&m, &[9, 3], Some(9), Some(3)), ((3, 1), R_QT_TOPIC));
    assert_eq!(resolve_seed(&m, &[9, 6], Some(9), Some(6)), ((6, 1), R_TOPIC));
    assert_eq!(resolve_seed(&m, &[9], Some(9), None), ((9, 2), R_QTYPE));
    assert_eq!(resolve_seed(&m, &[8], None, None), ((NO_WORD, 1), R_FALLBACK));
    assert_eq!(resolve_seed(&m, &[], None, None), ((NO_WORD, 1), R_FALLBACK));
    set(&mut m.tri, 9 * 4096 + 3 * 16, &[(1, 63)]);
    assert_eq!(resolve_seed(&m, &[2, 9, 3], Some(9), Some(3)), ((9, 3), R_EXACT));
    // only the last two words count
    assert_eq!(resolve_seed(&m, &[9, 3, 2], Some(9), Some(3)), ((3, 1), R_QT_TOPIC));
}

#[test]
fn generation_without_statistics() {
    let m = model();
    // all scores are 0: word 0 wins, a sentence end, so the answer stops at 6
    assert_eq!(gen_from(&m, (NO_WORD, 1), None, None), (vec![0; 6], L_GLOBAL));
}

#[test]
fn records_lead_and_repetition_is_penalized() {
    let mut m = model();
    // DO is followed by DO (40) or HUM (30); HUM by DO (30)
    set(&mut m.bi, 2 * 16, &[(2, 40), (3, 30)]);
    set(&mut m.bi, 3 * 16, &[(2, 30)]);
    let (words, level) = gen_from(&m, (NO_WORD, 2), None, None);
    assert_eq!(level, L_BI);
    // 1: DO 40 against HUM 30. 2: DO 40 - 24 = 16 against HUM 30.
    // 3: after HUM, DO 30 - 24 = 6, which still beats all zeros.
    assert_eq!(&words[0..4], &[2, 3, 2, 2]);
    // the 14th word: the bonus of 20 for a sentence end beats DO at 16
    assert_eq!(words.len(), 14);
    assert_eq!(words[13], 0);
}

#[test]
fn penalties_saturate_at_zero() {
    let mut m = model();
    // DO leads to HUM (30), HUM back to DO (20)
    set(&mut m.bi, 2 * 16, &[(3, 30)]);
    set(&mut m.bi, 3 * 16, &[(2, 20)]);
    // HUM, DO, then HUM 30 - 24 = 6, and DO 20 - 24 is 0: no better than word 0
    let (words, level) = gen_from(&m, (NO_WORD, 2), None, None);
    assert_eq!(words, vec![3, 2, 3, 0, 0, 0]);
    assert_eq!(level, L_GLOBAL);
    // a score of 24 becomes 0 as well, 25 does not
    set(&mut m.bi, 3 * 16, &[(2, 24)]);
    assert_eq!(gen_from(&m, (NO_WORD, 2), None, None).0[3], 0);
    set(&mut m.bi, 3 * 16, &[(2, 25)]);
    assert_eq!(gen_from(&m, (NO_WORD, 2), None, None).0[3], 2);
}

#[test]
fn answers_end_at_the_budget_without_a_sentence_end() {
    let mut m = model();
    set(&mut m.bi, 8 * 16, &[(8, 63)]);
    let (words, _) = gen_from(&m, (NO_WORD, 8), None, None);
    // 63 - 24 = 39 beats the bonus of 20 throughout
    assert_eq!(words, vec![8; WORD_BUDGET]);
}

#[test]
fn long_answers_favour_sentence_ends() {
    let mut m = model();
    // THE leads to THE with 50, the full stop scores 26 in the same record
    set(&mut m.bi, 8 * 16, &[(8, 50), (0, 25)]);
    let (words, _) = gen_from(&m, (NO_WORD, 8), None, None);
    // 50, then 50 - 24 = 26 against 25, until the 14th word, where 25 + 20 wins
    assert_eq!(words.len(), 14);
    assert!(words[0..13].iter().all(|&w| w == 8));
    assert_eq!(words[13], 0);
    assert!(is_sentence_end(&m, words[13]));
}

#[test]
fn the_ladder_falls_through_its_levels() {
    let mut m = model();
    set(&mut m.cls, 0x1FC0, &[(8, 10)]);
    let first = |m: &Model, seed, topic, qtype| {
        let (words, level) = gen_from(m, seed, topic, qtype);
        (words[0], level)
    };
    assert_eq!(first(&m, (3, 1), Some(0), Some(0)), (8, L_GLOBAL));
    set(&mut m.cls, 0x1F00, &[(7, 10)]);
    assert_eq!(first(&m, (3, 1), Some(0), Some(0)), (7, L_QTYPE));
    set(&mut m.cls, 0x1E00, &[(6, 10)]);
    assert_eq!(first(&m, (3, 1), Some(0), Some(0)), (6, L_TOPIC));
    assert_eq!(first(&m, (3, 1), None, Some(0)).0, 7);
    assert_eq!(first(&m, (3, 1), None, None).0, 8);
    set(&mut m.bi, 16, &[(5, 10)]);
    assert_eq!(first(&m, (3, 1), Some(0), Some(0)).0, 5);
    set(&mut m.tri, 3 * 4096 + 16, &[(4, 10)]);
    assert_eq!(first(&m, (3, 1), Some(0), Some(0)).0, 4);
    assert_eq!(first(&m, (NO_WORD, 1), Some(0), Some(0)).0, 5);
}

#[test]
fn conditioning_adds_up() {
    let mut m = model();
    // the network gives MODEL 5; the record gives LLAMA 9
    m.neural.b2[7] = 5;
    set(&mut m.cls, 0x1FC0, &[(6, 9)]);
    assert_eq!(gen_from(&m, (NO_WORD, 1), Some(2), Some(1)).0[0], 6);
    m.cls[2 * 256 + 7] = 3;
    assert_eq!(gen_from(&m, (NO_WORD, 1), Some(2), Some(1)).0[0], 6);
    m.cls[0x1000 + 256 + 7] = 2;
    assert_eq!(gen_from(&m, (NO_WORD, 1), Some(2), Some(1)).0[0], 7);
    assert_eq!(gen_from(&m, (NO_WORD, 1), None, Some(1)).0[0], 6);
}

#[test]
fn only_trigrams_report_level_zero() {
    let mut m = model();
    for a in 0..10 {
        for b in 0..10 {
            set(&mut m.tri, a * 4096 + b * 16, &[(0, 63)]);
        }
    }
    let t = answer_pipeline(&m, "the model");
    assert_eq!((t.reason, t.seed, t.gen_level_max), (R_EXACT, (8, 7), L_TRI));
    assert_eq!(t.words, vec![0; 6]);
    assert_eq!(t.known_word_ids, vec![8, 7]);
    assert_eq!(t.normalized_text, "THE MODEL");
}

#[test]
fn answers_route_by_the_words_that_hit() {
    let m = model();
    let t = answer_pipeline(&m, "why do you hum");
    assert_eq!((t.reason, t.seed), (R_QT_TOPIC, (3, 1)));
    let t = answer_pipeline(&m, "llama jazz");
    assert_eq!((t.reason, t.seed, t.topic), (R_TOPIC, (6, 1), Some(1)));
    let t = answer_pipeline(&m, "why why");
    assert_eq!((t.reason, t.seed, t.qtype), (R_QTYPE, (9, 2), Some(0)));
    let t = answer_pipeline(&m, "zorp gleep?");
    assert_eq!((t.reason, t.seed), (R_FALLBACK, (NO_WORD, 1)));
    // a stem conditions like its word
    let t = answer_pipeline(&m, "humming");
    assert_eq!(t.known_word_ids, vec![5]);
}

#[test]
fn names_for_receipts() {
    let tones: Vec<&str> = (0..6).map(tone_name).collect();
    assert_eq!(tones, vec!["NORMAL", "EMPTY", "NONSENSE", "GREETING", "TECHNICAL", "?"]);
    let levels: Vec<&str> = (0..7).map(level_name).collect();
    assert_eq!(
        levels,
        vec!["TRIGRAM", "BIGRAM", "TOPIC_PRIOR", "QTYPE_PRIOR", "GLOBAL_PRIOR", "NEURAL", "?"]
    );
    let reasons: Vec<&str> = (0..7).map(reason_name).collect();
    assert_eq!(
        reasons,
        vec!["EXACT", "ROUTED_QTYPE_TOPIC", "ROUTED_TOPIC", "ROUTED_QTYPE", "FALLBACK", "EMERGENCY", "?"]
    );
}
