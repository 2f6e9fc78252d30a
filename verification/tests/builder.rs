//! Plans: tables, routes, classifier bank, and everything that is refused.

use nano_nes_model_builder::neural::NeuralInt;
use nano_nes_model_builder::{
    build_model, is_countable, plan_model, Fault, ModelPlan, ATTR_QTYPE, ATTR_TOPIC, CLS_GLOBAL_REC,
    CLS_IS_END, CLS_QGROUP, CLS_QTYPE_BIAS, CLS_QTYPE_RECS, CLS_TGROUP, CLS_TONE, CLS_TOPIC_BIAS,
    CLS_TOPIC_RECS, NO_WORD, R_QTYPE, R_QT_TOPIC, R_TOPIC, TONE_GREETING, TONE_TECHNICAL, WILDCARD,
};

const CORPUS: &str = "Why hum? We hum. Hi! Why hum? It calms. Hi!";
// sorted: ! . ? CALMS HI HUM IT WE WHY
const EMERGENCY: &str = "EMERGENCY -> WHY HUM\n";

fn plan(corpus: &str, routes: &str, topics: &str) -> ModelPlan {
    plan_model(corpus, routes, topics).unwrap()
}

fn fault(corpus: &str, routes: &str, topics: &str) -> Fault<String> {
    match plan_model(corpus, routes, topics) {
        Ok(_) => panic!("accepted"),
        Err(f) => f,
    }
}

#[test]
fn vocabulary_and_tables() {
    let p = plan(CORPUS, EMERGENCY, "");
    assert_eq!(p.vocab.words, vec!["!", ".", "?", "CALMS", "HI", "HUM", "IT", "WE", "WHY"]);
    assert_eq!(p.qmark_id, 2);
    assert_eq!(p.emergency, (8, 5));
    // WHY HUM -> ? twice
    let at = 8 * 4096 + 5 * 16;
    assert_eq!(&p.tri[at..at + 4], &[2, 63, NO_WORD, 0]);
    // HUM ? -> WE and IT once each, in id order
    let at = 5 * 4096 + 2 * 16;
    assert_eq!(&p.tri[at..at + 6], &[6, 63, 7, 63, NO_WORD, 0]);
    // HUM -> ? twice, . once
    assert_eq!(&p.bi[5 * 16..5 * 16 + 6], &[2, 63, 1, 32, NO_WORD, 0]);
    // ids past the vocabulary have empty rows
    assert_eq!(&p.bi[100 * 16..100 * 16 + 2], &[NO_WORD, 0]);
    assert_eq!(p.tri.len(), 1_015_808);
    assert_eq!(p.bi.len(), 3968);
    // 16 tokens make 14 runs of three; WHY HUM, HUM ? and . HI recur
    assert_eq!(p.n_tri, 11);
    assert_eq!(p.n_bi, 9);
    // 14 runs of three and 15 of two
    let n = p.examples.len();
    assert_eq!(p.examples[0], (8, 5, 2));
    assert_eq!(p.examples[n - 1], (NO_WORD, 4, 0));
    assert_eq!(n, 29);
}

#[test]
fn routes_come_in_priority_order() {
    let src = "# routes\nWHY * -> we hum\n\n  * HUM -> it calms # note\nwhy hum -> hi !\nEMERGENCY -> why hum\n";
    let p = plan(CORPUS, src, "");
    let rows: Vec<(u8, u8, u8, u8, u8)> =
        p.routes.iter().map(|r| (r.level, r.qtype, r.topic, r.seed1, r.seed2)).collect();
    assert_eq!(
        rows,
        vec![
            (R_QT_TOPIC, 8, 5, 4, 0),
            (R_TOPIC, WILDCARD, 5, 6, 3),
            (R_QTYPE, 8, WILDCARD, 7, 5),
        ]
    );
    assert_eq!(p.attr[8], ATTR_QTYPE);
    assert_eq!(p.attr[5], ATTR_TOPIC);
    assert_eq!(p.attr[0], 0);
    assert_eq!(p.attr[WILDCARD as usize], 0);
}

#[test]
fn a_word_can_be_question_type_and_topic() {
    let p = plan(CORPUS, "HUM HUM -> HI !\nEMERGENCY -> WHY HUM\n", "");
    assert_eq!(p.attr[5], ATTR_QTYPE | ATTR_TOPIC);
}

#[test]
fn the_last_emergency_line_counts() {
    let p = plan(CORPUS, "EMERGENCY -> HI !\nEMERGENCY -> hum ?\n", "");
    assert_eq!(p.emergency, (5, 2));
}

#[test]
fn classifier_bank() {
    let p = plan(CORPUS, EMERGENCY, "TOPIC GREETING: HI\nTOPIC SOUND TECH: HUM IT\n");
    let c = &p.cls;
    assert_eq!(c.len(), 8192);
    assert_eq!(p.topic_names, vec!["GREETING", "SOUND"]);
    assert_eq!(p.topic_tech, vec![false, true]);
    assert_eq!(p.qtype_names[0], "WHY");
    assert_eq!(p.qtype_names.len(), 11);
    // group maps
    assert_eq!((c[CLS_TGROUP + 4], c[CLS_TGROUP + 5], c[CLS_TGROUP + 6], c[CLS_TGROUP + 7]), (1, 2, 2, 0));
    assert_eq!((c[CLS_QGROUP + 8], c[CLS_QGROUP + 5]), (1, 0));
    // sentence ends
    assert_eq!(&c[CLS_IS_END..CLS_IS_END + 4], &[1, 1, 1, 0]);
    // topic 0: the two sentences HI !
    assert_eq!((c[CLS_TOPIC_BIAS + 4], c[CLS_TOPIC_BIAS], c[CLS_TOPIC_BIAS + 5]), (15, 15, 0));
    assert_eq!(&c[CLS_TOPIC_RECS..CLS_TOPIC_RECS + 6], &[4, 63, 0, 63, NO_WORD, 0]);
    // topic 1: WHY HUM ? twice, WE HUM ., IT CALMS . : HUM leads with 3
    let t1 = CLS_TOPIC_BIAS + 256;
    assert_eq!((c[t1 + 5], c[t1 + 8], c[t1 + 7], c[t1 + 1], c[t1 + 4]), (15, 10, 5, 10, 0));
    assert_eq!(&c[CLS_TOPIC_RECS + 16..CLS_TOPIC_RECS + 20], &[5, 63, 8, 42]);
    // unused topics: no record, no bias
    assert!(c[CLS_TOPIC_RECS + 32..CLS_QTYPE_RECS].iter().all(|&b| b == 0));
    // question type WHY: answers WE HUM . and IT CALMS .
    let q = CLS_QTYPE_BIAS;
    assert_eq!((c[q + 1], c[q + 7], c[q + 6], c[q + 8]), (15, 8, 8, 0));
    assert_eq!(&c[CLS_QTYPE_RECS..CLS_QTYPE_RECS + 4], &[1, 63, 3, 32]);
    // question type HOW does not occur: an empty record
    assert_eq!(&c[CLS_QTYPE_RECS + 16..CLS_QTYPE_RECS + 18], &[NO_WORD, 0]);
    // global record: HUM 3 times, then the words that occur twice, marks last
    assert_eq!(&c[CLS_GLOBAL_REC..CLS_GLOBAL_REC + 8], &[5, 63, 4, 42, 8, 42, 0, 42]);
    assert_eq!((c[CLS_TONE], c[CLS_TONE + 1], c[CLS_TONE + 2]), (TONE_GREETING, TONE_TECHNICAL, 0));
}

#[test]
fn the_last_topic_group_wins() {
    let p = plan(CORPUS, EMERGENCY, "TOPIC A: HUM\nTOPIC B: HUM\n");
    assert_eq!(p.cls[CLS_TGROUP + 5], 2);
}

#[test]
fn built_models_carry_the_plan() {
    let p = plan(CORPUS, EMERGENCY, "TOPIC GREETING: HI\n");
    let v = p.vocab.words.len();
    let net = NeuralInt {
        v,
        emb: vec![0; v * 8],
        w1: vec![0; 256],
        b1: vec![0; 16],
        w2: vec![0; v * 16],
        b2: vec![0; v],
        sh_h: 0,
        sh_out: 0,
    };
    let (m, n_tri, n_bi) = build_model(p, net);
    assert_eq!((m.vocab_size, m.k, m.qmark_id), (9, 8, 2));
    assert_eq!((n_tri, n_bi), (11, 9));
    assert!(m.is_sound());
    for w in 0..9u8 {
        assert_ne!(m.bi_rec(w)[0], NO_WORD);
    }
    assert_ne!(m.tri_rec(m.emergency.0, m.emergency.1)[0], NO_WORD);
}

#[test]
fn corpus_faults() {
    assert!(matches!(fault("Hi you", EMERGENCY, ""), Fault::CorpusTooSmall));
    let mut many = String::new();
    for i in 0..260 {
        many.push_str(&format!("W{i} "));
    }
    assert!(matches!(fault(&many, EMERGENCY, ""), Fault::TooManyWords(260)));
    match fault("A B ABCDEFGHIJKL ABCDEFGHIJKM A", EMERGENCY, "") {
        Fault::WordTooLong(w) => assert_eq!(w, "ABCDEFGHIJKL"),
        _ => panic!("another fault"),
    }
    assert!(matches!(fault("A B C A", EMERGENCY, ""), Fault::NoQuestionMark));
    match fault("A ? B", EMERGENCY, "") {
        Fault::NoSuccessor(w) => assert_eq!(w, "B"),
        _ => panic!("another fault"),
    }
}

#[test]
fn route_faults() {
    assert!(matches!(fault(CORPUS, "\nWHY HUM\n", ""), Fault::RouteArrow(2)));
    assert!(matches!(fault(CORPUS, "EMERGENCY -> WHY", ""), Fault::EmergencySeeds(1)));
    assert!(matches!(fault(CORPUS, "WHY -> HUM ?", ""), Fault::RouteShape(1)));
    assert!(matches!(fault(CORPUS, "WHY HUM -> HUM", ""), Fault::RouteShape(1)));
    for (src, word) in [
        ("zip HUM -> HUM ?", "zip"),
        ("WHY zap -> HUM ?", "zap"),
        ("WHY HUM -> zup ?", "zup"),
        ("WHY HUM -> HUM zop", "zop"),
        ("EMERGENCY -> zip zap", "zip"),
        ("EMERGENCY -> HUM zap", "zap"),
    ] {
        match fault(CORPUS, src, "") {
            Fault::RouteWord(1, w) => assert_eq!(w, word),
            _ => panic!("another fault"),
        }
    }
    assert!(matches!(fault(CORPUS, "* * -> HUM ?", ""), Fault::DoubleWildcard(1)));
    assert!(matches!(fault(CORPUS, "WHY HUM -> HUM ?", ""), Fault::NoEmergency));
    let mut many = String::from(EMERGENCY);
    for _ in 0..256 {
        many.push_str("WHY HUM -> HUM ?\n");
    }
    assert!(matches!(fault(CORPUS, &many, ""), Fault::TooManyRoutes));
    assert!(matches!(fault(CORPUS, "EMERGENCY -> HUM HUM", ""), Fault::EmergencyMiss));
}

#[test]
fn topic_faults() {
    assert!(matches!(fault(CORPUS, EMERGENCY, "TOPIC"), Fault::TopicPrefix(1)));
    assert!(matches!(fault(CORPUS, EMERGENCY, "# x\nA: HUM"), Fault::TopicPrefix(2)));
    assert!(matches!(fault(CORPUS, EMERGENCY, "TOPIC A HUM"), Fault::TopicColon(1)));
    assert!(matches!(fault(CORPUS, EMERGENCY, "TOPIC : HUM"), Fault::TopicNameless(1)));
    match fault(CORPUS, EMERGENCY, "TOPIC A: HUM hi") {
        Fault::TopicWord(1, w) => assert_eq!(w, "hi"),
        _ => panic!("another fault"),
    }
    let mut many = String::new();
    for i in 0..17 {
        many.push_str(&format!("TOPIC T{i}: HUM\n"));
    }
    assert!(matches!(fault(CORPUS, EMERGENCY, &many), Fault::TooManyTopics));
}

#[test]
fn the_first_fault_is_reported() {
    // the corpus before the routes, the routes before the topics
    assert!(matches!(fault("Hi", "nonsense", "nonsense"), Fault::CorpusTooSmall));
    assert!(matches!(fault(CORPUS, "nonsense", "nonsense"), Fault::RouteArrow(1)));
    assert!(matches!(fault(CORPUS, "EMERGENCY -> HUM HUM", "x"), Fault::TopicPrefix(1)));
}

#[test]
fn equal_files_build_equal_models() {
    let built = || {
        let p = plan(CORPUS, EMERGENCY, "TOPIC GREETING: HI\nTOPIC SOUND: HUM CALMS\n");
        let v = p.vocab.words.len();
        let net = NeuralInt {
            v,
            emb: p.examples.iter().map(|e| e.2 as i8).cycle().take(v * 8).collect(),
            w1: vec![1; 256],
            b1: vec![2; 16],
            w2: vec![3; v * 16],
            b2: vec![4; v],
            sh_h: 1,
            sh_out: 2,
        };
        let (m, n_tri, n_bi) = build_model(p, net);
        (m.to_bytes(), n_tri, n_bi)
    };
    assert_eq!(built(), built());
}

#[test]
fn ordinary_corpora_can_be_counted() {
    assert!(is_countable(""));
    assert!(is_countable(CORPUS));
    assert!(is_countable(&"hum ".repeat(5000)));
}
