//! The always-answer pipeline: normalize, parse the typed characters, classify,
//! route to a seed, generate, and reseed if the answer is too short.

use vstd::prelude::*;
use crate::model::{
    bi_rec_of, global_rec_of, is_end_of, law_model_roundtrip, model_bytes, parse_of, qtype_bias_of,
    qtype_rec_of, storable, topic_bias_of, topic_rec_of, tri_rec_of, Model, ModelView, RouteRow,
    ATTR_QTYPE, ATTR_TOPIC, BI_LEN, CLS_IS_END, CLS_LEN, CLS_QGROUP, CLS_TGROUP, LEN_BONUS, L_BI,
    L_GLOBAL, L_NEURAL, L_QTYPE, L_TOPIC, L_TRI, MIN_ANSWER_WORDS, MIN_WORDS_BEFORE_STOP, NO_WORD,
    REP_PEN, REP_WINDOW, R_EMERGENCY, R_EXACT, R_FALLBACK, R_QTYPE, R_QT_TOPIC, R_TOPIC, SOFT_LEN,
    TONE_EMPTY, TONE_GREETING, TONE_NONSENSE, TONE_NORMAL, TONE_TECHNICAL, TOP_K, TRI_LEN, WILDCARD,
    WORD_BUDGET,
};
use crate::neural::{forward_of, neural_sound};
use crate::parse::{
    first_qgroup, known_of, last_tgroup, lemma_known_range, parse_typed, parsed, typed_words,
};
use crate::text::{
    chars_from_ids, law_case_ignored, law_normalize_idempotent, normalize_chars, text_of, typed_of,
    uppered,
};
use crate::vocab::{is_punct, is_punct_text, MAX_WORDS};

verus! {

// ---------------------------------------------------------------------------
// Models that can answer
// ---------------------------------------------------------------------------

/// A context that generation can start from: the second word is a word, the
/// first may be missing.
pub open spec fn seed_ok(m: ModelView, seed: (u8, u8)) -> bool {
    (seed.0 == NO_WORD || seed.0 < m.words.len()) && seed.1 < m.words.len()
}

/// The tables and the network go with the vocabulary.
pub open spec fn tables_fit(m: ModelView) -> bool {
    &&& m.tri.len() == TRI_LEN
    &&& m.bi.len() == BI_LEN
    &&& m.cls.len() == CLS_LEN
    &&& m.attr.len() == 256
    &&& m.words.len() <= MAX_WORDS
    &&& neural_sound(m.neural)
    &&& m.neural.v == m.words.len()
}

/// Topic groups with a page and a record in the classifier bank.
pub open spec fn topic_ok(topic: Option<u8>) -> bool {
    topic matches Some(t) ==> t <= 31
}

/// Question-type groups with a page and a record in the classifier bank.
pub open spec fn qtype_ok(qtype: Option<u8>) -> bool {
    qtype matches Some(q) ==> q <= 15
}

/// A model that can answer: tables that fit, seeds that are words, and groups
/// that lie in the classifier bank.
pub open spec fn model_sound(m: ModelView) -> bool {
    &&& tables_fit(m)
    &&& m.qmark_id < m.words.len()
    &&& forall|i: int|
        0 <= i < m.routes.len() ==> seed_ok(
            m,
            ((#[trigger] m.routes[i]).seed1, m.routes[i].seed2),
        )
    &&& forall|w: int| 0 <= w < m.words.len() ==> #[trigger] m.cls[CLS_TGROUP + w] <= 32
    &&& forall|w: int| 0 <= w < m.words.len() ==> #[trigger] m.cls[CLS_QGROUP + w] <= 16
}

impl Model {
    /// Whether the model can answer.
    pub fn is_sound(&self) -> (ok: bool)
        ensures
            ok == model_sound(self@),
    {
        let v: usize = self.vocab.words.len();
        let n = &self.neural;
        if self.tri.len() != TRI_LEN || self.bi.len() != BI_LEN || self.cls.len() != CLS_LEN || v
            > MAX_WORDS {
            return false;
        }
        if n.v != v || n.emb.len() != v * 8 || n.w1.len() != 256 || n.b1.len() != 16 || n.w2.len()
            != v * 16 || n.b2.len() != v || n.sh_h >= 32 || n.sh_out >= 32 {
            return false;
        }
        if self.qmark_id as usize >= v {
            return false;
        }
        let mut i: usize = 0;
        while i < self.routes.len()
            invariant
                i <= self.routes.len(),
                v == self@.words.len(),
                forall|k: int|
                    0 <= k < i ==> seed_ok(
                        self@,
                        ((#[trigger] self@.routes[k]).seed1, self@.routes[k].seed2),
                    ),
            decreases self.routes.len() - i,
        {
            let r = &self.routes[i];
            if (r.seed1 != NO_WORD && r.seed1 as usize >= v) || r.seed2 as usize >= v {
                assert(!seed_ok(
                    self@,
                    (self@.routes[i as int].seed1, self@.routes[i as int].seed2),
                ));
                return false;
            }
            i = i + 1;
        }
        let mut w: usize = 0;
        while w < v
            invariant
                w <= v <= MAX_WORDS,
                v == self@.words.len(),
                self@.cls.len() == CLS_LEN,
                forall|k: int| 0 <= k < w ==> #[trigger] self@.cls[CLS_TGROUP + k] <= 32,
                forall|k: int| 0 <= k < w ==> #[trigger] self@.cls[CLS_QGROUP + k] <= 16,
            decreases v - w,
        {
            if self.cls[CLS_TGROUP + w] > 32 || self.cls[CLS_QGROUP + w] > 16 {
                assert(self@.cls[CLS_TGROUP + w] > 32 || self@.cls[CLS_QGROUP + w] > 16);
                return false;
            }
            w = w + 1;
        }
        true
    }
}

// ---------------------------------------------------------------------------
// Seeds
// ---------------------------------------------------------------------------

/// The first known word with an attribute bit.
pub open spec fn first_with(attr: Seq<u8>, known: Seq<u8>, bit: u8) -> Option<u8>
    decreases known.len(),
{
    if known.len() == 0 {
        None
    } else {
        match first_with(attr, known.drop_last(), bit) {
            Some(w) => Some(w),
            None => if attr[known.last() as int] & bit != 0 {
                Some(known.last())
            } else {
                None
            },
        }
    }
}

/// The last known word with an attribute bit.
pub open spec fn last_with(attr: Seq<u8>, known: Seq<u8>, bit: u8) -> Option<u8>
    decreases known.len(),
{
    if known.len() == 0 {
        None
    } else if attr[known.last() as int] & bit != 0 {
        Some(known.last())
    } else {
        last_with(attr, known.drop_last(), bit)
    }
}

/// Whether a route row applies: its question type and its topic are wildcards or
/// the question's.
pub open spec fn row_fits(row: RouteRow, qtype_word: Option<u8>, topic_word: Option<u8>) -> bool {
    (row.qtype == WILDCARD || Some(row.qtype) == qtype_word) && (row.topic == WILDCARD || Some(
        row.topic,
    ) == topic_word)
}

/// The first of the first `n` rows that applies.
pub open spec fn first_row(
    routes: Seq<RouteRow>,
    qtype_word: Option<u8>,
    topic_word: Option<u8>,
    n: int,
) -> Option<RouteRow>
    decreases n,
{
    if n <= 0 {
        None
    } else {
        match first_row(routes, qtype_word, topic_word, n - 1) {
            Some(row) => Some(row),
            None => if row_fits(routes[n - 1], qtype_word, topic_word) {
                Some(routes[n - 1])
            } else {
                None
            },
        }
    }
}

/// Whether the last two known words have a trigram record.
pub open spec fn exact_hit(m: ModelView, known: Seq<u8>) -> bool {
    known.len() >= 2 && tri_rec_of(m, known[known.len() - 2], known[known.len() - 1])[0] != NO_WORD
}

/// The seed and the reason for it: the typed context itself, else the first row
/// that applies, else the question mark alone.
pub open spec fn resolved(
    m: ModelView,
    known: Seq<u8>,
    qtype_word: Option<u8>,
    topic_word: Option<u8>,
) -> ((u8, u8), u8) {
    if exact_hit(m, known) {
        ((known[known.len() - 2], known[known.len() - 1]), R_EXACT)
    } else {
        match first_row(m.routes, qtype_word, topic_word, m.routes.len() as int) {
            Some(row) => ((row.seed1, row.seed2), row.level),
            None => ((NO_WORD, m.qmark_id), R_FALLBACK),
        }
    }
}

proof fn lemma_first_row_stays(
    routes: Seq<RouteRow>,
    qtype_word: Option<u8>,
    topic_word: Option<u8>,
    k: int,
    n: int,
)
    requires
        k <= n,
        first_row(routes, qtype_word, topic_word, k) is Some,
    ensures
        first_row(routes, qtype_word, topic_word, n) == first_row(
            routes,
            qtype_word,
            topic_word,
            k,
        ),
    decreases n - k,
{
    if k < n && n > 0 {
        lemma_first_row_stays(routes, qtype_word, topic_word, k, n - 1);
    }
}

/// In a table in priority order, the row that is used has the best level of all
/// rows that apply.
pub proof fn law_best_route(
    routes: Seq<RouteRow>,
    qtype_word: Option<u8>,
    topic_word: Option<u8>,
    n: int,
    i: int,
)
    requires
        forall|a: int, b: int|
            0 <= a <= b < routes.len() ==> (#[trigger] routes[a]).level <= (
            #[trigger] routes[b]).level,
        0 <= i < n <= routes.len(),
        row_fits(routes[i], qtype_word, topic_word),
    ensures
        first_row(routes, qtype_word, topic_word, n) matches Some(row) && row_fits(
            row,
            qtype_word,
            topic_word,
        ) && row.level <= routes[i].level,
    decreases n,
{
    if i < n - 1 {
        law_best_route(routes, qtype_word, topic_word, n - 1, i);
    } else if let Some(row) = first_row(routes, qtype_word, topic_word, n - 1) {
        lemma_first_row_before(routes, qtype_word, topic_word, n - 1);
    }
}

/// A row that is found is one of the rows, and applies.
pub proof fn lemma_first_row_before(
    routes: Seq<RouteRow>,
    qtype_word: Option<u8>,
    topic_word: Option<u8>,
    n: int,
)
    requires
        n <= routes.len(),
    ensures
        first_row(routes, qtype_word, topic_word, n) matches Some(row) ==> row_fits(
            row,
            qtype_word,
            topic_word,
        ) && exists|k: int| 0 <= k < n && #[trigger] routes[k] == row,
    decreases n,
{
    if n > 0 {
        lemma_first_row_before(routes, qtype_word, topic_word, n - 1);
        assert(routes[n - 1] == routes[n - 1]);
    }
}

fn wants(cell: u8, word: Option<u8>) -> (yes: bool)
    ensures
        yes == (cell == WILDCARD || Some(cell) == word),
{
    if cell == WILDCARD {
        true
    } else {
        match word {
            Some(w) => w == cell,
            None => false,
        }
    }
}

/// The seed ladder: exact context, then the route table, then the fallback.
pub fn resolve_seed(
    model: &Model,
    known: &[u8],
    qtype_word: Option<u8>,
    topic_word: Option<u8>,
) -> (out: ((u8, u8), u8))
    requires
        known@.len() >= 2 ==> known@[known@.len() - 2] * 4096 + known@[known@.len() - 1] * 16 + 16
            <= model.tri.len(),
    ensures
        out == resolved(model@, known@, qtype_word, topic_word),
{
    if known.len() >= 2 {
        let a = known[known.len() - 2];
        let b = known[known.len() - 1];
        let rec = model.tri_rec(a, b);
        if rec[0] != NO_WORD {
            return ((a, b), R_EXACT);
        }
    }
    let mut i: usize = 0;
    while i < model.routes.len()
        invariant
            i <= model.routes.len(),
            !exact_hit(model@, known@),
            first_row(model@.routes, qtype_word, topic_word, i as int) is None,
        decreases model.routes.len() - i,
    {
        let row = &model.routes[i];
        if wants(row.qtype, qtype_word) && wants(row.topic, topic_word) {
            proof {
                lemma_first_row_stays(
                    model@.routes,
                    qtype_word,
                    topic_word,
                    i + 1,
                    model@.routes.len() as int,
                );
            }
            return ((row.seed1, row.seed2), row.level);
        }
        i = i + 1;
    }
    ((NO_WORD, model.qmark_id), R_FALLBACK)
}

fn find_first(attr: &[u8; 256], known: &[u8], bit: u8) -> (w: Option<u8>)
    ensures
        w == first_with(attr@, known@, bit),
{
    let mut found: Option<u8> = None;
    let mut i: usize = 0;
    while i < known.len()
        invariant
            i <= known.len(),
            found == first_with(attr@, known@.take(i as int), bit),
        decreases known.len() - i,
    {
        assert(known@.take(i + 1).drop_last() == known@.take(i as int));
        if found.is_none() && attr[known[i] as usize] & bit != 0 {
            found = Some(known[i]);
        }
        i = i + 1;
    }
    assert(known@.take(i as int) == known@);
    found
}

fn find_last(attr: &[u8; 256], known: &[u8], bit: u8) -> (w: Option<u8>)
    ensures
        w == last_with(attr@, known@, bit),
{
    let mut found: Option<u8> = None;
    let mut i: usize = 0;
    while i < known.len()
        invariant
            i <= known.len(),
            found == last_with(attr@, known@.take(i as int), bit),
        decreases known.len() - i,
    {
        assert(known@.take(i + 1).drop_last() == known@.take(i as int));
        if attr[known[i] as usize] & bit != 0 {
            found = Some(known[i]);
        }
        i = i + 1;
    }
    assert(known@.take(i as int) == known@);
    found
}

// ---------------------------------------------------------------------------
// Generation
// ---------------------------------------------------------------------------

/// Whether a word ends a sentence.
pub fn is_sentence_end(model: &Model, id: u8) -> (yes: bool)
    requires
        CLS_IS_END + id < model.cls.len(),
    ensures
        yes == is_end_of(model@, id),
{
    model.is_end_tok(id)
}

/// Whether an id is that of a punctuation word.
pub open spec fn punct_at(words: Seq<Seq<char>>, id: u8) -> bool {
    id < words.len() && is_punct(words[id as int])
}

fn is_punct_word(model: &Model, id: u8) -> (yes: bool)
    ensures
        yes == punct_at(model@.words, id),
{
    let i: usize = id as usize;
    i < model.vocab.words.len() && is_punct_text(model.vocab.words[i].as_str())
}

/// The record that a context generates from, and its level: trigram, bigram,
/// topic, question type, global; the first one that is not empty.
pub open spec fn ladder(
    m: ModelView,
    w1: u8,
    w2: u8,
    topic: Option<u8>,
    qtype: Option<u8>,
) -> (Seq<u8>, u8) {
    if w1 != NO_WORD && tri_rec_of(m, w1, w2)[0] != NO_WORD {
        (tri_rec_of(m, w1, w2), L_TRI)
    } else if bi_rec_of(m, w2)[0] != NO_WORD {
        (bi_rec_of(m, w2), L_BI)
    } else if topic is Some && topic_rec_of(m, topic->Some_0)[0] != NO_WORD {
        (topic_rec_of(m, topic->Some_0), L_TOPIC)
    } else if qtype is Some && qtype_rec_of(m, qtype->Some_0)[0] != NO_WORD {
        (qtype_rec_of(m, qtype->Some_0), L_QTYPE)
    } else {
        (global_rec_of(m), L_GLOBAL)
    }
}

fn ladder_rec<'a>(
    model: &'a Model,
    w1: u8,
    w2: u8,
    topic: Option<u8>,
    qtype: Option<u8>,
) -> (out: (&'a [u8], u8))
    requires
        tables_fit(model@),
        seed_ok(model@, (w1, w2)),
        topic_ok(topic),
        qtype_ok(qtype),
    ensures
        (out.0@, out.1) == ladder(model@, w1, w2, topic, qtype),
{
    if w1 != NO_WORD {
        let r = model.tri_rec(w1, w2);
        if r[0] != NO_WORD {
            return (r, L_TRI);
        }
    }
    let r = model.bi_rec(w2);
    if r[0] != NO_WORD {
        return (r, L_BI);
    }
    if let Some(t) = topic {
        let r = model.topic_rec(t);
        if r[0] != NO_WORD {
            return (r, L_TOPIC);
        }
    }
    if let Some(q) = qtype {
        let r = model.qtype_rec(q);
        if r[0] != NO_WORD {
            return (r, L_QTYPE);
        }
    }
    (model.global_rec(), L_GLOBAL)
}

/// How many pairs a record lists from pair `k` on, counting those before: up to
/// the first padding pair.
pub open spec fn listed(rec: Seq<u8>, k: int) -> int
    decreases TOP_K - k,
{
    if k >= TOP_K || rec[2 * k] == NO_WORD {
        k
    } else {
        listed(rec, k + 1)
    }
}

/// The score that the first `n` pairs of a record give a word; a later pair
/// overrides an earlier one.
pub open spec fn bonus_upto(rec: Seq<u8>, n: int, tok: u8) -> u8
    decreases n,
{
    if n <= 0 {
        0
    } else if rec[2 * (n - 1)] == tok {
        rec[2 * (n - 1) + 1]
    } else {
        bonus_upto(rec, n - 1, tok)
    }
}

/// The record's bonus for a word.
pub open spec fn bonus(rec: Seq<u8>, tok: u8) -> u8 {
    bonus_upto(rec, listed(rec, 0), tok)
}

/// Whether a word is among the last `REP_WINDOW` ones.
pub open spec fn recent(out: Seq<u8>, tok: u8) -> bool {
    exists|i: int| 0 <= i < out.len() && out.len() - REP_WINDOW <= i && #[trigger] out[i] == tok
}

/// Saturating byte addition.
pub open spec fn sat_sum(a: u8, b: u8) -> u8 {
    if a + b > 255 {
        255
    } else {
        (a + b) as u8
    }
}

/// The saturating penalty for a word used recently.
pub open spec fn penalized(s: u8) -> u8 {
    if s < REP_PEN {
        0
    } else {
        (s - REP_PEN) as u8
    }
}

/// The score of a word: network, record, topic, question type, then the bonus
/// for sentence ends in long answers and the penalty for repetition.
pub open spec fn score(
    m: ModelView,
    base: Seq<u8>,
    rec: Seq<u8>,
    topic: Option<u8>,
    qtype: Option<u8>,
    out: Seq<u8>,
    tok: u8,
) -> u8 {
    let s1 = sat_sum(base[tok as int], bonus(rec, tok));
    let s2 = sat_sum(s1, topic_bias_of(m, topic, tok));
    let s3 = sat_sum(s2, qtype_bias_of(m, qtype, tok));
    let s4 = if out.len() + 1 >= SOFT_LEN && is_end_of(m, tok) {
        sat_sum(s3, LEN_BONUS)
    } else {
        s3
    };
    if !punct_at(m.words, tok) && recent(out, tok) {
        penalized(s4)
    } else {
        s4
    }
}

/// The scores of all words in a context.
pub open spec fn scores(
    m: ModelView,
    w1: u8,
    w2: u8,
    topic: Option<u8>,
    qtype: Option<u8>,
    out: Seq<u8>,
) -> Seq<u8> {
    let base = forward_of(m.neural, w1, w2);
    let rec = ladder(m, w1, w2, topic, qtype).0;
    Seq::new(m.words.len(), |t: int| score(m, base, rec, topic, qtype, out, t as u8))
}

/// The first of the highest among the first `n` scores.
pub open spec fn best_upto(s: Seq<u8>, n: int) -> int
    decreases n,
{
    if n <= 1 {
        0
    } else if s[n - 1] > s[best_upto(s, n - 1)] {
        n - 1
    } else {
        best_upto(s, n - 1)
    }
}

/// The next word in a context.
pub open spec fn next_word(
    m: ModelView,
    w1: u8,
    w2: u8,
    topic: Option<u8>,
    qtype: Option<u8>,
    out: Seq<u8>,
) -> u8 {
    best_upto(scores(m, w1, w2, topic, qtype, out), m.words.len() as int) as u8
}

/// Generation from a context, given the words so far and the worst level: it
/// stops at the word budget, and at a sentence end once the answer is long
/// enough.
pub open spec fn generated(
    m: ModelView,
    w1: u8,
    w2: u8,
    topic: Option<u8>,
    qtype: Option<u8>,
    out: Seq<u8>,
    level: u8,
) -> (Seq<u8>, u8)
    decreases WORD_BUDGET - out.len(),
{
    if out.len() >= WORD_BUDGET {
        (out, level)
    } else {
        let tok = next_word(m, w1, w2, topic, qtype, out);
        let here = ladder(m, w1, w2, topic, qtype).1;
        let worst = if here > level {
            here
        } else {
            level
        };
        if out.len() + 1 >= MIN_WORDS_BEFORE_STOP && is_end_of(m, tok) {
            (out.push(tok), worst)
        } else {
            generated(m, w2, tok, topic, qtype, out.push(tok), worst)
        }
    }
}

/// The answer generated from a seed, and the worst level used.
pub open spec fn answer_from(
    m: ModelView,
    seed: (u8, u8),
    topic: Option<u8>,
    qtype: Option<u8>,
) -> (Seq<u8>, u8) {
    generated(m, seed.0, seed.1, topic, qtype, seq![], L_TRI)
}

/// The pick is a highest score, and the first one.
pub proof fn law_first_best(s: Seq<u8>, n: int)
    requires
        1 <= n <= s.len(),
    ensures
        0 <= best_upto(s, n) < n,
        forall|i: int| 0 <= i < n ==> #[trigger] s[i] <= s[best_upto(s, n)],
        forall|i: int| 0 <= i < best_upto(s, n) ==> #[trigger] s[i] < s[best_upto(s, n)],
    decreases n,
{
    if n > 1 {
        law_first_best(s, n - 1);
    }
}

fn fill_bonus(rec: &[u8]) -> (table: [u8; 256])
    requires
        rec@.len() == 16,
    ensures
        forall|tok: u8| table@[tok as int] == #[trigger] bonus(rec@, tok),
{
    let mut table: [u8; 256] = [0;256];
    let mut k: usize = 0;
    while k < TOP_K && rec[2 * k] != NO_WORD
        invariant
            k <= TOP_K,
            rec@.len() == 16,
            listed(rec@, k as int) == listed(rec@, 0),
            forall|tok: u8| table@[tok as int] == #[trigger] bonus_upto(rec@, k as int, tok),
        decreases TOP_K - k,
    {
        let tok = rec[2 * k];
        let ghost before = table@;
        table[tok as usize] = rec[2 * k + 1];
        assert forall|t: u8| table@[t as int] == #[trigger] bonus_upto(rec@, k + 1, t) by {
            assert(before[t as int] == bonus_upto(rec@, k as int, t));
        }
        k = k + 1;
    }
    table
}

fn sat_add(a: u8, b: u8) -> (s: u8)
    ensures
        s == sat_sum(a, b),
{
    if a > 255 - b {
        255
    } else {
        a + b
    }
}

fn used_recently(out: &Vec<u8>, tok: u8) -> (yes: bool)
    ensures
        yes == recent(out@, tok),
{
    let mut i: usize = if out.len() > REP_WINDOW {
        out.len() - REP_WINDOW
    } else {
        0
    };
    while i < out.len()
        invariant
            i <= out.len(),
            out@.len() - REP_WINDOW <= i,
            forall|k: int|
                0 <= k < i && out@.len() - REP_WINDOW <= k ==> #[trigger] out@[k] != tok,
        decreases out.len() - i,
    {
        if out[i] == tok {
            return true;
        }
        i = i + 1;
    }
    false
}

fn score_word(
    model: &Model,
    base: &Vec<u8>,
    table: &[u8; 256],
    topic: Option<u8>,
    qtype: Option<u8>,
    out: &Vec<u8>,
    tok: u8,
    Ghost(rec): Ghost<Seq<u8>>,
) -> (s: u8)
    requires
        tables_fit(model@),
        base@.len() == model@.words.len(),
        tok < model@.words.len(),
        topic_ok(topic),
        qtype_ok(qtype),
        forall|t: u8| table@[t as int] == #[trigger] bonus(rec, t),
        out@.len() < WORD_BUDGET,
    ensures
        s == score(model@, base@, rec, topic, qtype, out@, tok),
{
    assert(table@[tok as int] == bonus(rec, tok));
    let mut s: u8 = sat_add(base[tok as usize], table[tok as usize]);
    s = sat_add(s, model.topic_bias(topic, tok));
    s = sat_add(s, model.qtype_bias(qtype, tok));
    if out.len() + 1 >= SOFT_LEN && model.is_end_tok(tok) {
        s = sat_add(s, LEN_BONUS);
    }
    if !is_punct_word(model, tok) && used_recently(out, tok) {
        s = if s < REP_PEN {
            0
        } else {
            s - REP_PEN
        };
    }
    s
}

fn pick_word(
    model: &Model,
    w1: u8,
    w2: u8,
    topic: Option<u8>,
    qtype: Option<u8>,
    out: &Vec<u8>,
) -> (picked: (u8, u8))
    requires
        tables_fit(model@),
        seed_ok(model@, (w1, w2)),
        topic_ok(topic),
        qtype_ok(qtype),
        out@.len() < WORD_BUDGET,
    ensures
        picked.0 == next_word(model@, w1, w2, topic, qtype, out@),
        picked.0 < model@.words.len(),
        picked.1 == ladder(model@, w1, w2, topic, qtype).1,
{
    let base = model.neural.forward_int(w1, w2);
    let (rec, level) = ladder_rec(model, w1, w2, topic, qtype);
    let table = fill_bonus(rec);
    let ghost all = scores(model@, w1, w2, topic, qtype, out@);
    let ghost list = rec@;
    let n: usize = model.vocab.words.len();
    let mut best: usize = 0;
    let mut best_score: u8 = score_word(model, &base, &table, topic, qtype, out, 0, Ghost(list));
    let mut t: usize = 1;
    while t < n
        invariant
            1 <= t <= n,
            n == model@.words.len(),
            n <= MAX_WORDS,
            tables_fit(model@),
            topic_ok(topic),
            qtype_ok(qtype),
            out@.len() < WORD_BUDGET,
            base@ == forward_of(model@.neural, w1, w2),
            list == ladder(model@, w1, w2, topic, qtype).0,
            forall|t: u8| table@[t as int] == #[trigger] bonus(list, t),
            all == scores(model@, w1, w2, topic, qtype, out@),
            best < t,
            best == best_upto(all, t as int),
            best_score == all[best as int],
        decreases n - t,
    {
        let s = score_word(model, &base, &table, topic, qtype, out, t as u8, Ghost(list));
        if s > best_score {
            best = t;
            best_score = s;
        }
        t = t + 1;
    }
    (best as u8, level)
}

/// Generates an answer: per word, the network scores every word, the ladder
/// record and the conditioning add to it, and the highest score wins.
pub fn gen_from(
    model: &Model,
    seed: (u8, u8),
    topic: Option<u8>,
    qtype: Option<u8>,
) -> (out: (Vec<u8>, u8))
    requires
        tables_fit(model@),
        seed_ok(model@, seed),
        topic_ok(topic),
        qtype_ok(qtype),
    ensures
        (out.0@, out.1) == answer_from(model@, seed, topic, qtype),
{
    let (mut w1, mut w2) = seed;
    let mut out: Vec<u8> = Vec::new();
    let mut level: u8 = L_TRI;
    while out.len() < WORD_BUDGET
        invariant
            tables_fit(model@),
            seed_ok(model@, (w1, w2)),
            topic_ok(topic),
            qtype_ok(qtype),
            out@.len() <= WORD_BUDGET,
            generated(model@, w1, w2, topic, qtype, out@, level) == answer_from(
                model@,
                seed,
                topic,
                qtype,
            ),
        decreases WORD_BUDGET - out.len(),
    {
        let (tok, here) = pick_word(model, w1, w2, topic, qtype, &out);
        if here > level {
            level = here;
        }
        out.push(tok);
        if out.len() >= MIN_WORDS_BEFORE_STOP && model.is_end_tok(tok) {
            return (out, level);
        }
        w1 = w2;
        w2 = tok;
    }
    (out, level)
}

// ---------------------------------------------------------------------------
// The whole pipeline
// ---------------------------------------------------------------------------

/// Everything the pipeline decided, for receipts and parity checks.
#[derive(Debug)]
pub struct Trace {
    /// Normalized character ids (the typing buffer).
    pub typed: Vec<u8>,
    /// What `typed` shows.
    pub normalized_text: String,
    pub known_word_ids: Vec<u8>,
    /// Question-type group.
    pub qtype: Option<u8>,
    /// Topic group.
    pub topic: Option<u8>,
    /// `TONE_*`.
    pub tone: u8,
    pub seed: (u8, u8),
    /// `R_*`.
    pub reason: u8,
    /// Worst ladder level used.
    pub gen_level_max: u8,
    pub words: Vec<u8>,
}

/// The trace as contracts see it.
#[verifier::ext_equal]
pub struct TraceView {
    pub typed: Seq<u8>,
    pub normalized_text: Seq<char>,
    pub known_word_ids: Seq<u8>,
    pub qtype: Option<u8>,
    pub topic: Option<u8>,
    pub tone: u8,
    pub seed: (u8, u8),
    pub reason: u8,
    pub gen_level_max: u8,
    pub words: Seq<u8>,
}

impl View for Trace {
    type V = TraceView;

    open spec fn view(&self) -> TraceView {
        TraceView {
            typed: self.typed@,
            normalized_text: self.normalized_text@,
            known_word_ids: self.known_word_ids@,
            qtype: self.qtype,
            topic: self.topic,
            tone: self.tone,
            seed: self.seed,
            reason: self.reason,
            gen_level_max: self.gen_level_max,
            words: self.words@,
        }
    }
}

/// The answer to what is in the typing buffer.
pub open spec fn answer_typed(m: ModelView, typed: Seq<u8>) -> TraceView {
    let (known, qtype, topic, tone) = parsed(m, typed);
    let qtype_word = first_with(m.attr, known, ATTR_QTYPE);
    let topic_word = last_with(m.attr, known, ATTR_TOPIC);
    let (seed, reason) = resolved(m, known, qtype_word, topic_word);
    let (words, level) = answer_from(m, seed, topic, qtype);
    let (words2, level2) = answer_from(m, m.emergency, topic, qtype);
    let short = words.len() < MIN_ANSWER_WORDS;
    TraceView {
        typed,
        normalized_text: text_of(typed),
        known_word_ids: known,
        qtype,
        topic,
        tone,
        seed,
        reason: if short {
            R_EMERGENCY
        } else {
            reason
        },
        gen_level_max: if short && level2 > level {
            level2
        } else {
            level
        },
        words: if short {
            words2
        } else {
            words
        },
    }
}

/// The answer to a question.
pub open spec fn answer_of(m: ModelView, text: Seq<char>) -> TraceView {
    answer_typed(m, typed_of(text))
}

/// Groups of known words lie in the classifier bank.
proof fn lemma_groups_ok(m: ModelView, known: Seq<u8>)
    requires
        model_sound(m),
        forall|i: int| 0 <= i < known.len() ==> #[trigger] known[i] < m.words.len(),
    ensures
        topic_ok(last_tgroup(m, known)),
        qtype_ok(first_qgroup(m, known)),
    decreases known.len(),
{
    if known.len() > 0 {
        let rest = known.drop_last();
        assert forall|i: int| 0 <= i < rest.len() implies #[trigger] rest[i] < m.words.len() by {
            assert(rest[i] == known[i]);
        }
        lemma_groups_ok(m, rest);
        let w = known[known.len() - 1];
        assert(m.cls[CLS_TGROUP + w as int] <= 32);
        assert(m.cls[CLS_QGROUP + w as int] <= 16);
    }
}

/// What the parser and the seed ladder give in a sound model: known words are
/// words, groups lie in the classifier bank, and the seed can be generated from.
pub proof fn law_seed_ok(m: ModelView, typed: Seq<u8>)
    requires
        model_sound(m),
    ensures
        forall|i: int|
            0 <= i < answer_typed(m, typed).known_word_ids.len() ==> #[trigger] answer_typed(
                m,
                typed,
            ).known_word_ids[i] < m.words.len(),
        topic_ok(answer_typed(m, typed).topic),
        qtype_ok(answer_typed(m, typed).qtype),
        seed_ok(m, answer_typed(m, typed).seed),
{
    let list = typed_words(typed, 0);
    let known = known_of(m.words, list);
    lemma_known_range(m.words, list);
    lemma_groups_ok(m, known);
    lemma_first_row_before(
        m.routes,
        first_with(m.attr, known, ATTR_QTYPE),
        last_with(m.attr, known, ATTR_TOPIC),
        m.routes.len() as int,
    );
}

/// What generation keeps, from any point on.
proof fn lemma_generated(
    m: ModelView,
    w1: u8,
    w2: u8,
    topic: Option<u8>,
    qtype: Option<u8>,
    out: Seq<u8>,
    level: u8,
)
    requires
        1 <= m.words.len() <= 256,
        out.len() <= WORD_BUDGET,
        level <= L_GLOBAL,
        forall|i: int| 0 <= i < out.len() ==> #[trigger] out[i] < m.words.len(),
        forall|i: int|
            MIN_WORDS_BEFORE_STOP - 1 <= i < out.len() ==> !is_end_of(m, #[trigger] out[i]),
    ensures
        ({
            let (words, worst) = generated(m, w1, w2, topic, qtype, out, level);
            &&& MIN_WORDS_BEFORE_STOP <= words.len() <= WORD_BUDGET
            &&& forall|i: int| 0 <= i < words.len() ==> #[trigger] words[i] < m.words.len()
            &&& forall|i: int|
                MIN_WORDS_BEFORE_STOP - 1 <= i < words.len() - 1 ==> !is_end_of(
                    m,
                    #[trigger] words[i],
                )
            &&& words.len() < WORD_BUDGET ==> is_end_of(m, words[words.len() - 1])
            &&& level <= worst <= L_GLOBAL
        }),
    decreases WORD_BUDGET - out.len(),
{
    if out.len() < WORD_BUDGET {
        let tok = next_word(m, w1, w2, topic, qtype, out);
        law_first_best(scores(m, w1, w2, topic, qtype, out), m.words.len() as int);
        assert(tok < m.words.len());
        let here = ladder(m, w1, w2, topic, qtype).1;
        let worst = if here > level {
            here
        } else {
            level
        };
        if !(out.len() + 1 >= MIN_WORDS_BEFORE_STOP && is_end_of(m, tok)) {
            lemma_generated(m, w2, tok, topic, qtype, out.push(tok), worst);
        }
    }
}

/// Every answer has 6 to 32 words, all of the vocabulary. It stops at the first
/// sentence end from the sixth word on, and without one at the word budget.
pub proof fn law_answer_shape(
    m: ModelView,
    seed: (u8, u8),
    topic: Option<u8>,
    qtype: Option<u8>,
)
    requires
        1 <= m.words.len() <= 256,
    ensures
        ({
            let (words, worst) = answer_from(m, seed, topic, qtype);
            &&& MIN_ANSWER_WORDS <= words.len() <= WORD_BUDGET
            &&& forall|i: int| 0 <= i < words.len() ==> #[trigger] words[i] < m.words.len()
            &&& forall|i: int|
                MIN_WORDS_BEFORE_STOP - 1 <= i < words.len() - 1 ==> !is_end_of(
                    m,
                    #[trigger] words[i],
                )
            &&& words.len() < WORD_BUDGET ==> is_end_of(m, words[words.len() - 1])
            &&& worst <= L_GLOBAL
        }),
{
    lemma_generated(m, seed.0, seed.1, topic, qtype, seq![], L_TRI);
}

/// Every question gets an answer: 6 to 32 words of the vocabulary, generated from
/// the seed that the ladder found, for the reason it found; there is never a
/// need to reseed.
pub proof fn law_always_answers(m: ModelView, text: Seq<char>)
    requires
        model_sound(m),
    ensures
        ({
            let t = answer_of(m, text);
            &&& MIN_ANSWER_WORDS <= t.words.len() <= WORD_BUDGET
            &&& forall|i: int| 0 <= i < t.words.len() ==> #[trigger] t.words[i] < m.words.len()
            &&& (t.words, t.gen_level_max) == answer_from(m, t.seed, t.topic, t.qtype)
            &&& (t.seed, t.reason) == resolved(
                m,
                t.known_word_ids,
                first_with(m.attr, t.known_word_ids, ATTR_QTYPE),
                last_with(m.attr, t.known_word_ids, ATTR_TOPIC),
            )
            &&& t.gen_level_max <= L_GLOBAL
        }),
{
    let t = answer_of(m, text);
    law_answer_shape(m, t.seed, t.topic, t.qtype);
}

/// The answer depends only on what the keyboard holds of the question.
pub proof fn law_answer_normalized(m: ModelView, text: Seq<char>)
    ensures
        answer_of(m, text_of(typed_of(text))) == answer_of(m, text),
{
    law_normalize_idempotent(text);
}

/// Letter case does not change the answer.
pub proof fn law_answer_ignores_case(m: ModelView, a: Seq<char>, b: Seq<char>)
    requires
        uppered(a) == uppered(b),
    ensures
        answer_of(m, a) == answer_of(m, b),
{
    law_case_ignored(a, b);
}

/// A stored model answers every question as the model that was stored.
pub proof fn law_stored_model_answers(m: ModelView, text: Seq<char>)
    requires
        storable(m),
    ensures
        parse_of(model_bytes(m)) matches Some(Ok(r)) && answer_of(r, text) == answer_of(m, text),
{
    law_model_roundtrip(m);
}

/// The whole pipeline.
pub fn answer_pipeline(model: &Model, text: &str) -> (trace: Trace)
    requires
        model_sound(model@),
    ensures
        trace@ == answer_of(model@, text@),
{
    let typed = normalize_chars(text);
    proof {
        law_seed_ok(model@, typed@);
    }
    let (known, qtype, topic, tone) = parse_typed(model, &typed);
    let ghost t = answer_typed(model@, typed@);
    assert(known@ == t.known_word_ids);
    assert(known@.len() >= 2 ==> known@[known@.len() - 2] < model@.words.len()
        && known@[known@.len() - 1] < model@.words.len());
    let qtype_word = find_first(&model.attr, &known, ATTR_QTYPE);
    let topic_word = find_last(&model.attr, &known, ATTR_TOPIC);
    let (seed, mut reason) = resolve_seed(model, &known, qtype_word, topic_word);
    let (mut words, mut level) = gen_from(model, seed, topic, qtype);
    proof {
        law_answer_shape(model@, seed, topic, qtype);
    }
    if words.len() < MIN_ANSWER_WORDS {
        let (again, level2) = gen_from(model, model.emergency, topic, qtype);
        words = again;
        if level2 > level {
            level = level2;
        }
        reason = R_EMERGENCY;
    }
    let normalized_text = chars_from_ids(&typed);
    Trace {
        typed,
        normalized_text,
        known_word_ids: known,
        qtype,
        topic,
        tone,
        seed,
        reason,
        gen_level_max: level,
        words,
    }
}

// ---------------------------------------------------------------------------
// Names for receipts
// ---------------------------------------------------------------------------

/// The name of a tone.
pub open spec fn tone_text(t: u8) -> Seq<char> {
    if t == TONE_NORMAL {
        "NORMAL"@
    } else if t == TONE_EMPTY {
        "EMPTY"@
    } else if t == TONE_NONSENSE {
        "NONSENSE"@
    } else if t == TONE_GREETING {
        "GREETING"@
    } else if t == TONE_TECHNICAL {
        "TECHNICAL"@
    } else {
        "?"@
    }
}

/// The name of a ladder level.
pub open spec fn level_text(l: u8) -> Seq<char> {
    if l == L_TRI {
        "TRIGRAM"@
    } else if l == L_BI {
        "BIGRAM"@
    } else if l == L_TOPIC {
        "TOPIC_PRIOR"@
    } else if l == L_QTYPE {
        "QTYPE_PRIOR"@
    } else if l == L_GLOBAL {
        "GLOBAL_PRIOR"@
    } else if l == L_NEURAL {
        "NEURAL"@
    } else {
        "?"@
    }
}

/// The name of a route reason.
pub open spec fn reason_text(r: u8) -> Seq<char> {
    if r == R_EXACT {
        "EXACT"@
    } else if r == R_QT_TOPIC {
        "ROUTED_QTYPE_TOPIC"@
    } else if r == R_TOPIC {
        "ROUTED_TOPIC"@
    } else if r == R_QTYPE {
        "ROUTED_QTYPE"@
    } else if r == R_FALLBACK {
        "FALLBACK"@
    } else if r == R_EMERGENCY {
        "EMERGENCY"@
    } else {
        "?"@
    }
}

pub fn tone_name(t: u8) -> (name: &'static str)
    ensures
        name@ == tone_text(t),
{
    if t == TONE_NORMAL {
        "NORMAL"
    } else if t == TONE_EMPTY {
        "EMPTY"
    } else if t == TONE_NONSENSE {
        "NONSENSE"
    } else if t == TONE_GREETING {
        "GREETING"
    } else if t == TONE_TECHNICAL {
        "TECHNICAL"
    } else {
        "?"
    }
}

pub fn level_name(l: u8) -> (name: &'static str)
    ensures
        name@ == level_text(l),
{
    if l == L_TRI {
        "TRIGRAM"
    } else if l == L_BI {
        "BIGRAM"
    } else if l == L_TOPIC {
        "TOPIC_PRIOR"
    } else if l == L_QTYPE {
        "QTYPE_PRIOR"
    } else if l == L_GLOBAL {
        "GLOBAL_PRIOR"
    } else if l == L_NEURAL {
        "NEURAL"
    } else {
        "?"
    }
}

pub fn reason_name(r: u8) -> (name: &'static str)
    ensures
        name@ == reason_text(r),
{
    if r == R_EXACT {
        "EXACT"
    } else if r == R_QT_TOPIC {
        "ROUTED_QTYPE_TOPIC"
    } else if r == R_TOPIC {
        "ROUTED_TOPIC"
    } else if r == R_QTYPE {
        "ROUTED_QTYPE"
    } else if r == R_FALLBACK {
        "FALLBACK"
    } else if r == R_EMERGENCY {
        "EMERGENCY"
    } else {
        "?"
    }
}

} // verus!
