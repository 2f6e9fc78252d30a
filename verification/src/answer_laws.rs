//! What answers have to satisfy: how words are picked, scored, conditioned and
//! routed, stated over finished answers and over positions.

use vstd::prelude::*;
use crate::model::{is_end_of, ModelView, RouteRow};
use crate::neural::forward_of;
use crate::parse::{
    first_qgroup, first_spelled, is_stem, known_of, last_tgroup, law_tokenizers_agree, longest_stem,
    stem_of, typed_words,
};
use crate::pipeline::{
    answer_from, answer_of, answer_typed, bonus, bonus_upto, first_row, first_with, generated,
    ladder, last_with, law_answer_shape, law_first_best, listed, model_sound, next_word, punct_at,
    recent, resolved, scores,
};
use crate::text::{
    char_id, folded, ids_of, law_ids_roundtrip, lemma_alphabet, lemma_char_id, lemma_folded,
    text_of, tile_char, typed_of, words_of, VOCAB,
};

verus! {

// ---------------------------------------------------------------------------
// Picking words
// ---------------------------------------------------------------------------

/// The words before position `i` of an answer, behind its seed.
pub open spec fn with_seed(seed: (u8, u8), words: Seq<u8>) -> Seq<u8> {
    seq![seed.0, seed.1] + words
}

/// Word `i` of an answer is the first with the highest score in the context of the
/// two words before it.
pub open spec fn picked_at(
    m: ModelView,
    seed: (u8, u8),
    topic: Option<u8>,
    qtype: Option<u8>,
    words: Seq<u8>,
    i: int,
) -> bool {
    let all = with_seed(seed, words);
    let s = scores(m, all[i], all[i + 1], topic, qtype, words.take(i));
    let w = words[i] as int;
    &&& w < s.len()
    &&& forall|t: int| 0 <= t < s.len() ==> #[trigger] s[t] <= s[w]
    &&& forall|t: int| 0 <= t < w ==> #[trigger] s[t] < s[w]
}

/// The ladder level at position `i` of an answer.
pub open spec fn level_at(
    m: ModelView,
    seed: (u8, u8),
    topic: Option<u8>,
    qtype: Option<u8>,
    words: Seq<u8>,
    i: int,
) -> u8 {
    ladder(m, with_seed(seed, words)[i], with_seed(seed, words)[i + 1], topic, qtype).1
}

proof fn lemma_picked(
    m: ModelView,
    seed: (u8, u8),
    w1: u8,
    w2: u8,
    topic: Option<u8>,
    qtype: Option<u8>,
    out: Seq<u8>,
    level: u8,
)
    requires
        1 <= m.words.len() <= 256,
        out.len() <= 32,
        w1 == with_seed(seed, out)[out.len() as int],
        w2 == with_seed(seed, out)[out.len() as int + 1],
    ensures
        ({
            let (words, worst) = generated(m, w1, w2, topic, qtype, out, level);
            &&& out.len() <= words.len() <= 32
            &&& forall|i: int| 0 <= i < out.len() ==> #[trigger] words[i] == out[i]
            &&& forall|i: int|
                out.len() <= i < words.len() ==> #[trigger] picked_at(
                    m,
                    seed,
                    topic,
                    qtype,
                    words,
                    i,
                )
            &&& level <= worst
            &&& forall|i: int|
                out.len() <= i < words.len() ==> #[trigger] level_at(
                    m,
                    seed,
                    topic,
                    qtype,
                    words,
                    i,
                ) <= worst
            &&& worst == level || exists|i: int|
                out.len() <= i < words.len() && #[trigger] level_at(
                    m,
                    seed,
                    topic,
                    qtype,
                    words,
                    i,
                ) == worst
        }),
    decreases 32 - out.len(),
{
    let (words, worst) = generated(m, w1, w2, topic, qtype, out, level);
    if out.len() < 32 {
        let tok = next_word(m, w1, w2, topic, qtype, out);
        let s = scores(m, w1, w2, topic, qtype, out);
        law_first_best(s, m.words.len() as int);
        let n = out.len() as int;
        let out1 = out.push(tok);
        let here = ladder(m, w1, w2, topic, qtype).1;
        let worst1 = if here > level {
            here
        } else {
            level
        };
        assert(with_seed(seed, out1)[out1.len() as int] == w2);
        assert(with_seed(seed, out1)[out1.len() as int + 1] == tok);
        if out.len() + 1 >= 6 && is_end_of(m, tok) {
            assert(words == out1);
        } else {
            lemma_picked(m, seed, w2, tok, topic, qtype, out1, worst1);
        }
        assert(words[n] == out1[n]);
        assert(words.take(n) =~= out) by {
            assert forall|i: int| 0 <= i < n implies words[i] == out[i] by {
                assert(words[i] == out1[i]);
            }
        }
        assert(with_seed(seed, words)[n] == with_seed(seed, out)[n]) by {
            if n >= 2 {
                assert(words[n - 2] == out1[n - 2]);
            }
        }
        assert(with_seed(seed, words)[n + 1] == with_seed(seed, out)[n + 1]) by {
            if n >= 1 {
                assert(words[n - 1] == out1[n - 1]);
            }
        }
        assert(picked_at(m, seed, topic, qtype, words, n));
        assert(level_at(m, seed, topic, qtype, words, n) == here);
        assert forall|i: int| 0 <= i < out.len() implies #[trigger] words[i] == out[i] by {
            assert(words[i] == out1[i]);
        }
    }
}

/// Every word of an answer is the first with the highest score in the context of
/// the two words before it, where the seed stands before the first word. There are
/// 6 to 32 words: the answer ends with the first sentence end from the sixth word
/// on, or with the thirty-second word. The level reported is the worst ladder level
/// of all these contexts.
pub proof fn law_words_picked(
    m: ModelView,
    seed: (u8, u8),
    topic: Option<u8>,
    qtype: Option<u8>,
)
    requires
        1 <= m.words.len() <= 256,
    ensures
        ({
            let (words, worst) = answer_from(m, seed, topic, qtype);
            &&& 6 <= words.len() <= 32
            &&& forall|i: int|
                5 <= i < words.len() - 1 ==> m.cls[0x1B00 + #[trigger] words[i]] == 0
            &&& words.len() < 32 ==> m.cls[0x1B00 + words[words.len() - 1]] != 0
            &&& forall|i: int|
                0 <= i < words.len() ==> #[trigger] picked_at(m, seed, topic, qtype, words, i)
            &&& forall|i: int|
                0 <= i < words.len() ==> #[trigger] level_at(m, seed, topic, qtype, words, i)
                    <= worst
            &&& exists|i: int|
                0 <= i < words.len() && #[trigger] level_at(m, seed, topic, qtype, words, i)
                    == worst
        }),
{
    lemma_picked(m, seed, seed.0, seed.1, topic, qtype, seq![], 0);
    law_answer_shape(m, seed, topic, qtype);
    let (words, worst) = answer_from(m, seed, topic, qtype);
    assert forall|i: int| 5 <= i < words.len() - 1 implies m.cls[0x1B00 + #[trigger] words[i]]
        == 0 by {
        assert(!is_end_of(m, words[i]));
    }
    if worst == 0 {
        assert(level_at(m, seed, topic, qtype, words, 0) == worst);
    }
}

// ---------------------------------------------------------------------------
// Scores
// ---------------------------------------------------------------------------

/// A text is one of the four punctuation words.
pub open spec fn is_punctuation(w: Seq<char>) -> bool {
    w =~= seq!['.'] || w =~= seq![','] || w =~= seq!['!'] || w =~= seq!['?']
}

/// A word is among the last eight of an answer so far.
pub open spec fn used_lately(out: Seq<u8>, tok: u8) -> bool {
    exists|back: int| 1 <= back <= 8 && back <= out.len() && #[trigger] out[out.len() - back] == tok
}

/// The score of a word in a context: the network's base score, the ladder record's
/// bonus and both biases from the classifier bank, 20 more for a sentence end from
/// the fourteenth word on, all capped at 255; and 24 less, but not below zero, for
/// a word other than punctuation among the last eight.
pub proof fn law_score_sum(
    m: ModelView,
    w1: u8,
    w2: u8,
    topic: Option<u8>,
    qtype: Option<u8>,
    out: Seq<u8>,
    tok: u8,
)
    requires
        tok < m.words.len() <= 256,
    ensures
        ({
            let base = forward_of(m.neural, w1, w2)[tok as int];
            let rec = ladder(m, w1, w2, topic, qtype).0;
            let tb: int = match topic {
                Some(t) => m.cls[t * 256 + tok] as int,
                None => 0,
            };
            let qb: int = match qtype {
                Some(q) => m.cls[0x1000 + q * 256 + tok] as int,
                None => 0,
            };
            let end: int = if out.len() >= 13 && m.cls[0x1B00 + tok] != 0 {
                20
            } else {
                0
            };
            let sum = base + bonus(rec, tok) + tb + qb + end;
            let capped = if sum > 255 {
                255
            } else {
                sum
            };
            let s = scores(m, w1, w2, topic, qtype, out);
            &&& s.len() == m.words.len()
            &&& !is_punctuation(m.words[tok as int]) && used_lately(out, tok) ==> s[tok as int] == (
            if capped < 24 {
                0
            } else {
                capped - 24
            })
            &&& is_punctuation(m.words[tok as int]) || !used_lately(out, tok) ==> s[tok as int]
                == capped
        }),
{
    let w = m.words[tok as int];
    assert(is_punctuation(w) == punct_at(m.words, tok));
    if recent(out, tok) {
        let i = choose|i: int| 0 <= i < out.len() && out.len() - 8 <= i && #[trigger] out[i] == tok;
        assert(out[out.len() - (out.len() - i)] == tok);
        assert(used_lately(out, tok));
    }
    if used_lately(out, tok) {
        let back = choose|back: int|
            1 <= back <= 8 && back <= out.len() && #[trigger] out[out.len() - back] == tok;
        assert(out[out.len() - back] == tok);
        assert(recent(out, tok));
    }
}

/// Pair `k` of a record counts: no pair up to it is padding.
pub open spec fn pair_counts(rec: Seq<u8>, k: int) -> bool {
    0 <= k < 8 && forall|j: int| 0 <= j <= k ==> #[trigger] rec[2 * j] != 0xFF
}

proof fn lemma_listed(rec: Seq<u8>, k: int)
    requires
        0 <= k <= 8,
        forall|j: int| 0 <= j < k ==> #[trigger] rec[2 * j] != 0xFF,
    ensures
        k <= listed(rec, k) <= 8,
        forall|j: int| 0 <= j < listed(rec, k) ==> #[trigger] rec[2 * j] != 0xFF,
        listed(rec, k) < 8 ==> rec[2 * listed(rec, k)] == 0xFF,
    decreases 8 - k,
{
    if k < 8 && rec[2 * k] != 0xFF {
        lemma_listed(rec, k + 1);
    }
}

proof fn lemma_bonus_upto(rec: Seq<u8>, n: int, tok: u8)
    requires
        n >= 0,
    ensures
        (forall|k: int| 0 <= k < n ==> #[trigger] rec[2 * k] != tok) ==> bonus_upto(rec, n, tok)
            == 0,
        forall|k: int|
            0 <= k < n && #[trigger] rec[2 * k] == tok && (forall|l: int|
                k < l < n ==> #[trigger] rec[2 * l] != tok) ==> bonus_upto(rec, n, tok) == rec[2 * k
                + 1],
    decreases n,
{
    if n > 0 {
        lemma_bonus_upto(rec, n - 1, tok);
        assert(rec[2 * (n - 1)] == rec[2 * (n - 1)]);
    }
}

/// The bonus of a word is the score of the last pair that lists it before the
/// padding, and 0 for a word that none lists.
pub proof fn law_bonus_of_pair(rec: Seq<u8>, tok: u8)
    ensures
        (forall|k: int| #[trigger] pair_counts(rec, k) ==> rec[2 * k] != tok) ==> bonus(rec, tok)
            == 0,
        forall|k: int|
            #[trigger] pair_counts(rec, k) && rec[2 * k] == tok && (forall|l: int|
                k < l && #[trigger] pair_counts(rec, l) ==> rec[2 * l] != tok) ==> bonus(rec, tok)
                == rec[2 * k + 1],
{
    let n = listed(rec, 0);
    lemma_listed(rec, 0);
    lemma_bonus_upto(rec, n, tok);
    assert forall|k: int| #[trigger] pair_counts(rec, k) <==> 0 <= k < n by {
        if pair_counts(rec, k) && k >= n {
            assert(rec[2 * n] != 0xFF);
        }
    }
    if forall|k: int| #[trigger] pair_counts(rec, k) ==> rec[2 * k] != tok {
        assert forall|k: int| 0 <= k < n implies #[trigger] rec[2 * k] != tok by {
            assert(pair_counts(rec, k));
        }
    }
    assert forall|k: int|
        #[trigger] pair_counts(rec, k) && rec[2 * k] == tok && (forall|l: int|
            k < l && #[trigger] pair_counts(rec, l) ==> rec[2 * l] != tok) implies bonus(rec, tok)
        == rec[2 * k + 1] by {
        assert forall|l: int| k < l < n implies #[trigger] rec[2 * l] != tok by {
            assert(pair_counts(rec, l));
        }
    }
}

/// The ladder: the trigram record of the context unless there is no first word or
/// the record is empty, else the bigram record of the second word, the topic's, the
/// question type's, each unless it is empty, and last the global record.
pub proof fn law_ladder_order(
    m: ModelView,
    w1: u8,
    w2: u8,
    topic: Option<u8>,
    qtype: Option<u8>,
)
    ensures
        ({
            let (rec, level) = ladder(m, w1, w2, topic, qtype);
            let no_tri = w1 == 0xFF || m.tri.subrange(w1 * 4096 + w2 * 16, w1 * 4096 + w2 * 16 + 16)[0]
                == 0xFF;
            let no_bi = m.bi.subrange(w2 * 16, w2 * 16 + 16)[0] == 0xFF;
            let no_topic = topic matches Some(t) ==> m.cls.subrange(
                0x1E00 + t * 16,
                0x1E00 + t * 16 + 16,
            )[0] == 0xFF;
            let no_qtype = qtype matches Some(q) ==> m.cls.subrange(
                0x1F00 + q * 16,
                0x1F00 + q * 16 + 16,
            )[0] == 0xFF;
            &&& level == 0 <==> !no_tri
            &&& level == 1 <==> no_tri && !no_bi
            &&& level == 2 <==> no_tri && no_bi && !no_topic
            &&& level == 3 <==> no_tri && no_bi && no_topic && !no_qtype
            &&& level <= 4
            &&& level == 0 ==> rec == m.tri.subrange(
                w1 * 4096 + w2 * 16,
                w1 * 4096 + w2 * 16 + 16,
            )
            &&& level == 1 ==> rec == m.bi.subrange(w2 * 16, w2 * 16 + 16)
            &&& level == 2 ==> rec == m.cls.subrange(
                0x1E00 + topic->Some_0 * 16,
                0x1E00 + topic->Some_0 * 16 + 16,
            )
            &&& level == 3 ==> rec == m.cls.subrange(
                0x1F00 + qtype->Some_0 * 16,
                0x1F00 + qtype->Some_0 * 16 + 16,
            )
            &&& level == 4 ==> rec == m.cls.subrange(0x1FC0, 0x1FD0)
        }),
{
}

// ---------------------------------------------------------------------------
// Routes
// ---------------------------------------------------------------------------

/// `w` is the first of the known words with a bit, `None` where none has it.
pub open spec fn is_first_with(attr: Seq<u8>, known: Seq<u8>, bit: u8, w: Option<u8>) -> bool {
    match w {
        Some(x) => exists|i: int|
            0 <= i < known.len() && #[trigger] known[i] == x && attr[x as int] & bit != 0
                && forall|j: int| 0 <= j < i ==> attr[#[trigger] known[j] as int] & bit == 0,
        None => forall|i: int|
            0 <= i < known.len() ==> attr[#[trigger] known[i] as int] & bit == 0,
    }
}

/// `w` is the last of the known words with a bit, `None` where none has it.
pub open spec fn is_last_with(attr: Seq<u8>, known: Seq<u8>, bit: u8, w: Option<u8>) -> bool {
    match w {
        Some(x) => exists|i: int|
            0 <= i < known.len() && #[trigger] known[i] == x && attr[x as int] & bit != 0
                && forall|j: int|
                i < j < known.len() ==> attr[#[trigger] known[j] as int] & bit == 0,
        None => forall|i: int|
            0 <= i < known.len() ==> attr[#[trigger] known[i] as int] & bit == 0,
    }
}

/// The first known word with a bit is the first one: no word before it has the bit.
pub proof fn law_first_with(attr: Seq<u8>, known: Seq<u8>, bit: u8)
    ensures
        is_first_with(attr, known, bit, first_with(attr, known, bit)),
    decreases known.len(),
{
    if known.len() > 0 {
        let rest = known.drop_last();
        law_first_with(attr, rest, bit);
        assert forall|i: int| 0 <= i < rest.len() implies #[trigger] rest[i] == known[i] by {}
        match first_with(attr, rest, bit) {
            Some(x) => {
                let i = choose|i: int|
                    0 <= i < rest.len() && #[trigger] rest[i] == x && attr[x as int] & bit != 0
                        && forall|j: int|
                        0 <= j < i ==> attr[#[trigger] rest[j] as int] & bit == 0;
                assert(known[i] == x);
                assert forall|j: int| 0 <= j < i implies attr[#[trigger] known[j] as int] & bit
                    == 0 by {
                    assert(rest[j] == known[j]);
                }
            },
            None => {
                let n = known.len() - 1;
                assert forall|j: int| 0 <= j < n implies attr[#[trigger] known[j] as int] & bit
                    == 0 by {
                    assert(rest[j] == known[j]);
                }
                assert(known[n] == known.last());
            },
        }
    }
}

/// The last known word with a bit is the last one: no word after it has the bit.
pub proof fn law_last_with(attr: Seq<u8>, known: Seq<u8>, bit: u8)
    ensures
        is_last_with(attr, known, bit, last_with(attr, known, bit)),
    decreases known.len(),
{
    if known.len() > 0 {
        let rest = known.drop_last();
        let n = known.len() - 1;
        assert(known[n] == known.last());
        law_last_with(attr, rest, bit);
        if attr[known.last() as int] & bit == 0 {
            match last_with(attr, rest, bit) {
                Some(x) => {
                    let i = choose|i: int|
                        0 <= i < rest.len() && #[trigger] rest[i] == x && attr[x as int] & bit != 0
                            && forall|j: int|
                            i < j < rest.len() ==> attr[#[trigger] rest[j] as int] & bit == 0;
                    assert(known[i] == x);
                    assert forall|j: int| i < j < known.len() implies attr[#[trigger] known[j] as int]
                        & bit == 0 by {
                        assert(j < n ==> rest[j] == known[j]);
                    }
                },
                None => {
                    assert forall|j: int| 0 <= j < known.len() implies attr[#[trigger] known[j] as int]
                        & bit == 0 by {
                        assert(j < n ==> rest[j] == known[j]);
                    }
                },
            }
        }
    }
}

/// A route row applies to a question type and a topic: each of its cells is the
/// wildcard $FE or that very word.
pub open spec fn applies(row: RouteRow, q: Option<u8>, t: Option<u8>) -> bool {
    &&& row.qtype == 0xFE || q == Some(row.qtype)
    &&& row.topic == 0xFE || t == Some(row.topic)
}

proof fn lemma_first_row(routes: Seq<RouteRow>, q: Option<u8>, t: Option<u8>, n: int)
    requires
        0 <= n <= routes.len(),
    ensures
        match first_row(routes, q, t, n) {
            Some(row) => exists|i: int|
                0 <= i < n && #[trigger] routes[i] == row && applies(row, q, t) && forall|j: int|
                    0 <= j < i ==> !applies(#[trigger] routes[j], q, t),
            None => forall|i: int| 0 <= i < n ==> !applies(#[trigger] routes[i], q, t),
        },
    decreases n,
{
    if n > 0 {
        lemma_first_row(routes, q, t, n - 1);
        assert(routes[n - 1] == routes[n - 1]);
    }
}

/// A question goes where its last two known words lead, if these have a trigram
/// record. Else it goes where the first row leads that applies to its first word
/// with the question-type bit and its last word with the topic bit, and with none
/// to the question mark alone. The reason says which.
pub proof fn law_question_routed(m: ModelView, text: Seq<char>)
    requires
        model_sound(m),
    ensures
        ({
            let t = answer_of(m, text);
            let known = t.known_word_ids;
            let n = known.len() as int;
            let hit = n >= 2 && m.tri.subrange(
                known[n - 2] * 4096 + known[n - 1] * 16,
                known[n - 2] * 4096 + known[n - 1] * 16 + 16,
            )[0] != 0xFF;
            &&& hit ==> t.seed == (known[n - 2], known[n - 1]) && t.reason == 0
            &&& !hit ==> exists|q: Option<u8>, w: Option<u8>|
                #![trigger is_first_with(m.attr, known, 1, q), is_last_with(m.attr, known, 2, w)]
                is_first_with(m.attr, known, 1, q) && is_last_with(m.attr, known, 2, w) && {
                    ||| exists|i: int|
                        0 <= i < m.routes.len() && applies(#[trigger] m.routes[i], q, w) && (
                        forall|j: int|
                            0 <= j < i ==> !applies(#[trigger] m.routes[j], q, w)) && t.seed == (
                            m.routes[i].seed1,
                            m.routes[i].seed2,
                        ) && t.reason == m.routes[i].level
                    ||| (forall|i: int|
                        0 <= i < m.routes.len() ==> !applies(#[trigger] m.routes[i], q, w))
                        && t.seed == (0xFFu8, m.qmark_id) && t.reason == 4
                }
        }),
{
    let t = answer_of(m, text);
    let known = t.known_word_ids;
    let q = first_with(m.attr, known, 1);
    let w = last_with(m.attr, known, 2);
    law_first_with(m.attr, known, 1);
    law_last_with(m.attr, known, 2);
    law_answer_shape(m, t.seed, t.topic, t.qtype);
    lemma_first_row(m.routes, q, w, m.routes.len() as int);
    assert((t.seed, t.reason) == resolved(m, known, q, w));
    assert(is_first_with(m.attr, known, 1, q) && is_last_with(m.attr, known, 2, w));
}

// ---------------------------------------------------------------------------
// Words of a question
// ---------------------------------------------------------------------------

/// `w` is the least id of a word with this spelling.
pub open spec fn is_least_spelled(words: Seq<Seq<char>>, c: Seq<u8>, w: u8) -> bool {
    &&& w < words.len()
    &&& ids_of(words[w as int]) == c
    &&& forall|i: int| 0 <= i < w ==> ids_of(#[trigger] words[i]) != c
}

/// Some word has this spelling.
pub open spec fn is_spelled(words: Seq<Seq<char>>, c: Seq<u8>) -> bool {
    exists|i: int| 0 <= i < words.len() && ids_of(#[trigger] words[i]) == c
}

/// A word of at least four characters whose spelling is a proper prefix.
pub open spec fn is_prefix_word(words: Seq<Seq<char>>, c: Seq<u8>, i: int) -> bool {
    &&& 0 <= i < words.len()
    &&& 4 <= ids_of(words[i]).len() < c.len()
    &&& forall|k: int| 0 <= k < ids_of(words[i]).len() ==> #[trigger] ids_of(words[i])[k] == c[k]
}

proof fn lemma_spelled(words: Seq<Seq<char>>, c: Seq<u8>, n: int)
    requires
        0 <= n <= words.len() <= 256,
    ensures
        match first_spelled(words, c, n) {
            Some(w) => w < n && is_least_spelled(words, c, w),
            None => forall|i: int| 0 <= i < n ==> ids_of(#[trigger] words[i]) != c,
        },
    decreases n,
{
    if n > 0 {
        lemma_spelled(words, c, n - 1);
    }
}

proof fn lemma_longest(words: Seq<Seq<char>>, c: Seq<u8>, n: int)
    requires
        0 <= n <= words.len() <= 256,
    ensures
        match longest_stem(words, c, n) {
            Some((l, w)) => w < n && l == ids_of(words[w as int]).len() && is_prefix_word(
                words,
                c,
                w as int,
            ) && forall|i: int|
                0 <= i < n && #[trigger] is_prefix_word(words, c, i) ==> ids_of(words[i]).len() < l
                    || (ids_of(words[i]).len() == l && i >= w),
            None => forall|i: int| 0 <= i < n ==> !#[trigger] is_prefix_word(words, c, i),
        },
    decreases n,
{
    if n > 0 {
        lemma_longest(words, c, n - 1);
        let w = ids_of(words[n - 1]);
        if w.len() <= c.len() {
            assert(c.take(w.len() as int) == w <==> forall|k: int|
                0 <= k < w.len() ==> #[trigger] w[k] == c[k]) by {
                if forall|k: int| 0 <= k < w.len() ==> #[trigger] w[k] == c[k] {
                    assert(c.take(w.len() as int) =~= w);
                }
                if c.take(w.len() as int) == w {
                    assert forall|k: int| 0 <= k < w.len() implies #[trigger] w[k] == c[k] by {
                        assert(c.take(w.len() as int)[k] == c[k]);
                    }
                }
            }
        }
        assert(is_stem(words[n - 1], c) == is_prefix_word(words, c, n - 1));
    }
}

/// The stem matcher: a word typed as it is spelled is that word; else with a final
/// S (tile 19) the word without it; else the longest word of at least four
/// characters that it begins with, the least id among equals.
pub proof fn law_stem_matches(words: Seq<Seq<char>>, c: Seq<u8>)
    requires
        words.len() <= 256,
    ensures
        ({
            let strips = c.len() > 0 && c.last() == 19 && is_spelled(words, c.drop_last());
            &&& is_spelled(words, c) ==> stem_of(words, c) is Some && is_least_spelled(
                words,
                c,
                stem_of(words, c)->Some_0,
            )
            &&& !is_spelled(words, c) && strips ==> stem_of(words, c) is Some
                && is_least_spelled(words, c.drop_last(), stem_of(words, c)->Some_0)
            &&& !is_spelled(words, c) && !strips ==> match stem_of(words, c) {
                Some(w) => is_prefix_word(words, c, w as int) && forall|i: int|
                    #[trigger] is_prefix_word(words, c, i) ==> ids_of(words[i]).len() < ids_of(
                        words[w as int],
                    ).len() || (ids_of(words[i]).len() == ids_of(words[w as int]).len() && i >= w),
                None => forall|i: int| !#[trigger] is_prefix_word(words, c, i),
            }
        }),
{
    let n = words.len() as int;
    lemma_alphabet();
    lemma_char_id('S');
    assert(VOCAB@[19] == tile_char(19));
    assert(tile_char(19) == 'S');
    assert(VOCAB@.contains('S'));
    assert(char_id('S') == Some(19u8)) by {
        let j = char_id('S')->Some_0;
        assert(VOCAB@[j as int] == tile_char(j as int));
    }
    lemma_spelled(words, c, n);
    lemma_spelled(words, c.drop_last(), n);
    lemma_longest(words, c, n);
}

/// The known words of a list are those of its parts in a row: nothing typed before
/// or after changes how a word is understood, and words that match nothing are
/// skipped.
pub proof fn law_known_in_order(words: Seq<Seq<char>>, a: Seq<Seq<u8>>, b: Seq<Seq<u8>>, c: Seq<u8>)
    ensures
        known_of(words, a + b) == known_of(words, a) + known_of(words, b),
        known_of(words, seq![c]) == (match stem_of(words, c) {
            Some(w) => seq![w],
            None => seq![],
        }),
    decreases b.len(),
{
    assert(seq![c].drop_last() =~= seq![]);
    assert(known_of(words, seq![]) =~= seq![]);
    assert(known_of(words, seq![c]) =~= (match stem_of(words, c) {
        Some(w) => seq![w],
        None => seq![],
    }));
    if b.len() == 0 {
        assert(a + b =~= a);
        assert(known_of(words, a) + known_of(words, b) =~= known_of(words, a));
    } else {
        law_known_in_order(words, a, b.drop_last(), c);
        assert((a + b).drop_last() =~= a + b.drop_last());
        assert(known_of(words, a + b) =~= known_of(words, a) + known_of(words, b));
    }
}

/// The group byte of a map, less one, of the first word that has one.
pub open spec fn is_first_group(
    m: ModelView,
    at: int,
    known: Seq<u8>,
    g: Option<u8>,
) -> bool {
    match g {
        Some(x) => exists|i: int|
            0 <= i < known.len() && m.cls[at + #[trigger] known[i]] == x + 1 && forall|j: int|
                0 <= j < i ==> m.cls[at + #[trigger] known[j]] == 0,
        None => forall|i: int| 0 <= i < known.len() ==> m.cls[at + #[trigger] known[i]] == 0,
    }
}

/// The group byte of a map, less one, of the last word that has one.
pub open spec fn is_last_group(
    m: ModelView,
    at: int,
    known: Seq<u8>,
    g: Option<u8>,
) -> bool {
    match g {
        Some(x) => exists|i: int|
            0 <= i < known.len() && m.cls[at + #[trigger] known[i]] == x + 1 && forall|j: int|
                i < j < known.len() ==> m.cls[at + #[trigger] known[j]] == 0,
        None => forall|i: int| 0 <= i < known.len() ==> m.cls[at + #[trigger] known[i]] == 0,
    }
}

proof fn lemma_first_group(m: ModelView, known: Seq<u8>)
    ensures
        is_first_group(m, 0x1D00, known, first_qgroup(m, known)),
    decreases known.len(),
{
    if known.len() > 0 {
        let rest = known.drop_last();
        let n = known.len() - 1;
        lemma_first_group(m, rest);
        assert(known[n] == known.last());
        match first_qgroup(m, rest) {
            Some(x) => {
                let i = choose|i: int|
                    0 <= i < rest.len() && m.cls[0x1D00 + #[trigger] rest[i]] == x + 1
                        && forall|j: int|
                        0 <= j < i ==> m.cls[0x1D00 + #[trigger] rest[j]] == 0;
                assert(known[i] == rest[i]);
                assert forall|j: int| 0 <= j < i implies m.cls[0x1D00 + #[trigger] known[j]]
                    == 0 by {
                    assert(rest[j] == known[j]);
                }
            },
            None => {
                assert forall|j: int| 0 <= j < n implies m.cls[0x1D00 + #[trigger] known[j]]
                    == 0 by {
                    assert(rest[j] == known[j]);
                }
            },
        }
    }
}

proof fn lemma_last_group(m: ModelView, known: Seq<u8>)
    ensures
        is_last_group(m, 0x1C00, known, last_tgroup(m, known)),
    decreases known.len(),
{
    if known.len() > 0 {
        let rest = known.drop_last();
        let n = known.len() - 1;
        lemma_last_group(m, rest);
        assert(known[n] == known.last());
        if m.cls[0x1C00 + known.last()] == 0 {
            match last_tgroup(m, rest) {
                Some(x) => {
                    let i = choose|i: int|
                        0 <= i < rest.len() && m.cls[0x1C00 + #[trigger] rest[i]] == x + 1
                            && forall|j: int|
                            i < j < rest.len() ==> m.cls[0x1C00 + #[trigger] rest[j]] == 0;
                    assert(known[i] == rest[i]);
                    assert forall|j: int|
                        i < j < known.len() implies m.cls[0x1C00 + #[trigger] known[j]] == 0 by {
                        assert(j < n ==> rest[j] == known[j]);
                    }
                },
                None => {
                    assert forall|j: int|
                        0 <= j < known.len() implies m.cls[0x1C00 + #[trigger] known[j]] == 0 by {
                        assert(j < n ==> rest[j] == known[j]);
                    }
                },
            }
        }
    }
}

/// Tiles that belong to some word: letters, digits, the apostrophe and the four
/// marks; the blank and the hyphen separate.
pub open spec fn is_word_tile(id: u8) -> bool {
    1 <= id < 43 && id != 40
}

proof fn lemma_some_word(typed: Seq<u8>, i: int)
    requires
        0 <= i <= typed.len(),
    ensures
        typed_words(typed, i).len() > 0 <==> exists|k: int|
            i <= k < typed.len() && is_word_tile(#[trigger] typed[k]),
    decreases typed.len() - i,
{
    if i < typed.len() {
        if is_word_tile(typed[i]) {
            assert(typed_words(typed, i).len() > 0);
        } else {
            lemma_some_word(typed, i + 1);
        }
    }
}

/// What a question says of itself: the question-type group is that of the first
/// known word with one, the topic group that of the last, and the tone is that of
/// nothing typed, of nothing understood, of the greeting topic, of a technical topic,
/// or of no such thing.
pub proof fn law_question_understood(m: ModelView, text: Seq<char>)
    ensures
        ({
            let t = answer_of(m, text);
            let typed = typed_of(text);
            let known = t.known_word_ids;
            let blank = forall|k: int| 0 <= k < typed.len() ==> !is_word_tile(#[trigger] typed[k]);
            let greets = t.topic matches Some(g) && g < m.topic_names.len()
                && m.topic_names[g as int] == "GREETING"@;
            let technical = t.topic matches Some(g) && g < m.topic_tech.len()
                && m.topic_tech[g as int];
            &&& t.typed == typed
            &&& known == known_of(m.words, typed_words(typed, 0))
            &&& is_first_group(m, 0x1D00, known, t.qtype)
            &&& is_last_group(m, 0x1C00, known, t.topic)
            &&& t.tone == 1 <==> known.len() == 0 && blank
            &&& t.tone == 2 <==> known.len() == 0 && !blank
            &&& t.tone == 3 <==> known.len() > 0 && greets
            &&& t.tone == 4 <==> known.len() > 0 && !greets && technical
            &&& t.tone <= 4
        }),
{
    let typed = typed_of(text);
    let known = known_of(m.words, typed_words(typed, 0));
    lemma_first_group(m, known);
    lemma_last_group(m, known);
    lemma_some_word(typed, 0);
    assert(answer_of(m, text) == answer_typed(m, typed));
}

/// An answer is generated from its seed under its topic and question type, shows what
/// was typed, and reports the level it was generated at.
pub proof fn law_answer_from_seed(m: ModelView, text: Seq<char>)
    requires
        1 <= m.words.len() <= 256,
    ensures
        ({
            let t = answer_of(m, text);
            &&& answer_from(m, t.seed, t.topic, t.qtype) == (t.words, t.gen_level_max)
            &&& t.normalized_text == text_of(typed_of(text))
        }),
{
    let t = answer_of(m, text);
    law_answer_shape(m, t.seed, t.topic, t.qtype);
}

/// The words of a typed buffer are the spellings of the words of the text that it
/// shows.
pub proof fn law_buffer_words(typed: Seq<u8>)
    requires
        forall|i: int| 0 <= i < typed.len() ==> #[trigger] typed[i] < 43,
    ensures
        ({
            let list = words_of(text_of(typed));
            &&& typed_words(typed, 0).len() == list.len()
            &&& forall|k: int|
                0 <= k < list.len() ==> #[trigger] typed_words(typed, 0)[k] == ids_of(list[k])
        }),
{
    let s = text_of(typed);
    lemma_shown(typed);
    law_ids_roundtrip(typed);
    assert forall|i: int| 0 <= i < s.len() implies VOCAB@.contains(folded(#[trigger] s[i])) by {
        lemma_folded(s[i]);
    }
    law_tokenizers_agree(s);
}

proof fn lemma_shown(typed: Seq<u8>)
    requires
        forall|i: int| 0 <= i < typed.len() ==> #[trigger] typed[i] < 43,
    ensures
        forall|i: int| 0 <= i < text_of(typed).len() ==> VOCAB@.contains(#[trigger] text_of(typed)[i]),
    decreases typed.len(),
{
    if typed.len() > 0 {
        let rest = typed.drop_last();
        assert forall|i: int| 0 <= i < rest.len() implies #[trigger] rest[i] < 43 by {
            assert(rest[i] == typed[i]);
        }
        lemma_shown(rest);
        lemma_alphabet();
        let n = text_of(rest).len() as int;
        let c = VOCAB@[typed.last() as int];
        assert(typed[typed.len() - 1] < 43);
        assert(VOCAB@.contains(c));
        assert forall|i: int| 0 <= i < text_of(typed).len() implies VOCAB@.contains(
            #[trigger] text_of(typed)[i],
        ) by {
            if i < n {
                assert(text_of(typed)[i] == text_of(rest)[i]);
            }
        }
    }
}

} // verus!
