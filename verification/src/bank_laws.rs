//! What the classifier bank and the tables of a built model have to satisfy, stated
//! over the corpus by positions.

use vstd::prelude::*;
use crate::classifier::{
    cls_byte, cls_of, input_sentences, lemma_selected_countable, qgroup_byte, qtype_counts,
    qtype_words, tgroup_byte, topic_counts, BankInput,
};
use crate::corpus::{marks_of, word_counts};
use crate::count_laws::{
    holding, is_bias, is_record, law_bias_fifteenths, law_conditioned_counts, law_marks_and_enders,
    law_occurrences_tally, law_records_ranked, lemma_tally_same, linked, near_member, tally,
    with_topic, with_type,
};
use crate::records::{countable, occurrences, record_of, MAX_COUNT};
use crate::sentences::{answer_tokens, enders_of, topic_tokens};
use crate::vocab::{lemma_word_id_place, word_id};

verus! {

// ---------------------------------------------------------------------------
// The classifier bank
// ---------------------------------------------------------------------------

proof fn lemma_tally_some(n: int, p: spec_fn(int) -> bool, i: int)
    requires
        0 <= i < n,
        p(i),
    ensures
        tally(n, p) > 0,
    decreases n,
{
    if i < n - 1 {
        lemma_tally_some(n - 1, p, i);
    } else {
        lemma_tally_same(n - 1, p, p);
    }
}

/// Counts of the words at all positions.
pub open spec fn counts_words(counts: Seq<u32>, ids: Seq<u8>) -> bool {
    counts.len() == 256 && forall|u: u8|
        #[trigger] counts[u as int] == tally(ids.len() as int, holding(ids, u))
}

/// Counts of the words at the positions in a sentence with a member.
pub open spec fn counts_topic(
    counts: Seq<u32>,
    ids: Seq<u8>,
    enders: Seq<bool>,
    members: Seq<u8>,
) -> bool {
    counts.len() == 256 && forall|u: u8|
        #[trigger] counts[u as int] == tally(ids.len() as int, with_topic(ids, enders, members, u))
}

/// Counts of the words at the positions behind a question of a type.
pub open spec fn counts_type(
    counts: Seq<u32>,
    ids: Seq<u8>,
    enders: Seq<bool>,
    id: u8,
    qmark: u8,
) -> bool {
    counts.len() == 256 && forall|u: u8|
        #[trigger] counts[u as int] == tally(ids.len() as int, with_type(ids, enders, id, qmark, u))
}

/// A record of counts, of any number of words.
pub open spec fn ranks(counts: Seq<u32>, marks: Seq<bool>, rec: Seq<u8>) -> bool {
    exists|n: int| is_record(counts, marks, rec, n)
}

/// The page and the record of a topic come from the words of the sentences with a
/// member of the topic anywhere in them: bias `t` from how often word `t` stands in
/// such a sentence, and the record from all these counts. A page without a topic is
/// empty.
#[verifier::rlimit(60)]
pub proof fn law_topic_page(b: BankInput, g: int, t: int)
    requires
        countable(b.ids),
        b.topics.members.len() <= 16,
        0 <= g < 16,
        0 <= t < 256,
    ensures
        cls_of(b).len() == 8192,
        g < b.topics.members.len() ==> exists|counts: Seq<u32>|
            #![trigger is_bias(counts, t, cls_of(b)[g * 256 + t] as int)]
            counts_topic(counts, b.ids, enders_of(b.words), b.topics.members[g]) && is_bias(
                counts,
                t,
                cls_of(b)[g * 256 + t] as int,
            ) && ranks(
                counts,
                marks_of(b.words),
                cls_of(b).subrange(0x1E00 + g * 16, 0x1E00 + g * 16 + 16),
            ),
        g >= b.topics.members.len() ==> cls_of(b)[g * 256 + t] == 0 && forall|k: int|
            0 <= k < 16 ==> #[trigger] cls_of(b)[0x1E00 + g * 16 + k] == 0,
{
    let counts = topic_counts(b, g);
    let at = g * 256 + t;
    assert(at / 256 == g && at % 256 == t);
    assert(cls_of(b)[at] == cls_byte(b, at));
    law_bias_fifteenths(counts, t);
    law_marks_and_enders(b.words, 0);
    if g < b.topics.members.len() {
        let members = b.topics.members[g];
        lemma_selected_countable(b, members, 0);
        let toks = topic_tokens(input_sentences(b), members);
        assert forall|u: u8| #[trigger] counts[u as int] == tally(b.ids.len() as int, with_topic(b.ids, enders_of(b.words), members, u)) by {
            law_conditioned_counts(b.ids, enders_of(b.words), members, 0, b.qmark, u);
            assert(occurrences(toks, u) <= MAX_COUNT);
        }
        assert(counts_topic(counts, b.ids, enders_of(b.words), members));
        law_records_ranked(counts, marks_of(b.words));
        let rec = record_of(counts, marks_of(b.words));
        let from = 0x1E00 + g * 16;
        assert(from % 16 == 0);
        assert forall|k: int| 0 <= k < 16 implies #[trigger] cls_byte(b, from + k) == rec[k] by {
            assert((from + k - 0x1E00) / 16 == g && (from + k) % 16 == k);
        }
        lemma_record_at(b, from, rec);
        assert(ranks(counts, marks_of(b.words), rec));
    } else {
        assert forall|u: u8| #[trigger] counts[u as int] == 0 by {}
        assert(counts[(t as u8) as int] == 0);
        assert forall|k: int| 0 <= k < 16 implies #[trigger] cls_of(b)[0x1E00 + g * 16 + k] == 0 by {
            assert((g * 16 + k) / 16 == g);
        }
    }
}

/// A record of the bank read as a piece.
proof fn lemma_record_at(b: BankInput, at: int, rec: Seq<u8>)
    requires
        0 <= at <= 8192 - 16,
        rec.len() == 16,
        at % 16 == 0,
        forall|k: int| 0 <= k < 16 ==> #[trigger] cls_byte(b, at + k) == rec[k],
    ensures
        cls_of(b).subrange(at, at + 16) == rec,
{
    let part = cls_of(b).subrange(at, at + 16);
    assert forall|k: int| 0 <= k < 16 implies #[trigger] part[k] == rec[k] by {
        assert(cls_byte(b, at + k) == rec[k]);
    }
    assert(part =~= rec);
}

/// A sentence with a member of a topic at any position pulls all its words toward
/// the topic: each has a bias on the topic's page. No other word has one.
#[verifier::rlimit(60)]
pub proof fn law_topic_words_biased(b: BankInput, g: int, p: int, t: int)
    requires
        countable(b.ids),
        0 <= g < b.topics.members.len() <= 16,
        0 <= p < b.ids.len(),
        0 <= t < 256,
    ensures
        (exists|q: int|
            0 <= q < b.ids.len() && b.topics.members[g].contains(#[trigger] b.ids[q]) && linked(
                b.ids,
                enders_of(b.words),
                p,
                q,
            )) ==> 1 <= cls_of(b)[g * 256 + b.ids[p]] <= 15,
        (forall|r: int|
            0 <= r < b.ids.len() && #[trigger] b.ids[r] == t ==> !near_member(
                b.ids,
                enders_of(b.words),
                b.topics.members[g],
                r,
            )) ==> cls_of(b)[g * 256 + t] == 0,
{
    let members = b.topics.members[g];
    let enders = enders_of(b.words);
    let n = b.ids.len() as int;
    let toks = topic_tokens(input_sentences(b), members);
    lemma_selected_countable(b, members, 0);
    let w = b.ids[p];
    let counts = topic_counts(b, g);
    law_conditioned_counts(b.ids, enders, members, 0, b.qmark, w);
    law_conditioned_counts(b.ids, enders, members, 0, b.qmark, t as u8);
    assert(occurrences(toks, w) <= MAX_COUNT);
    assert(occurrences(toks, t as u8) <= MAX_COUNT);
    law_bias_fifteenths(counts, w as int);
    law_bias_fifteenths(counts, t);
    assert((g * 256 + w) / 256 == g && (g * 256 + w) % 256 == w as int);
    assert((g * 256 + t) / 256 == g && (g * 256 + t) % 256 == t);
    assert(cls_of(b)[g * 256 + w] == cls_byte(b, g * 256 + w));
    assert(cls_of(b)[g * 256 + t] == cls_byte(b, g * 256 + t));
    if near_member(b.ids, enders, members, p) {
        lemma_tally_some(n, with_topic(b.ids, enders, members, w), p);
    }
    if forall|r: int| 0 <= r < n && #[trigger] b.ids[r] == t ==> !near_member(b.ids, enders, members, r) {
        let f = with_topic(b.ids, enders, members, t as u8);
        let none = |i: int| false;
        assert forall|i: int| 0 <= i < n implies #[trigger] f(i) == none(i) by {
            assert(b.ids[i] == b.ids[i]);
        }
        lemma_tally_same(n, f, none);
        lemma_tally_false(n);
    }
}

proof fn lemma_tally_false(n: int)
    ensures
        tally(n, |i: int| false) == 0,
    decreases n,
{
    if n > 0 {
        lemma_tally_false(n - 1);
    }
}

/// The page and the record of a question type come from the words of the sentences
/// behind its questions.
#[verifier::rlimit(60)]
pub proof fn law_type_page(b: BankInput, g: int, t: int)
    requires
        countable(b.ids),
        b.words.len() <= 256,
        forall|i: int, j: int| 0 <= i < j < b.words.len() ==> b.words[i] != b.words[j],
        0 <= g < 11,
        0 <= t < 256,
    ensures
        forall|id: u8|
            id < b.words.len() && #[trigger] b.words[id as int] == qtype_words()[g] ==> exists|counts: Seq<u32>|
                #![trigger is_bias(counts, t, cls_of(b)[0x1000 + g * 256 + t] as int)]
                counts_type(counts, b.ids, enders_of(b.words), id, b.qmark) && is_bias(counts, t, cls_of(b)[0x1000 + g * 256 + t] as int) && ranks(counts, marks_of(b.words), cls_of(b).subrange(0x1F00 + g * 16, 0x1F00 + g * 16 + 16)),
        !b.words.contains(qtype_words()[g]) ==> cls_of(b)[0x1000 + g * 256 + t] == 0,
{
    let counts = qtype_counts(b, g);
    let at = 0x1000 + g * 256 + t;
    assert((at - 0x1000) / 256 == g && at % 256 == t);
    assert(cls_of(b)[at] == cls_byte(b, at));
    law_bias_fifteenths(counts, t);
    law_marks_and_enders(b.words, 0);
    let w = qtype_words()[g];
    lemma_word_id_place(b.words, w);
    if !b.words.contains(w) {
        assert forall|u: u8| #[trigger] counts[u as int] == 0 by {}
        assert(counts[(t as u8) as int] == 0);
    }
    assert forall|id: u8|
        id < b.words.len() && #[trigger] b.words[id as int] == w implies exists|counts: Seq<u32>|
        #![trigger is_bias(counts, t, cls_of(b)[0x1000 + g * 256 + t] as int)]
        counts_type(counts, b.ids, enders_of(b.words), id, b.qmark) && is_bias(counts, t, cls_of(b)[0x1000 + g * 256 + t] as int) && ranks(counts, marks_of(b.words), cls_of(b).subrange(0x1F00 + g * 16, 0x1F00 + g * 16 + 16)) by {
        assert(b.words.contains(w));
        assert(b.words[b.words.index_of(w)] == b.words[id as int]);
        assert(b.words.index_of(w) == id);
        lemma_selected_countable(b, seq![], id);
        let toks = answer_tokens(input_sentences(b), id, b.qmark);
        assert forall|u: u8| #[trigger] counts[u as int] == tally(b.ids.len() as int, with_type(b.ids, enders_of(b.words), id, b.qmark, u)) by {
            law_conditioned_counts(b.ids, enders_of(b.words), seq![], id, b.qmark, u);
            assert(occurrences(toks, u) <= MAX_COUNT);
        }
        assert(counts_type(counts, b.ids, enders_of(b.words), id, b.qmark));
        law_records_ranked(counts, marks_of(b.words));
        let rec = record_of(counts, marks_of(b.words));
        let from = 0x1F00 + g * 16;
        assert(from % 16 == 0);
        assert forall|k: int| 0 <= k < 16 implies #[trigger] cls_byte(b, from + k) == rec[k] by {
            assert((from + k - 0x1F00) / 16 == g && (from + k) % 16 == k);
        }
        lemma_record_at(b, from, rec);
        assert(ranks(counts, marks_of(b.words), rec));
    }
}

/// The question words and their order.
pub proof fn law_type_names()
    ensures
        qtype_words().len() == 11,
        qtype_words()[0] == seq!['W', 'H', 'Y'],
        qtype_words()[1] == seq!['H', 'O', 'W'],
        qtype_words()[2] == seq!['W', 'H', 'A', 'T'],
        qtype_words()[3] == seq!['W', 'H', 'O'],
        qtype_words()[4] == seq!['W', 'H', 'E', 'R', 'E'],
        qtype_words()[5] == seq!['W', 'H', 'E', 'N'],
        qtype_words()[6] == seq!['C', 'A', 'N'],
        qtype_words()[7] == seq!['D', 'O'],
        qtype_words()[8] == seq!['D', 'O', 'E', 'S'],
        qtype_words()[9] == seq!['A', 'R', 'E'],
        qtype_words()[10] == seq!['I', 'S'],
{
    reveal_strlit("WHY");
    reveal_strlit("HOW");
    reveal_strlit("WHAT");
    reveal_strlit("WHO");
    reveal_strlit("WHERE");
    reveal_strlit("WHEN");
    reveal_strlit("CAN");
    reveal_strlit("DO");
    reveal_strlit("DOES");
    reveal_strlit("ARE");
    reveal_strlit("IS");
    assert(qtype_words()[0] =~= seq!['W', 'H', 'Y']);
    assert(qtype_words()[1] =~= seq!['H', 'O', 'W']);
    assert(qtype_words()[2] =~= seq!['W', 'H', 'A', 'T']);
    assert(qtype_words()[3] =~= seq!['W', 'H', 'O']);
    assert(qtype_words()[4] =~= seq!['W', 'H', 'E', 'R', 'E']);
    assert(qtype_words()[5] =~= seq!['W', 'H', 'E', 'N']);
    assert(qtype_words()[6] =~= seq!['C', 'A', 'N']);
    assert(qtype_words()[7] =~= seq!['D', 'O']);
    assert(qtype_words()[8] =~= seq!['D', 'O', 'E', 'S']);
    assert(qtype_words()[9] =~= seq!['A', 'R', 'E']);
    assert(qtype_words()[10] =~= seq!['I', 'S']);
}

proof fn lemma_tgroup_last(members: Seq<Seq<u8>>, n: int, w: u8)
    requires
        0 <= n <= members.len(),
        n <= 255,
    ensures
        ({
            let g = tgroup_byte(members, n, w) as int;
            &&& g <= n
            &&& g > 0 ==> members[g - 1].contains(w)
            &&& forall|j: int| g <= j < n ==> !(#[trigger] members[j]).contains(w)
        }),
    decreases n,
{
    if n > 0 {
        lemma_tgroup_last(members, n - 1, w);
    }
}

proof fn lemma_qgroup_last(words: Seq<Seq<char>>, n: int, w: u8)
    requires
        0 <= n <= 11,
    ensures
        ({
            let g = qgroup_byte(words, n, w) as int;
            &&& g <= n
            &&& g > 0 ==> word_id(words, qtype_words()[g - 1]) == Some(w)
            &&& forall|j: int|
                g <= j < n ==> word_id(words, #[trigger] qtype_words()[j]) != Some(w)
        }),
    decreases n,
{
    if n > 0 {
        lemma_qgroup_last(words, n - 1, w);
    }
}

/// The bytes of a word: 1 for a word that ends a sentence; the last topic group it
/// is a member of, counted from 1, and 0 for none; and the question type that it is,
/// counted from 1, and 0 for none.
pub proof fn law_word_bytes(b: BankInput, w: u8)
    requires
        b.words.len() <= 256,
        b.topics.members.len() <= 16,
        forall|i: int, j: int| 0 <= i < j < b.words.len() ==> b.words[i] != b.words[j],
    ensures
        cls_of(b)[0x1B00 + w] == 1 || cls_of(b)[0x1B00 + w] == 0,
        cls_of(b)[0x1B00 + w] == 1 <==> w < b.words.len() && (b.words[w as int] =~= seq!['.']
            || b.words[w as int] =~= seq!['!'] || b.words[w as int] =~= seq!['?']),
        ({
            let g = cls_of(b)[0x1C00 + w] as int;
            &&& g <= b.topics.members.len()
            &&& g > 0 ==> b.topics.members[g - 1].contains(w)
            &&& forall|j: int|
                g <= j < b.topics.members.len() ==> !(#[trigger] b.topics.members[j]).contains(w)
        }),
        ({
            let g = cls_of(b)[0x1D00 + w] as int;
            &&& g <= 11
            &&& g > 0 ==> w < b.words.len() && b.words[w as int] == qtype_words()[g - 1]
            &&& g == 0 && w < b.words.len() ==> forall|j: int|
                0 <= j < 11 ==> b.words[w as int] != #[trigger] qtype_words()[j]
        }),
{
    law_marks_and_enders(b.words, w as int);
    lemma_tgroup_last(b.topics.members, b.topics.members.len() as int, w);
    lemma_qgroup_last(b.words, 11, w);
    assert((0x1B00 + w) % 256 == w as int);
    assert((0x1C00 + w) % 256 == w as int);
    assert((0x1D00 + w) % 256 == w as int);
    assert(cls_of(b)[0x1B00 + w] == cls_byte(b, 0x1B00 + w));
    assert(cls_of(b)[0x1C00 + w] == cls_byte(b, 0x1C00 + w));
    assert(cls_of(b)[0x1D00 + w] == cls_byte(b, 0x1D00 + w));
    let g = cls_of(b)[0x1D00 + w] as int;
    if g > 0 {
        lemma_word_id_place(b.words, qtype_words()[g - 1]);
    }
    if g == 0 && w < b.words.len() {
        assert forall|j: int| 0 <= j < 11 implies b.words[w as int] != #[trigger] qtype_words()[j] by {
            if b.words[w as int] == qtype_words()[j] {
                assert(b.words.contains(qtype_words()[j]));
                let i = b.words.index_of(qtype_words()[j]);
                assert(b.words[i] == b.words[w as int]);
                assert(i == w);
            }
        }
    }
}

/// The record of the whole corpus, the tones of the topics, and what is left empty.
#[verifier::rlimit(60)]
pub proof fn law_bank_end(b: BankInput, g: int)
    requires
        countable(b.ids),
        b.topics.members.len() <= 16,
        b.topics.names.len() == b.topics.members.len(),
        b.topics.tech.len() == b.topics.members.len(),
        0 <= g < 16,
    ensures
        exists|counts: Seq<u32>|
            counts_words(counts, b.ids) && ranks(
                counts,
                marks_of(b.words),
                cls_of(b).subrange(0x1FC0, 0x1FD0),
            ),
        g < b.topics.names.len() ==> cls_of(b)[0x1FE0 + g] == (if b.topics.names[g] =~= seq![
            'G',
            'R',
            'E',
            'E',
            'T',
            'I',
            'N',
            'G',
        ] {
            3u8
        } else if b.topics.tech[g] {
            4u8
        } else {
            0u8
        }),
        g >= b.topics.names.len() ==> cls_of(b)[0x1FE0 + g] == 0,
        forall|k: int|
            0x1FB0 <= k < 0x1FC0 || 0x1FD0 <= k < 0x1FE0 || 0x1FF0 <= k < 0x2000 ==> #[trigger] cls_of(
                b,
            )[k] == 0,
{
    let counts = word_counts(b.ids);
    assert forall|u: u8| #[trigger] counts[u as int] == tally(b.ids.len() as int, holding(b.ids, u)) by {
        law_occurrences_tally(b.ids, u);
        assert(occurrences(b.ids, u) <= MAX_COUNT);
    }
    assert(counts_words(counts, b.ids));
    law_marks_and_enders(b.words, 0);
    law_records_ranked(counts, marks_of(b.words));
    let rec = record_of(counts, marks_of(b.words));
    lemma_record_at(b, 0x1FC0, rec);
    assert(ranks(counts, marks_of(b.words), rec));
    reveal_strlit("GREETING");
    assert("GREETING"@ =~= seq!['G', 'R', 'E', 'E', 'T', 'I', 'N', 'G']);
    assert(cls_of(b)[0x1FE0 + g] == cls_byte(b, 0x1FE0 + g));
    assert forall|k: int|
        0x1FB0 <= k < 0x1FC0 || 0x1FD0 <= k < 0x1FE0 || 0x1FF0 <= k < 0x2000 implies #[trigger] cls_of(
        b,
    )[k] == 0 by {
        assert(cls_of(b)[k] == cls_byte(b, k));
        if k < 0x1FC0 {
            assert((k - 0x1F00) / 16 == 11);
        }
    }
}

} // verus!
