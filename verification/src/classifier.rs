//! The classifier bank: bias pages, group maps and fallback records for topics
//! and question types.

use vstd::prelude::*;
use crate::bytes::has_byte;
use crate::corpus::{count_words, marks_of, word_counts};
use crate::model::{
    CLS_GLOBAL_REC, CLS_IS_END, CLS_LEN, CLS_QGROUP, CLS_QTYPE_BIAS, CLS_QTYPE_RECS, CLS_TGROUP,
    CLS_TONE, CLS_TOPIC_RECS, N_QTYPES_MAX, TONE_GREETING, TONE_NORMAL, TONE_TECHNICAL,
};
use crate::records::{bias_of, biases, countable, occurrences, record, record_of, MAX_COUNT};
use crate::routes::{TopicState, TopicTable};
use crate::sentences::{
    answer_tokens, enders_of, law_sentences_cover, lemma_selected_counts, lists, sentence_enders,
    sentences_of, split_sentences, topic_tokens, words_answering, words_near,
};
use crate::text::{same_text, texts};
use crate::vocab::{vocab_sound, word_id, WordVocab};

verus! {

// ---------------------------------------------------------------------------
// Question types
// ---------------------------------------------------------------------------

/// The question words, in group order.
pub open spec fn qtype_words() -> Seq<Seq<char>> {
    seq![
        "WHY"@,
        "HOW"@,
        "WHAT"@,
        "WHO"@,
        "WHERE"@,
        "WHEN"@,
        "CAN"@,
        "DO"@,
        "DOES"@,
        "ARE"@,
        "IS"@,
    ]
}

/// The question words, in group order.
pub fn qtype_list() -> (list: Vec<String>)
    ensures
        texts(list@) == qtype_words(),
{
    let mut list: Vec<String> = Vec::new();
    list.push("WHY".to_owned());
    list.push("HOW".to_owned());
    list.push("WHAT".to_owned());
    list.push("WHO".to_owned());
    list.push("WHERE".to_owned());
    list.push("WHEN".to_owned());
    list.push("CAN".to_owned());
    list.push("DO".to_owned());
    list.push("DOES".to_owned());
    list.push("ARE".to_owned());
    list.push("IS".to_owned());
    assert(texts(list@) =~= qtype_words());
    list
}

// ---------------------------------------------------------------------------
// The classifier bank
// ---------------------------------------------------------------------------

/// What the classifier bank is made from.
pub struct BankInput {
    pub words: Seq<Seq<char>>,
    pub ids: Seq<u8>,
    pub qmark: u8,
    pub topics: TopicState,
}

/// The sentences of the corpus.
pub open spec fn input_sentences(b: BankInput) -> Seq<Seq<u8>> {
    sentences_of(b.ids, enders_of(b.words))
}

/// Word counts of the sentences with a member of topic `g`.
pub open spec fn topic_counts(b: BankInput, g: int) -> Seq<u32> {
    word_counts(
        if g < b.topics.members.len() {
            topic_tokens(input_sentences(b), b.topics.members[g])
        } else {
            seq![]
        },
    )
}

/// Word counts of the sentences behind a question of type `g`.
pub open spec fn qtype_counts(b: BankInput, g: int) -> Seq<u32> {
    word_counts(
        match word_id(b.words, qtype_words()[g]) {
            Some(id) => answer_tokens(input_sentences(b), id, b.qmark),
            None => seq![],
        },
    )
}

/// The last of the first `n` topic groups with a member, plus 1; 0 for none.
pub open spec fn tgroup_byte(members: Seq<Seq<u8>>, n: int, w: u8) -> u8
    decreases n,
{
    if n <= 0 {
        0
    } else if members[n - 1].contains(w) {
        n as u8
    } else {
        tgroup_byte(members, n - 1, w)
    }
}

/// The last of the first `n` question types that the word is, plus 1; 0 for
/// none.
pub open spec fn qgroup_byte(words: Seq<Seq<char>>, n: int, w: u8) -> u8
    decreases n,
{
    if n <= 0 {
        0
    } else if word_id(words, qtype_words()[n - 1]) == Some(w) {
        n as u8
    } else {
        qgroup_byte(words, n - 1, w)
    }
}

/// The tone of topic `g`.
pub open spec fn tone_byte(topics: TopicState, g: int) -> u8 {
    if topics.names[g] == "GREETING"@ {
        TONE_GREETING
    } else if topics.tech[g] {
        TONE_TECHNICAL
    } else {
        TONE_NORMAL
    }
}

/// Byte `i` of the classifier bank.
pub open spec fn cls_byte(b: BankInput, i: int) -> u8 {
    let marks = marks_of(b.words);
    let n = b.topics.members.len();
    if i < CLS_QTYPE_BIAS {
        bias_of(topic_counts(b, i / 256), i % 256)
    } else if i < CLS_IS_END {
        bias_of(qtype_counts(b, (i - CLS_QTYPE_BIAS) / 256), i % 256)
    } else if i < CLS_TGROUP {
        if enders_of(b.words)[i % 256] {
            1
        } else {
            0
        }
    } else if i < CLS_QGROUP {
        tgroup_byte(b.topics.members, n as int, (i % 256) as u8)
    } else if i < CLS_TOPIC_RECS {
        qgroup_byte(b.words, N_QTYPES_MAX as int, (i % 256) as u8)
    } else if i < CLS_QTYPE_RECS {
        let g = (i - CLS_TOPIC_RECS) / 16;
        if g < n {
            record_of(topic_counts(b, g), marks)[i % 16]
        } else {
            0
        }
    } else if i < CLS_GLOBAL_REC {
        let g = (i - CLS_QTYPE_RECS) / 16;
        if g < N_QTYPES_MAX {
            record_of(qtype_counts(b, g), marks)[i % 16]
        } else {
            0
        }
    } else if i < CLS_GLOBAL_REC + 16 {
        record_of(word_counts(b.ids), marks)[i % 16]
    } else if i >= CLS_TONE && i - CLS_TONE < n {
        tone_byte(b.topics, i - CLS_TONE)
    } else {
        0
    }
}

/// The classifier bank.
pub open spec fn cls_of(b: BankInput) -> Seq<u8> {
    Seq::new(CLS_LEN as nat, |i: int| cls_byte(b, i))
}

/// Pages and records of a list of groups.
struct Pages {
    biases: Vec<Vec<u8>>,
    records: Vec<Vec<u8>>,
}

/// The words that go with a topic or a question type can be counted.
pub proof fn lemma_selected_countable(b: BankInput, members: Seq<u8>, id: u8)
    requires
        countable(b.ids),
    ensures
        countable(topic_tokens(input_sentences(b), members)),
        countable(answer_tokens(input_sentences(b), id, b.qmark)),
{
    let sents = input_sentences(b);
    law_sentences_cover(b.ids, enders_of(b.words));
    assert forall|t: u8| #[trigger] occurrences(topic_tokens(sents, members), t) <= MAX_COUNT by {
        lemma_selected_counts(sents, members, id, b.qmark, t);
        assert(occurrences(b.ids, t) <= MAX_COUNT);
    }
    assert forall|t: u8|
        #[trigger] occurrences(answer_tokens(sents, id, b.qmark), t) <= MAX_COUNT by {
        lemma_selected_counts(sents, members, id, b.qmark, t);
        assert(occurrences(b.ids, t) <= MAX_COUNT);
    }
}

fn topic_pages(
    sents: &Vec<Vec<u8>>,
    topics: &TopicTable,
    marks: &Vec<bool>,
    Ghost(b): Ghost<BankInput>,
) -> (pages: Pages)
    requires
        lists(sents@) == input_sentences(b),
        b.topics == topics@,
        marks@ == marks_of(b.words),
        countable(b.ids),
        topics.members@.len() <= 16,
    ensures
        pages.biases@.len() == 16,
        pages.records@.len() == topics.members@.len(),
        forall|g: int|
            0 <= g < 16 ==> (#[trigger] pages.biases@[g])@ == Seq::new(
                256,
                |t: int| bias_of(topic_counts(b, g), t),
            ),
        forall|g: int|
            0 <= g < topics.members@.len() ==> (#[trigger] pages.records@[g])@ == record_of(
                topic_counts(b, g),
                marks@,
            ),
{
    let mut pages = Pages { biases: Vec::new(), records: Vec::new() };
    let mut g: usize = 0;
    while g < 16
        invariant
            g <= 16,
            lists(sents@) == input_sentences(b),
            b.topics == topics@,
            marks@ == marks_of(b.words),
            countable(b.ids),
            topics.members@.len() <= 16,
            pages.biases@.len() == g,
            pages.records@.len() == vstd::math::min(g as int, topics.members@.len() as int),
            forall|k: int|
                0 <= k < g ==> (#[trigger] pages.biases@[k])@ == Seq::new(
                    256,
                    |t: int| bias_of(topic_counts(b, k), t),
                ),
            forall|k: int|
                0 <= k < pages.records@.len() ==> (#[trigger] pages.records@[k])@ == record_of(
                    topic_counts(b, k),
                    marks@,
                ),
        decreases 16 - g,
    {
        let list = if g < topics.members.len() {
            proof {
                assert(topics@.members[g as int] == topics.members@[g as int]@);
                lemma_selected_countable(b, topics.members@[g as int]@, 0);
            }
            words_near(sents, &topics.members[g])
        } else {
            Vec::new()
        };
        let counts = count_words(&list);
        assert(counts@ == topic_counts(b, g as int));
        pages.biases.push(biases(&counts));
        if g < topics.members.len() {
            pages.records.push(record(&counts, marks));
        }
        g = g + 1;
    }
    pages
}

fn qtype_pages(
    sents: &Vec<Vec<u8>>,
    vocab: &WordVocab,
    qtypes: &Vec<String>,
    qmark: u8,
    marks: &Vec<bool>,
    Ghost(b): Ghost<BankInput>,
) -> (pages: Pages)
    requires
        lists(sents@) == input_sentences(b),
        b.words == vocab@,
        b.qmark == qmark,
        vocab_sound(vocab@),
        texts(qtypes@) == qtype_words(),
        marks@ == marks_of(b.words),
        countable(b.ids),
    ensures
        pages.biases@.len() == 11,
        pages.records@.len() == 11,
        forall|g: int|
            0 <= g < 11 ==> (#[trigger] pages.biases@[g])@ == Seq::new(
                256,
                |t: int| bias_of(qtype_counts(b, g), t),
            ),
        forall|g: int|
            0 <= g < 11 ==> (#[trigger] pages.records@[g])@ == record_of(
                qtype_counts(b, g),
                marks@,
            ),
{
    let mut pages = Pages { biases: Vec::new(), records: Vec::new() };
    assert(qtypes@.len() == texts(qtypes@).len());
    let mut g: usize = 0;
    while g < N_QTYPES_MAX
        invariant
            g <= 11,
            qtypes@.len() == 11,
            lists(sents@) == input_sentences(b),
            b.words == vocab@,
            b.qmark == qmark,
            vocab_sound(vocab@),
            texts(qtypes@) == qtype_words(),
            marks@ == marks_of(b.words),
            countable(b.ids),
            pages.biases@.len() == g,
            pages.records@.len() == g,
            forall|k: int|
                0 <= k < g ==> (#[trigger] pages.biases@[k])@ == Seq::new(
                    256,
                    |t: int| bias_of(qtype_counts(b, k), t),
                ),
            forall|k: int|
                0 <= k < g ==> (#[trigger] pages.records@[k])@ == record_of(
                    qtype_counts(b, k),
                    marks@,
                ),
        decreases 11 - g,
    {
        assert(qtype_words()[g as int] == qtypes@[g as int]@);
        let list = match vocab.id(qtypes[g].as_str()) {
            Some(id) => {
                proof {
                    lemma_selected_countable(b, seq![], id);
                }
                words_answering(sents, id, qmark)
            },
            None => Vec::new(),
        };
        let counts = count_words(&list);
        assert(counts@ == qtype_counts(b, g as int));
        pages.biases.push(biases(&counts));
        pages.records.push(record(&counts, marks));
        g = g + 1;
    }
    pages
}

fn group_of_word(topics: &TopicTable, w: u8) -> (byte: u8)
    requires
        topics.members@.len() <= 16,
    ensures
        byte == tgroup_byte(topics@.members, topics@.members.len() as int, w),
{
    let mut byte: u8 = 0;
    let mut g: usize = 0;
    while g < topics.members.len()
        invariant
            g <= topics.members@.len() <= 16,
            byte == tgroup_byte(topics@.members, g as int, w),
        decreases topics.members.len() - g,
    {
        assert(topics@.members[g as int] == topics.members@[g as int]@);
        if has_byte(&topics.members[g], w) {
            byte = (g + 1) as u8;
        }
        g = g + 1;
    }
    byte
}

fn question_groups(vocab: &WordVocab, qtypes: &Vec<String>) -> (bytes: Vec<u8>)
    requires
        vocab_sound(vocab@),
        texts(qtypes@) == qtype_words(),
    ensures
        bytes@ == Seq::new(256, |w: int| qgroup_byte(vocab@, 11, w as u8)),
{
    let mut bytes: Vec<u8> = Vec::new();
    let mut w: usize = 0;
    while w < 256
        invariant
            w <= 256,
            bytes@ == Seq::new(w as nat, |w: int| qgroup_byte(vocab@, 0, w as u8)),
        decreases 256 - w,
    {
        bytes.push(0);
        w = w + 1;
    }
    assert(qtypes@.len() == texts(qtypes@).len());
    let mut g: usize = 0;
    while g < N_QTYPES_MAX
        invariant
            g <= 11,
            qtypes@.len() == 11,
            vocab_sound(vocab@),
            texts(qtypes@) == qtype_words(),
            bytes@ == Seq::new(256, |w: int| qgroup_byte(vocab@, g as int, w as u8)),
        decreases 11 - g,
    {
        assert(qtype_words()[g as int] == qtypes@[g as int]@);
        let ghost before = bytes@;
        if let Some(id) = vocab.id(qtypes[g].as_str()) {
            bytes[id as usize] = (g + 1) as u8;
        }
        assert forall|w: int| 0 <= w < 256 implies #[trigger] bytes@[w] == qgroup_byte(
            vocab@,
            g + 1,
            w as u8,
        ) by {
            assert(before[w] == qgroup_byte(vocab@, g as int, w as u8));
        }
        assert(bytes@ =~= Seq::new(256, |w: int| qgroup_byte(vocab@, g + 1, w as u8)));
        g = g + 1;
    }
    bytes
}

fn tone_of_group(topics: &TopicTable, g: usize) -> (byte: u8)
    requires
        g < topics.names@.len(),
        g < topics.tech@.len(),
    ensures
        byte == tone_byte(topics@, g as int),
{
    if same_text(topics.names[g].as_str(), "GREETING") {
        TONE_GREETING
    } else if topics.tech[g] {
        TONE_TECHNICAL
    } else {
        TONE_NORMAL
    }
}

/// The classifier bank.
pub fn classifier_bank(
    vocab: &WordVocab,
    ids: &Vec<u8>,
    qmark: u8,
    topics: &TopicTable,
    marks: &Vec<bool>,
    qtypes: &Vec<String>,
) -> (cls: Vec<u8>)
    requires
        vocab_sound(vocab@),
        countable(ids@),
        topics.members@.len() <= 16,
        topics.names@.len() == topics.members@.len(),
        topics.tech@.len() == topics.members@.len(),
        marks@ == marks_of(vocab@),
        texts(qtypes@) == qtype_words(),
    ensures
        cls@ == cls_of(BankInput { words: vocab@, ids: ids@, qmark, topics: topics@ }),
{
    let ghost b = BankInput { words: vocab@, ids: ids@, qmark, topics: topics@ };
    let enders = sentence_enders(vocab);
    let sents = split_sentences(ids, &enders);
    let tp = topic_pages(&sents, topics, marks, Ghost(b));
    let qp = qtype_pages(&sents, vocab, qtypes, qmark, marks, Ghost(b));
    let qgroups = question_groups(vocab, qtypes);
    let global = record(&count_words(ids), marks);
    let n: usize = topics.members.len();
    let mut cls: Vec<u8> = Vec::new();
    let mut i: usize = 0;
    while i < CLS_LEN
        invariant
            i <= CLS_LEN,
            b == (BankInput { words: vocab@, ids: ids@, qmark, topics: topics@ }),
            n == topics.members@.len(),
            n <= 16,
            topics.names@.len() == n,
            topics.tech@.len() == n,
            marks@ == marks_of(vocab@),
            enders@ == enders_of(vocab@),
            tp.biases@.len() == 16,
            tp.records@.len() == n,
            forall|g: int|
                0 <= g < 16 ==> (#[trigger] tp.biases@[g])@ == Seq::new(
                    256,
                    |t: int| bias_of(topic_counts(b, g), t),
                ),
            forall|g: int|
                0 <= g < n ==> (#[trigger] tp.records@[g])@ == record_of(
                    topic_counts(b, g),
                    marks@,
                ),
            qp.biases@.len() == 11,
            qp.records@.len() == 11,
            forall|g: int|
                0 <= g < 11 ==> (#[trigger] qp.biases@[g])@ == Seq::new(
                    256,
                    |t: int| bias_of(qtype_counts(b, g), t),
                ),
            forall|g: int|
                0 <= g < 11 ==> (#[trigger] qp.records@[g])@ == record_of(
                    qtype_counts(b, g),
                    marks@,
                ),
            qgroups@ == Seq::new(256, |w: int| qgroup_byte(vocab@, 11, w as u8)),
            global@ == record_of(word_counts(ids@), marks@),
            cls@ == cls_of(b).take(i as int),
        decreases CLS_LEN - i,
    {
        let byte: u8 = if i < CLS_QTYPE_BIAS {
            tp.biases[i / 256][i % 256]
        } else if i < CLS_IS_END {
            qp.biases[(i - CLS_QTYPE_BIAS) / 256][i % 256]
        } else if i < CLS_TGROUP {
            if enders[i % 256] {
                1
            } else {
                0
            }
        } else if i < CLS_QGROUP {
            group_of_word(topics, (i % 256) as u8)
        } else if i < CLS_TOPIC_RECS {
            qgroups[i % 256]
        } else if i < CLS_QTYPE_RECS {
            let g: usize = (i - CLS_TOPIC_RECS) / 16;
            if g < n {
                tp.records[g][i % 16]
            } else {
                0
            }
        } else if i < CLS_GLOBAL_REC {
            let g: usize = (i - CLS_QTYPE_RECS) / 16;
            if g < N_QTYPES_MAX {
                qp.records[g][i % 16]
            } else {
                0
            }
        } else if i < CLS_GLOBAL_REC + 16 {
            global[i % 16]
        } else if i >= CLS_TONE && i - CLS_TONE < n {
            tone_of_group(topics, i - CLS_TONE)
        } else {
            0
        };
        assert(byte == cls_byte(b, i as int));
        cls.push(byte);
        assert(cls@ =~= cls_of(b).take(i + 1));
        i = i + 1;
    }
    assert(cls@ =~= cls_of(b));
    cls
}

/// Group bytes name groups that there are.
pub proof fn lemma_group_bytes(words: Seq<Seq<char>>, members: Seq<Seq<u8>>, n: int, k: int, w: u8)
    requires
        0 <= n <= 16,
        0 <= k <= 11,
    ensures
        tgroup_byte(members, n, w) <= n,
        qgroup_byte(words, k, w) <= k,
    decreases n + k,
{
    if n > 0 {
        lemma_group_bytes(words, members, n - 1, k, w);
    }
    if k > 0 {
        lemma_group_bytes(words, members, n, k - 1, w);
    }
}

} // verus!
