//! Sentences of the corpus, and the words that go with a topic or answer a type
//! of question.

use vstd::prelude::*;
use crate::bytes::has_byte;
use crate::model::NO_WORD;
use crate::corpus::{pairs_of, triples_of};
use crate::records::{lemma_occurrences_joined, occurrences};
use crate::text::chars_of;
use crate::vocab::WordVocab;

verus! {

/// Words that end a sentence.
pub open spec fn ends_sentence(w: Seq<char>) -> bool {
    w.len() == 1 && (w[0] == '.' || w[0] == '!' || w[0] == '?')
}

/// Which ids end a sentence.
pub open spec fn enders_of(words: Seq<Seq<char>>) -> Seq<bool> {
    Seq::new(256, |t: int| t < words.len() && ends_sentence(words[t]))
}

/// Finished sentences, and the words of the unfinished last one.
pub open spec fn cut(ids: Seq<u8>, enders: Seq<bool>) -> (Seq<Seq<u8>>, Seq<u8>)
    decreases ids.len(),
{
    if ids.len() == 0 {
        (seq![], seq![])
    } else {
        let (done, open) = cut(ids.drop_last(), enders);
        if enders[ids.last() as int] {
            (done.push(open.push(ids.last())), seq![])
        } else {
            (done, open.push(ids.last()))
        }
    }
}

/// The sentences of the corpus; words behind the last sentence end are one too.
pub open spec fn sentences_of(ids: Seq<u8>, enders: Seq<bool>) -> Seq<Seq<u8>> {
    let (done, open) = cut(ids, enders);
    if open.len() > 0 {
        done.push(open)
    } else {
        done
    }
}

/// All sentences joined.
pub open spec fn flat(sents: Seq<Seq<u8>>) -> Seq<u8>
    decreases sents.len(),
{
    if sents.len() == 0 {
        seq![]
    } else {
        flat(sents.drop_last()) + sents.last()
    }
}

proof fn lemma_cut(ids: Seq<u8>, enders: Seq<bool>)
    ensures
        flat(cut(ids, enders).0) + cut(ids, enders).1 == ids,
        forall|i: int|
            0 <= i < cut(ids, enders).0.len() ==> (#[trigger] cut(ids, enders).0[i]).len() > 0,
    decreases ids.len(),
{
    if ids.len() > 0 {
        lemma_cut(ids.drop_last(), enders);
        let (done, open) = cut(ids.drop_last(), enders);
        assert(ids =~= ids.drop_last().push(ids.last()));
        if enders[ids.last() as int] {
            let more = done.push(open.push(ids.last()));
            assert(more.drop_last() =~= done);
            assert(flat(more) + Seq::<u8>::empty() =~= ids);
        } else {
            assert(flat(done) + open.push(ids.last()) =~= ids);
        }
    } else {
        assert(flat(seq![]) + Seq::<u8>::empty() =~= ids);
    }
}

/// The sentences joined are the corpus, and none is empty.
pub proof fn law_sentences_cover(ids: Seq<u8>, enders: Seq<bool>)
    ensures
        flat(sentences_of(ids, enders)) == ids,
        forall|i: int|
            0 <= i < sentences_of(ids, enders).len() ==> (#[trigger] sentences_of(ids, enders)[i]).len()
                > 0,
{
    lemma_cut(ids, enders);
    let (done, open) = cut(ids, enders);
    if open.len() > 0 {
        assert(done.push(open).drop_last() =~= done);
    } else {
        assert(flat(done) =~= flat(done) + open);
    }
}

/// Whether a sentence has a member of a topic group in it.
pub open spec fn touches(sent: Seq<u8>, members: Seq<u8>) -> bool {
    exists|i: int| 0 <= i < sent.len() && members.contains(#[trigger] sent[i])
}

/// The words of all sentences with a member in them.
pub open spec fn topic_tokens(sents: Seq<Seq<u8>>, members: Seq<u8>) -> Seq<u8>
    decreases sents.len(),
{
    if sents.len() == 0 {
        seq![]
    } else {
        let before = topic_tokens(sents.drop_last(), members);
        if touches(sents.last(), members) {
            before + sents.last()
        } else {
            before
        }
    }
}

/// Whether a sentence is a question with a word among its first three.
pub open spec fn asks(sent: Seq<u8>, id: u8, qmark: u8) -> bool {
    &&& sent.len() > 0
    &&& sent.last() == qmark
    &&& exists|i: int| 0 <= i < 3 && i < sent.len() && #[trigger] sent[i] == id
}

/// The words of all sentences that follow such a question.
pub open spec fn answer_tokens(sents: Seq<Seq<u8>>, id: u8, qmark: u8) -> Seq<u8>
    decreases sents.len(),
{
    if sents.len() < 2 {
        seq![]
    } else {
        let before = answer_tokens(sents.drop_last(), id, qmark);
        if asks(sents[sents.len() - 2], id, qmark) {
            before + sents.last()
        } else {
            before
        }
    }
}

/// The words that go with a topic or with a question type occur no more often
/// among those words than in all sentences.
pub proof fn lemma_selected_counts(
    sents: Seq<Seq<u8>>,
    members: Seq<u8>,
    id: u8,
    qmark: u8,
    t: u8,
)
    ensures
        occurrences(topic_tokens(sents, members), t) <= occurrences(flat(sents), t),
        occurrences(answer_tokens(sents, id, qmark), t) <= occurrences(flat(sents), t),
    decreases sents.len(),
{
    if sents.len() > 0 {
        let rest = sents.drop_last();
        lemma_selected_counts(rest, members, id, qmark, t);
        lemma_occurrences_joined(flat(rest), sents.last(), t);
        lemma_occurrences_joined(topic_tokens(rest, members), sents.last(), t);
        lemma_occurrences_joined(answer_tokens(rest, id, qmark), sents.last(), t);
    }
}

/// Training examples: every trigram, then every pair with no word before it.
pub open spec fn examples_of(ids: Seq<u8>) -> Seq<(u8, u8, u8)> {
    triples_of(ids) + Seq::new(
        pairs_of(ids).len(),
        |i: int| (NO_WORD, pairs_of(ids)[i].0, pairs_of(ids)[i].1),
    )
}

/// The contents of a list of word lists.
pub open spec fn lists(list: Seq<Vec<u8>>) -> Seq<Seq<u8>> {
    Seq::new(list.len(), |i: int| list[i]@)
}

/// Which ids end a sentence.
pub fn sentence_enders(vocab: &WordVocab) -> (enders: Vec<bool>)
    ensures
        enders@ == enders_of(vocab@),
{
    let mut enders: Vec<bool> = Vec::new();
    let mut t: usize = 0;
    while t < 256
        invariant
            t <= 256,
            enders@ == enders_of(vocab@).take(t as int),
        decreases 256 - t,
    {
        let mut ends = false;
        if t < vocab.words.len() {
            let c = chars_of(vocab.words[t].as_str());
            ends = c.len() == 1 && (c[0] == '.' || c[0] == '!' || c[0] == '?');
        }
        enders.push(ends);
        t = t + 1;
    }
    assert(enders@ =~= enders_of(vocab@));
    enders
}

/// The sentences of the corpus.
pub fn split_sentences(ids: &Vec<u8>, enders: &Vec<bool>) -> (sents: Vec<Vec<u8>>)
    requires
        enders@.len() == 256,
    ensures
        lists(sents@) == sentences_of(ids@, enders@),
{
    let mut sents: Vec<Vec<u8>> = Vec::new();
    let mut open: Vec<u8> = Vec::new();
    assert(lists(sents@) =~= Seq::<Seq<u8>>::empty());
    let mut i: usize = 0;
    while i < ids.len()
        invariant
            i <= ids.len(),
            enders@.len() == 256,
            (lists(sents@), open@) == cut(ids@.take(i as int), enders@),
        decreases ids.len() - i,
    {
        let ghost before = lists(sents@);
        assert(ids@.take(i + 1).drop_last() =~= ids@.take(i as int));
        open.push(ids[i]);
        if enders[ids[i] as usize] {
            let ghost sent = open@;
            sents.push(open);
            assert(lists(sents@) =~= before.push(sent));
            open = Vec::new();
        }
        i = i + 1;
    }
    assert(ids@.take(i as int) =~= ids@);
    if open.len() > 0 {
        let ghost before = lists(sents@);
        let ghost sent = open@;
        sents.push(open);
        assert(lists(sents@) =~= before.push(sent));
    }
    sents
}

fn touches_any(sent: &Vec<u8>, members: &Vec<u8>) -> (yes: bool)
    ensures
        yes == touches(sent@, members@),
{
    let mut i: usize = 0;
    while i < sent.len()
        invariant
            i <= sent.len(),
            forall|k: int| 0 <= k < i ==> !members@.contains(#[trigger] sent@[k]),
        decreases sent.len() - i,
    {
        if has_byte(members, sent[i]) {
            return true;
        }
        i = i + 1;
    }
    false
}

fn asks_with(sent: &Vec<u8>, id: u8, qmark: u8) -> (yes: bool)
    ensures
        yes == asks(sent@, id, qmark),
{
    if sent.len() == 0 || sent[sent.len() - 1] != qmark {
        return false;
    }
    let mut i: usize = 0;
    while i < 3 && i < sent.len()
        invariant
            i <= sent.len(),
            sent@.len() > 0,
            sent@.last() == qmark,
            forall|k: int| 0 <= k < i ==> #[trigger] sent@[k] != id,
        decreases sent.len() - i,
    {
        if sent[i] == id {
            return true;
        }
        i = i + 1;
    }
    false
}

/// The words of all sentences with a member in them.
pub fn words_near(sents: &Vec<Vec<u8>>, members: &Vec<u8>) -> (words: Vec<u8>)
    ensures
        words@ == topic_tokens(lists(sents@), members@),
{
    let mut words: Vec<u8> = Vec::new();
    let ghost all = lists(sents@);
    let mut i: usize = 0;
    while i < sents.len()
        invariant
            i <= sents.len(),
            all == lists(sents@),
            words@ == topic_tokens(all.take(i as int), members@),
        decreases sents.len() - i,
    {
        proof {
            assert(all.take(i + 1).drop_last() =~= all.take(i as int));
            assert(all.take(i + 1).last() == sents@[i as int]@);
        }
        if touches_any(&sents[i], members) {
            words.extend_from_slice(&sents[i]);
        }
        i = i + 1;
    }
    assert(all.take(i as int) =~= all);
    words
}

/// The words of all sentences that follow a question with `id` in front.
pub fn words_answering(sents: &Vec<Vec<u8>>, id: u8, qmark: u8) -> (words: Vec<u8>)
    ensures
        words@ == answer_tokens(lists(sents@), id, qmark),
{
    let mut words: Vec<u8> = Vec::new();
    let ghost all = lists(sents@);
    if sents.len() < 2 {
        return words;
    }
    let mut i: usize = 1;
    while i < sents.len()
        invariant
            1 <= i <= sents.len(),
            all == lists(sents@),
            words@ == answer_tokens(all.take(i as int), id, qmark),
        decreases sents.len() - i,
    {
        proof {
            assert(all.take(i + 1).drop_last() =~= all.take(i as int));
            assert(all.take(i + 1).last() == sents@[i as int]@);
            assert(all.take(i + 1)[i - 1] == sents@[i - 1]@);
        }
        if asks_with(&sents[i - 1], id, qmark) {
            words.extend_from_slice(&sents[i]);
        }
        i = i + 1;
    }
    assert(all.take(i as int) =~= all);
    words
}

/// The training examples of the corpus.
pub fn training_examples(ids: &Vec<u8>) -> (examples: Vec<(u8, u8, u8)>)
    ensures
        examples@ == examples_of(ids@),
{
    let mut examples: Vec<(u8, u8, u8)> = Vec::new();
    let mut i: usize = 0;
    while i < ids.len() && ids.len() - i > 2
        invariant
            i <= triples_of(ids@).len(),
            examples@ == triples_of(ids@).take(i as int),
        decreases ids.len() - i,
    {
        examples.push((ids[i], ids[i + 1], ids[i + 2]));
        i = i + 1;
    }
    let ghost first = examples@;
    assert(first =~= triples_of(ids@));
    let ghost rest = Seq::new(
        pairs_of(ids@).len(),
        |i: int| (NO_WORD, pairs_of(ids@)[i].0, pairs_of(ids@)[i].1),
    );
    i = 0;
    while i < ids.len() && ids.len() - i > 1
        invariant
            i <= pairs_of(ids@).len(),
            rest == Seq::new(
                pairs_of(ids@).len(),
                |i: int| (NO_WORD, pairs_of(ids@)[i].0, pairs_of(ids@)[i].1),
            ),
            examples@ == first + rest.take(i as int),
        decreases ids.len() - i,
    {
        examples.push((NO_WORD, ids[i], ids[i + 1]));
        assert(examples@ =~= first + rest.take(i + 1));
        i = i + 1;
    }
    assert(rest.take(i as int) =~= rest);
    examples
}

} // verus!
