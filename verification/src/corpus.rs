//! The corpus: its vocabulary, its words as ids, the transition tables counted
//! from them, and its sentences.

use vstd::prelude::*;
use crate::model::{BI_LEN, NO_WORD, TRI_LEN};
use crate::records::{
    countable, law_record_empty, lemma_occurrences, lemma_occurrences_front,
    lemma_occurrences_joined, lemma_occurrences_matched, occurrences, record, record_of, MAX_COUNT,
};
use crate::text::{split_words, texts, words_of};
use crate::vocab::{
    is_punct, is_punct_text, lemma_lex_total, lemma_lex_trans, lemma_sorted_distinct,
    lemma_word_id, lemma_word_id_place, lex_less, search, sorted, word_id, WordVocab, MAX_WORDS,
};

verus! {

// ---------------------------------------------------------------------------
// Vocabulary
// ---------------------------------------------------------------------------

/// `words` is the sorted list of the different tokens.
pub open spec fn is_vocabulary(words: Seq<Seq<char>>, toks: Seq<Seq<char>>) -> bool {
    sorted(words) && forall|w: Seq<char>| #[trigger] words.contains(w) <==> toks.contains(w)
}

/// The vocabulary of a list of tokens.
pub open spec fn vocabulary(toks: Seq<Seq<char>>) -> Seq<Seq<char>> {
    choose|words: Seq<Seq<char>>| is_vocabulary(words, toks)
}

/// Sorted lists of the same words are the same list.
proof fn lemma_sorted_unique(a: Seq<Seq<char>>, b: Seq<Seq<char>>)
    requires
        sorted(a),
        sorted(b),
        forall|w: Seq<char>| #[trigger] a.contains(w) <==> b.contains(w),
    ensures
        a == b,
    decreases a.len(),
{
    if a.len() == 0 {
        if b.len() > 0 {
            assert(b.contains(b[0]));
            assert(a.contains(b[0]));
        }
        assert(a =~= b);
    } else {
        assert(a.contains(a[0]));
        assert(b.contains(a[0]));
        let j = b.index_of(a[0]);
        assert(b.contains(b[0]));
        assert(a.contains(b[0]));
        let i = a.index_of(b[0]);
        if a[0] != b[0] {
            assert(lex_less(a[0], a[i]));
            assert(lex_less(b[0], b[j]));
            lemma_lex_total(a[0], b[0]);
        }
        let a1 = a.skip(1);
        let b1 = b.skip(1);
        assert forall|w: Seq<char>| #[trigger] a1.contains(w) <==> b1.contains(w) by {
            if a1.contains(w) {
                let k = a1.index_of(w);
                assert(a[k + 1] == w && lex_less(a[0], a[k + 1]));
                lemma_lex_total(a[0], a[0]);
                assert(a.contains(w));
                let l = b.index_of(w);
                assert(l > 0);
                assert(b1[l - 1] == w);
            }
            if b1.contains(w) {
                let k = b1.index_of(w);
                assert(b[k + 1] == w && lex_less(b[0], b[k + 1]));
                lemma_lex_total(b[0], b[0]);
                assert(b.contains(w));
                assert(a.contains(w));
                let l = a.index_of(w);
                assert(l > 0);
                assert(a1[l - 1] == w);
            }
        }
        lemma_sorted_unique(a1, b1);
        assert(a =~= seq![a[0]] + a1);
        assert(b =~= seq![b[0]] + b1);
    }
}

/// A list has one vocabulary.
pub proof fn lemma_vocabulary(words: Seq<Seq<char>>, toks: Seq<Seq<char>>)
    requires
        is_vocabulary(words, toks),
    ensures
        vocabulary(toks) == words,
{
    let chosen = vocabulary(toks);
    assert(is_vocabulary(chosen, toks));
    assert forall|w: Seq<char>| #[trigger] chosen.contains(w) <==> words.contains(w) by {
        assert(words.contains(w) <==> toks.contains(w));
    }
    lemma_sorted_unique(chosen, words);
}

/// Inserting a new word in its place keeps a list sorted.
proof fn lemma_insert(words: Seq<Seq<char>>, place: int, w: Seq<char>)
    requires
        sorted(words),
        0 <= place <= words.len(),
        forall|k: int| 0 <= k < place ==> lex_less(#[trigger] words[k], w),
        forall|k: int| place <= k < words.len() ==> lex_less(w, #[trigger] words[k]),
    ensures
        sorted(words.insert(place, w)),
        forall|x: Seq<char>|
            #[trigger] words.insert(place, w).contains(x) <==> words.contains(x) || x == w,
{
    let new = words.insert(place, w);
    assert forall|i: int, j: int| 0 <= i < j < new.len() implies lex_less(new[i], new[j]) by {
        let a = if i < place {
            i
        } else {
            i - 1
        };
        let b = if j < place {
            j
        } else {
            j - 1
        };
        if i == place {
            assert(lex_less(w, words[b]));
        } else if j == place {
            assert(lex_less(words[a], w));
        } else {
            assert(lex_less(words[a], words[b]));
        }
    }
    assert forall|x: Seq<char>| #[trigger] new.contains(x) <==> words.contains(x) || x == w by {
        if words.contains(x) {
            let k = words.index_of(x);
            if k < place {
                assert(new[k] == x);
            } else {
                assert(new[k + 1] == x);
            }
        }
        if x == w {
            assert(new[place] == x);
        }
        if new.contains(x) {
            let k = new.index_of(x);
            if k < place {
                assert(words[k] == x);
            } else if k > place {
                assert(words[k - 1] == x);
            }
        }
    }
}

/// Where a new word has to stand in a sorted list.
proof fn lemma_place_exists(words: Seq<Seq<char>>, w: Seq<char>) -> (place: int)
    requires
        sorted(words),
        !words.contains(w),
    ensures
        0 <= place <= words.len(),
        forall|k: int| 0 <= k < place ==> lex_less(#[trigger] words[k], w),
        forall|k: int| place <= k < words.len() ==> lex_less(w, #[trigger] words[k]),
    decreases words.len(),
{
    if words.len() == 0 {
        0
    } else {
        let last = words[words.len() - 1];
        assert(words.contains(last));
        lemma_lex_total(last, w);
        if lex_less(last, w) {
            assert forall|k: int| 0 <= k < words.len() implies lex_less(#[trigger] words[k], w) by {
                if k < words.len() - 1 {
                    assert(lex_less(words[k], words[words.len() - 1]));
                    lemma_lex_trans(words[k], last, w);
                }
            }
            words.len() as int
        } else {
            let rest = words.drop_last();
            if rest.contains(w) {
                let i = rest.index_of(w);
                assert(words[i] == w);
            }
            let place = lemma_place_exists(rest, w);
            assert forall|k: int| 0 <= k < place implies lex_less(#[trigger] words[k], w) by {
                assert(words[k] == rest[k]);
            }
            assert forall|k: int| place <= k < words.len() implies lex_less(
                w,
                #[trigger] words[k],
            ) by {
                assert(k < rest.len() ==> words[k] == rest[k]);
            }
            place
        }
    }
}

/// One more token: the vocabulary stays, or gets the token as a new word.
pub proof fn lemma_vocabulary_grows(words: Seq<Seq<char>>, toks: Seq<Seq<char>>, w: Seq<char>)
    requires
        is_vocabulary(words, toks),
    ensures
        is_vocabulary(vocabulary(toks.push(w)), toks.push(w)),
{
    assert forall|x: Seq<char>| #[trigger] toks.push(w).contains(x) <==> toks.contains(x) || x
        == w by {
        lemma_push_contains(toks, w, x);
    }
    if words.contains(w) {
        assert(is_vocabulary(words, toks.push(w)));
    } else {
        let place = lemma_place_exists(words, w);
        lemma_insert(words, place, w);
        assert(is_vocabulary(words.insert(place, w), toks.push(w)));
    }
}

/// The vocabulary of a list of tokens.
pub fn collect_vocabulary(toks: &Vec<String>) -> (vocab: WordVocab)
    ensures
        vocab@ == vocabulary(texts(toks@)),
        is_vocabulary(vocab@, texts(toks@)),
{
    let mut words: Vec<String> = Vec::new();
    let ghost all = texts(toks@);
    let mut i: usize = 0;
    while i < toks.len()
        invariant
            i <= toks.len(),
            all == texts(toks@),
            is_vocabulary(texts(words@), all.take(i as int)),
        decreases toks.len() - i,
    {
        let ghost before = texts(words@);
        let w = toks[i].as_str();
        let place = search(&words, w);
        proof {
            assert(all.take(i + 1) =~= all.take(i as int).push(w@));
            assert forall|x: Seq<char>|
                #[trigger] all.take(i + 1).contains(x) <==> all.take(i as int).contains(x) || x
                    == w@ by {
                lemma_push_contains(all.take(i as int), w@, x);
            }
        }
        match place {
            Ok(k) => {
                proof {
                    assert(before[k as int] == w@);
                    assert(before.contains(w@));
                }
            },
            Err(k) => {
                proof {
                    assert forall|j: int| 0 <= j < k implies lex_less(
                        #[trigger] before[j],
                        w@,
                    ) by {
                        assert(lex_less(words@[j]@, w@));
                    }
                    assert forall|j: int| k <= j < before.len() implies lex_less(
                        w@,
                        #[trigger] before[j],
                    ) by {
                        assert(lex_less(w@, words@[j]@));
                    }
                    lemma_insert(before, k as int, w@);
                }
                words.insert(k, toks[i].clone());
                assert(texts(words@) =~= before.insert(k as int, w@));
            },
        }
        i = i + 1;
    }
    assert(all.take(i as int) == all);
    proof {
        lemma_vocabulary(texts(words@), all);
    }
    WordVocab { words }
}

proof fn lemma_push_contains(s: Seq<Seq<char>>, w: Seq<char>, x: Seq<char>)
    ensures
        s.push(w).contains(x) <==> s.contains(x) || x == w,
{
    if s.contains(x) {
        assert(s.push(w)[s.index_of(x)] == x);
    }
    if x == w {
        assert(s.push(w)[s.len() as int] == x);
    }
    if s.push(w).contains(x) {
        let k = s.push(w).index_of(x);
        if k < s.len() {
            assert(s[k] == x);
        }
    }
}

/// Tokens as word ids.
pub open spec fn token_ids(words: Seq<Seq<char>>, toks: Seq<Seq<char>>) -> Seq<u8> {
    Seq::new(toks.len(), |i: int| word_id(words, toks[i])->Some_0)
}

/// Every token has an id, and it is the id of a word.
pub proof fn lemma_token_ids(words: Seq<Seq<char>>, toks: Seq<Seq<char>>)
    requires
        is_vocabulary(words, toks),
        words.len() <= 256,
    ensures
        forall|i: int|
            0 <= i < toks.len() ==> (#[trigger] token_ids(words, toks)[i]) < words.len()
                && words[token_ids(words, toks)[i] as int] == toks[i],
        forall|w: int|
            0 <= w < words.len() ==> #[trigger] token_ids(words, toks).contains(w as u8),
{
    assert forall|i: int| 0 <= i < toks.len() implies (#[trigger] token_ids(words, toks)[i])
        < words.len() && words[token_ids(words, toks)[i] as int] == toks[i] by {
        assert(toks.contains(toks[i]));
        assert(words.contains(toks[i]));
        lemma_word_id_place(words, toks[i]);
    }
    assert forall|w: int| 0 <= w < words.len() implies #[trigger] token_ids(words, toks).contains(
        w as u8,
    ) by {
        assert(words.contains(words[w]));
        assert(toks.contains(words[w]));
        let i = toks.index_of(words[w]);
        lemma_word_id(words, w);
        assert(token_ids(words, toks)[i] == w as u8);
    }
}

/// Ids of words can be counted where the words can.
pub proof fn lemma_ids_countable(words: Seq<Seq<char>>, toks: Seq<Seq<char>>)
    requires
        is_vocabulary(words, toks),
        words.len() <= 256,
        countable(toks),
    ensures
        countable(token_ids(words, toks)),
{
    let ids = token_ids(words, toks);
    lemma_token_ids(words, toks);
    assert forall|t: u8| #[trigger] occurrences(ids, t) <= MAX_COUNT by {
        if t < words.len() {
            lemma_occurrences_matched(ids, t, toks, words[t as int]);
        } else {
            lemma_occurrences(ids, t);
        }
    }
}

/// Whether every word of a corpus occurs at most `MAX_COUNT` times.
pub fn is_countable(corpus: &str) -> (ok: bool)
    ensures
        ok == countable(words_of(corpus@)),
{
    let toks = split_words(corpus);
    let vocab = collect_vocabulary(&toks);
    let mut counts = zeros(vocab.words.len());
    let ghost all = words_of(corpus@);
    let ghost words = vocab@;
    let mut i: usize = 0;
    while i < toks.len()
        invariant
            i <= toks.len(),
            all == texts(toks@),
            all == words_of(corpus@),
            words == vocab@,
            is_vocabulary(words, all),
            counts@.len() == words.len(),
            forall|k: int|
                0 <= k < words.len() ==> #[trigger] counts@[k] == occurrences(
                    all.take(i as int),
                    words[k],
                ) && counts@[k] <= MAX_COUNT,
        decreases toks.len() - i,
    {
        let ghost w = all[i as int];
        let ghost before = counts@;
        proof {
            assert(all.take(i + 1).drop_last() =~= all.take(i as int));
            assert(all.take(i + 1).last() == w);
            assert(all.contains(w));
            assert(words.contains(w));
        }
        match search(&vocab.words, toks[i].as_str()) {
            Ok(k) => {
                assert(words[k as int] == w);
                if counts[k] == MAX_COUNT {
                    proof {
                        lemma_occurrences_front(all, i + 1, w);
                    }
                    return false;
                }
                counts[k] = counts[k] + 1;
                assert forall|j: int| 0 <= j < words.len() implies #[trigger] counts@[j]
                    == occurrences(all.take(i + 1), words[j]) && counts@[j] <= MAX_COUNT by {
                    assert(before[j] == occurrences(all.take(i as int), words[j]));
                    if words[j] == w {
                        lemma_sorted_distinct(words, j, k as int);
                    }
                }
            },
            Err(_) => {
                proof {
                    let k = words.index_of(w);
                    assert(words[k] == vocab.words@[k]@);
                    lemma_lex_total(w, w);
                }
                assert(false);
            },
        }
        i = i + 1;
    }
    proof {
        assert(all.take(i as int) =~= all);
        assert forall|w: Seq<char>| #[trigger] occurrences(all, w) <= MAX_COUNT by {
            lemma_occurrences(all, w);
            if all.contains(w) {
                assert(words.contains(w));
                let k = words.index_of(w);
                assert(counts@[k] == occurrences(all, words[k]));
            }
        }
    }
    true
}

/// The tokens as word ids.
pub fn ids_of_tokens(vocab: &WordVocab, toks: &Vec<String>) -> (ids: Vec<u8>)
    requires
        is_vocabulary(vocab@, texts(toks@)),
        vocab@.len() <= 256,
    ensures
        ids@ == token_ids(vocab@, texts(toks@)),
{
    let mut ids: Vec<u8> = Vec::new();
    let mut i: usize = 0;
    while i < toks.len()
        invariant
            i <= toks.len(),
            is_vocabulary(vocab@, texts(toks@)),
            vocab@.len() <= 256,
            ids@ == token_ids(vocab@, texts(toks@)).take(i as int),
        decreases toks.len() - i,
    {
        proof {
            let t = texts(toks@)[i as int];
            assert(texts(toks@).contains(t));
            assert(vocab@.contains(t));
        }
        match vocab.id(toks[i].as_str()) {
            Some(id) => ids.push(id),
            None => {
                assert(false);
            },
        }
        i = i + 1;
    }
    assert(ids@ == token_ids(vocab@, texts(toks@)));
    ids
}

/// Which ids are punctuation.
pub open spec fn marks_of(words: Seq<Seq<char>>) -> Seq<bool> {
    Seq::new(256, |t: int| t < words.len() && is_punct(words[t]))
}

/// Which ids are punctuation.
pub fn punctuation_marks(vocab: &WordVocab) -> (marks: Vec<bool>)
    ensures
        marks@ == marks_of(vocab@),
{
    let mut marks: Vec<bool> = Vec::new();
    let mut t: usize = 0;
    while t < 256
        invariant
            t <= 256,
            marks@ == marks_of(vocab@).take(t as int),
        decreases 256 - t,
    {
        marks.push(t < vocab.words.len() && is_punct_text(vocab.words[t].as_str()));
        t = t + 1;
    }
    assert(marks@ =~= marks_of(vocab@));
    marks
}

// ---------------------------------------------------------------------------
// Transitions
// ---------------------------------------------------------------------------

/// All runs of three words.
pub open spec fn triples_of(ids: Seq<u8>) -> Seq<(u8, u8, u8)> {
    Seq::new(
        if ids.len() >= 2 {
            (ids.len() - 2) as nat
        } else {
            0
        },
        |i: int| (ids[i], ids[i + 1], ids[i + 2]),
    )
}

/// All runs of two words.
pub open spec fn pairs_of(ids: Seq<u8>) -> Seq<(u8, u8)> {
    Seq::new(
        if ids.len() >= 1 {
            (ids.len() - 1) as nat
        } else {
            0
        },
        |i: int| (ids[i], ids[i + 1]),
    )
}

/// How often each word follows two others.
pub open spec fn tri_counts(ids: Seq<u8>, a: u8, b: u8) -> Seq<u32> {
    Seq::new(256, |c: int| occurrences(triples_of(ids), (a, b, c as u8)) as u32)
}

/// How often each word follows another.
pub open spec fn bi_counts(ids: Seq<u8>, a: u8) -> Seq<u32> {
    Seq::new(256, |b: int| occurrences(pairs_of(ids), (a, b as u8)) as u32)
}

/// How often each word occurs.
pub open spec fn word_counts(ids: Seq<u8>) -> Seq<u32> {
    Seq::new(256, |t: int| occurrences(ids, t as u8) as u32)
}

/// The trigram table: the record of each context.
pub open spec fn tri_table(ids: Seq<u8>, marks: Seq<bool>) -> Seq<u8> {
    Seq::new(
        TRI_LEN as nat,
        |i: int|
            record_of(tri_counts(ids, (i / 4096) as u8, (i / 16 % 256) as u8), marks)[i % 16],
    )
}

/// The bigram table: the record of each word.
pub open spec fn bi_table(ids: Seq<u8>, marks: Seq<bool>) -> Seq<u8> {
    Seq::new(
        BI_LEN as nat,
        |i: int| record_of(bi_counts(ids, (i / 16) as u8), marks)[i % 16],
    )
}

/// The contexts of the trigrams.
pub open spec fn tri_contexts(ids: Seq<u8>) -> Seq<(u8, u8)> {
    Seq::new(triples_of(ids).len(), |i: int| (ids[i], ids[i + 1]))
}

/// The contexts of the bigrams.
pub open spec fn bi_contexts(ids: Seq<u8>) -> Seq<u8> {
    Seq::new(pairs_of(ids).len(), |i: int| ids[i])
}

/// Triples and pairs occur no more often than their last words.
pub proof fn lemma_transitions(ids: Seq<u8>, a: u8, b: u8, c: u8)
    ensures
        occurrences(triples_of(ids), (a, b, c)) <= occurrences(ids, c),
        occurrences(pairs_of(ids), (b, c)) <= occurrences(ids, c),
{
    if ids.len() >= 2 {
        let behind = ids.skip(2);
        lemma_occurrences_joined(ids.take(2), behind, c);
        assert(ids.take(2) + behind =~= ids);
        lemma_occurrences_matched(triples_of(ids), (a, b, c), behind, c);
    }
    if ids.len() >= 1 {
        let behind = ids.skip(1);
        lemma_occurrences_joined(ids.take(1), behind, c);
        assert(ids.take(1) + behind =~= ids);
        lemma_occurrences_matched(pairs_of(ids), (b, c), behind, c);
    }
}

/// A trigram record is empty exactly where the context does not occur.
pub proof fn lemma_tri_record(ids: Seq<u8>, marks: Seq<bool>, a: u8, b: u8)
    requires
        countable(ids),
        marks.len() == 256,
        forall|i: int| 0 <= i < ids.len() ==> #[trigger] ids[i] != NO_WORD,
    ensures
        record_of(tri_counts(ids, a, b), marks)[0] != NO_WORD <==> tri_contexts(ids).contains(
            (a, b),
        ),
        forall|c: int| 0 <= c < 256 ==> #[trigger] tri_counts(ids, a, b)[c] <= MAX_COUNT,
{
    let counts = tri_counts(ids, a, b);
    let all = triples_of(ids);
    assert forall|c: int| 0 <= c < 256 implies #[trigger] counts[c] <= MAX_COUNT && (counts[c] > 0
        <==> all.contains((a, b, c as u8))) by {
        lemma_occurrences(all, (a, b, c as u8));
        lemma_transitions(ids, a, b, c as u8);
    }
    if all.contains((a, b, NO_WORD)) {
        let i = all.index_of((a, b, NO_WORD));
        assert(ids[i + 2] == NO_WORD);
    }
    assert(counts[NO_WORD as int] == 0);
    law_record_empty(counts, marks);
    if tri_contexts(ids).contains((a, b)) {
        let i = tri_contexts(ids).index_of((a, b));
        assert(all[i] == (a, b, ids[i + 2]));
        assert(all.contains((a, b, ids[i + 2])));
        assert(counts[ids[i + 2] as int] > 0);
    }
    if record_of(counts, marks)[0] != NO_WORD {
        let c = choose|c: u8| counts[c as int] != 0;
        assert(all.contains((a, b, c)));
        let i = all.index_of((a, b, c));
        assert(tri_contexts(ids)[i] == (a, b));
    }
}

/// A bigram record is empty exactly where the word has no successor.
pub proof fn lemma_bi_record(ids: Seq<u8>, marks: Seq<bool>, a: u8)
    requires
        countable(ids),
        marks.len() == 256,
        forall|i: int| 0 <= i < ids.len() ==> #[trigger] ids[i] != NO_WORD,
    ensures
        record_of(bi_counts(ids, a), marks)[0] != NO_WORD <==> bi_contexts(ids).contains(a),
        forall|c: int| 0 <= c < 256 ==> #[trigger] bi_counts(ids, a)[c] <= MAX_COUNT,
{
    let counts = bi_counts(ids, a);
    let all = pairs_of(ids);
    assert forall|c: int| 0 <= c < 256 implies #[trigger] counts[c] <= MAX_COUNT && (counts[c] > 0
        <==> all.contains((a, c as u8))) by {
        lemma_occurrences(all, (a, c as u8));
        lemma_transitions(ids, a, a, c as u8);
    }
    if all.contains((a, NO_WORD)) {
        let i = all.index_of((a, NO_WORD));
        assert(ids[i + 1] == NO_WORD);
    }
    assert(counts[NO_WORD as int] == 0);
    law_record_empty(counts, marks);
    if bi_contexts(ids).contains(a) {
        let i = bi_contexts(ids).index_of(a);
        assert(all[i] == (a, ids[i + 1]));
        assert(all.contains((a, ids[i + 1])));
        assert(counts[ids[i + 1] as int] > 0);
    }
    if record_of(counts, marks)[0] != NO_WORD {
        let c = choose|c: u8| counts[c as int] != 0;
        assert(all.contains((a, c)));
        let i = all.index_of((a, c));
        assert(bi_contexts(ids)[i] == a);
    }
}

fn zeros(n: usize) -> (cells: Vec<u32>)
    ensures
        cells@ == Seq::new(n as nat, |i: int| 0u32),
{
    let mut cells: Vec<u32> = Vec::new();
    let mut i: usize = 0;
    while i < n
        invariant
            i <= n,
            cells@ == Seq::new(i as nat, |i: int| 0u32),
        decreases n - i,
    {
        cells.push(0);
        i = i + 1;
    }
    cells
}

/// How often each pair of words follows `a`, a row of 256 per first word.
fn cells_after(ids: &Vec<u8>, a: u8) -> (cells: Vec<u32>)
    requires
        countable(ids@),
    ensures
        cells@.len() == 0x10000,
        forall|j: int|
            0 <= j < 0x10000 ==> #[trigger] cells@[j] == occurrences(
                triples_of(ids@),
                (a, (j / 256) as u8, (j % 256) as u8),
            ),
{
    let mut cells = zeros(0x10000);
    let ghost all = triples_of(ids@);
    let mut i: usize = 0;
    while i < ids.len() && ids.len() - i > 2
        invariant
            i <= all.len(),
            countable(ids@),
            all == triples_of(ids@),
            cells@.len() == 0x10000,
            forall|j: int|
                0 <= j < 0x10000 ==> #[trigger] cells@[j] == occurrences(
                    all.take(i as int),
                    (a, (j / 256) as u8, (j % 256) as u8),
                ),
        decreases ids.len() - i,
    {
        let ghost before = cells@;
        proof {
            assert(all.take(i + 1).drop_last() =~= all.take(i as int));
            assert(all.take(i + 1).last() == all[i as int]);
        }
        if ids[i] == a {
            let j: usize = ids[i + 1] as usize * 256 + ids[i + 2] as usize;
            proof {
                let x = (a, (j as int / 256) as u8, (j as int % 256) as u8);
                lemma_occurrences_front(all, i as int, x);
                lemma_transitions(ids@, x.0, x.1, x.2);
            }
            cells[j] = cells[j] + 1;
        }
        assert forall|k: int| 0 <= k < 0x10000 implies #[trigger] cells@[k] == occurrences(
            all.take(i + 1),
            (a, (k / 256) as u8, (k % 256) as u8),
        ) by {
            assert(before[k] == occurrences(
                all.take(i as int),
                (a, (k / 256) as u8, (k % 256) as u8),
            ));
        }
        i = i + 1;
    }
    assert(all.take(i as int) =~= all);
    cells
}

/// How often each pair of words occurs, a row of 256 per first word.
fn pair_cells(ids: &Vec<u8>) -> (cells: Vec<u32>)
    requires
        countable(ids@),
    ensures
        cells@.len() == 0x10000,
        forall|j: int|
            0 <= j < 0x10000 ==> #[trigger] cells@[j] == occurrences(
                pairs_of(ids@),
                ((j / 256) as u8, (j % 256) as u8),
            ),
{
    let mut cells = zeros(0x10000);
    let ghost all = pairs_of(ids@);
    let mut i: usize = 0;
    while i < ids.len() && ids.len() - i > 1
        invariant
            i <= all.len(),
            countable(ids@),
            all == pairs_of(ids@),
            cells@.len() == 0x10000,
            forall|j: int|
                0 <= j < 0x10000 ==> #[trigger] cells@[j] == occurrences(
                    all.take(i as int),
                    ((j / 256) as u8, (j % 256) as u8),
                ),
        decreases ids.len() - i,
    {
        let ghost before = cells@;
        let j: usize = ids[i] as usize * 256 + ids[i + 1] as usize;
        proof {
            assert(all.take(i + 1).drop_last() =~= all.take(i as int));
            assert(all.take(i + 1).last() == all[i as int]);
            let x = ((j as int / 256) as u8, (j as int % 256) as u8);
            lemma_occurrences_front(all, i as int, x);
            lemma_transitions(ids@, 0, x.0, x.1);
        }
        cells[j] = cells[j] + 1;
        assert forall|k: int| 0 <= k < 0x10000 implies #[trigger] cells@[k] == occurrences(
            all.take(i + 1),
            ((k / 256) as u8, (k % 256) as u8),
        ) by {
            assert(before[k] == occurrences(
                all.take(i as int),
                ((k / 256) as u8, (k % 256) as u8),
            ));
        }
        i = i + 1;
    }
    assert(all.take(i as int) =~= all);
    cells
}

/// How often each word occurs in a list.
pub fn count_words(list: &Vec<u8>) -> (counts: Vec<u32>)
    requires
        countable(list@),
    ensures
        counts@ == word_counts(list@),
        forall|t: int| 0 <= t < 256 ==> #[trigger] counts@[t] <= MAX_COUNT,
{
    let mut counts = zeros(256);
    let mut i: usize = 0;
    while i < list.len()
        invariant
            i <= list.len(),
            countable(list@),
            counts@.len() == 256,
            forall|t: int|
                0 <= t < 256 ==> #[trigger] counts@[t] == occurrences(
                    list@.take(i as int),
                    t as u8,
                ),
        decreases list.len() - i,
    {
        let ghost before = counts@;
        let j: usize = list[i] as usize;
        proof {
            assert(list@.take(i + 1).drop_last() =~= list@.take(i as int));
            lemma_occurrences_front(list@, i as int, j as u8);
        }
        counts[j] = counts[j] + 1;
        assert forall|t: int| 0 <= t < 256 implies #[trigger] counts@[t] == occurrences(
            list@.take(i + 1),
            t as u8,
        ) by {
            assert(before[t] == occurrences(list@.take(i as int), t as u8));
        }
        i = i + 1;
    }
    assert(list@.take(i as int) =~= list@);
    assert(counts@ =~= word_counts(list@));
    counts
}

/// The trigram records of the contexts that start with `a`, appended to the
/// table, and how many of them are not empty.
fn push_rows(
    tri: &mut Vec<u8>,
    ids: &Vec<u8>,
    marks: &Vec<bool>,
    a: u8,
    Ghost(seen): Ghost<Set<(u8, u8)>>,
) -> (out: (usize, Ghost<Set<(u8, u8)>>))
    requires
        a < MAX_WORDS,
        countable(ids@),
        marks@.len() == 256,
        forall|i: int| 0 <= i < ids@.len() ==> #[trigger] ids@[i] != NO_WORD,
        old(tri)@ == tri_table(ids@, marks@).take(a * 4096),
        seen.finite(),
        seen == tri_contexts(ids@).to_set().filter(|p: (u8, u8)| p.0 < a),
    ensures
        final(tri)@ == tri_table(ids@, marks@).take((a + 1) * 4096),
        out.1@.finite(),
        out.1@ == tri_contexts(ids@).to_set().filter(|p: (u8, u8)| p.0 < a + 1),
        out.1@.len() == seen.len() + out.0,
        out.0 <= 256,
{
    let cells = cells_after(ids, a);
    let ghost mut now = seen;
    let ghost table = tri_table(ids@, marks@);
    let ghost contexts = tri_contexts(ids@);
    let mut n: usize = 0;
    let mut b: usize = 0;
    assert(now =~= contexts.to_set().filter(|p: (u8, u8)| p.0 < a || (p.0 == a && p.1 < b)));
    while b < 256
        invariant
            b <= 256,
            a < MAX_WORDS,
            n <= b,
            countable(ids@),
            marks@.len() == 256,
            forall|i: int| 0 <= i < ids@.len() ==> #[trigger] ids@[i] != NO_WORD,
            cells@.len() == 0x10000,
            forall|j: int|
                0 <= j < 0x10000 ==> #[trigger] cells@[j] == occurrences(
                    triples_of(ids@),
                    (a, (j / 256) as u8, (j % 256) as u8),
                ),
            table == tri_table(ids@, marks@),
            contexts == tri_contexts(ids@),
            tri@ == table.take(a * 4096 + b * 16),
            now.finite(),
            now == contexts.to_set().filter(|p: (u8, u8)| p.0 < a || (p.0 == a && p.1 < b)),
            now.len() == seen.len() + n,
        decreases 256 - b,
    {
        let row = &cells[b * 256..b * 256 + 256];
        let ghost counts = tri_counts(ids@, a, b as u8);
        proof {
            assert forall|c: int| 0 <= c < 256 implies row@[c] == #[trigger] counts[c] by {
                let j = b * 256 + c;
                assert(row@[c] == cells@[j]);
                assert(j / 256 == b && j % 256 == c);
            }
            assert(row@ =~= counts);
            lemma_tri_record(ids@, marks@, a, b as u8);
        }
        let mut rec = record(row, marks);
        let ghost had = now;
        if rec[0] != NO_WORD {
            n = n + 1;
            proof {
                now = now.insert((a, b as u8));
            }
        }
        proof {
            let p = (a, b as u8);
            assert(contexts.to_set().contains(p) <==> contexts.contains(p));
            assert(now =~= contexts.to_set().filter(
                |p: (u8, u8)| p.0 < a || (p.0 == a && p.1 < b + 1),
            ));
            let at = a * 4096 + b * 16;
            assert forall|k: int| 0 <= k < 16 implies #[trigger] rec@[k] == table[at + k] by {
                assert((at + k) / 4096 == a && (at + k) / 16 % 256 == b && (at + k) % 16 == k);
            }
        }
        let ghost before = tri@;
        let ghost piece = rec@;
        tri.append(&mut rec);
        assert(tri@ =~= table.take(a * 4096 + (b + 1) * 16)) by {
            assert(tri@ == before + piece);
        }
        b = b + 1;
    }
    assert(now =~= contexts.to_set().filter(|p: (u8, u8)| p.0 < a + 1));
    (n, Ghost(now))
}

/// The trigram table of the corpus, and how many contexts it has.
pub fn trigram_table(ids: &Vec<u8>, marks: &Vec<bool>) -> (out: (Vec<u8>, usize))
    requires
        countable(ids@),
        marks@.len() == 256,
        forall|i: int| 0 <= i < ids@.len() ==> #[trigger] ids@[i] < MAX_WORDS,
    ensures
        out.0@ == tri_table(ids@, marks@),
        out.1 == tri_contexts(ids@).to_set().len(),
{
    let mut tri: Vec<u8> = Vec::new();
    let ghost contexts = tri_contexts(ids@);
    let ghost mut seen: Set<(u8, u8)> = Set::empty();
    assert(seen =~= contexts.to_set().filter(|p: (u8, u8)| p.0 < 0));
    let mut n: usize = 0;
    let mut a: usize = 0;
    while a < MAX_WORDS
        invariant
            a <= MAX_WORDS,
            n <= a * 256,
            countable(ids@),
            marks@.len() == 256,
            forall|i: int| 0 <= i < ids@.len() ==> #[trigger] ids@[i] < MAX_WORDS,
            contexts == tri_contexts(ids@),
            tri@ == tri_table(ids@, marks@).take(a * 4096),
            seen.finite(),
            seen == contexts.to_set().filter(|p: (u8, u8)| p.0 < a),
            seen.len() == n,
        decreases MAX_WORDS - a,
    {
        let (more, Ghost(now)) = push_rows(&mut tri, ids, marks, a as u8, Ghost(seen));
        proof {
            seen = now;
        }
        n = n + more;
        a = a + 1;
    }
    proof {
        assert forall|p: (u8, u8)| contexts.to_set().contains(p) implies p.0 < MAX_WORDS by {
            let i = contexts.index_of(p);
            assert(contexts.contains(p));
            assert(ids@[i] == p.0);
        }
        assert(seen =~= contexts.to_set());
        assert(tri@ =~= tri_table(ids@, marks@));
    }
    (tri, n)
}

/// The bigram table of the corpus, and how many words have a successor.
pub fn bigram_table(ids: &Vec<u8>, marks: &Vec<bool>) -> (out: (Vec<u8>, usize))
    requires
        countable(ids@),
        marks@.len() == 256,
        forall|i: int| 0 <= i < ids@.len() ==> #[trigger] ids@[i] < MAX_WORDS,
    ensures
        out.0@ == bi_table(ids@, marks@),
        out.1 == bi_contexts(ids@).to_set().len(),
{
    let cells = pair_cells(ids);
    let mut bi: Vec<u8> = Vec::new();
    let ghost table = bi_table(ids@, marks@);
    let ghost contexts = bi_contexts(ids@);
    let ghost mut seen: Set<u8> = Set::empty();
    assert(seen =~= contexts.to_set().filter(|p: u8| p < 0));
    let mut n: usize = 0;
    let mut a: usize = 0;
    while a < MAX_WORDS
        invariant
            a <= MAX_WORDS,
            n <= a,
            countable(ids@),
            marks@.len() == 256,
            forall|i: int| 0 <= i < ids@.len() ==> #[trigger] ids@[i] < MAX_WORDS,
            cells@.len() == 0x10000,
            forall|j: int|
                0 <= j < 0x10000 ==> #[trigger] cells@[j] == occurrences(
                    pairs_of(ids@),
                    ((j / 256) as u8, (j % 256) as u8),
                ),
            table == bi_table(ids@, marks@),
            contexts == bi_contexts(ids@),
            bi@ == table.take(a * 16),
            seen.finite(),
            seen == contexts.to_set().filter(|p: u8| p < a),
            seen.len() == n,
        decreases MAX_WORDS - a,
    {
        let row = &cells[a * 256..a * 256 + 256];
        let ghost counts = bi_counts(ids@, a as u8);
        proof {
            assert forall|c: int| 0 <= c < 256 implies row@[c] == #[trigger] counts[c] by {
                let j = a * 256 + c;
                assert(row@[c] == cells@[j]);
                assert(j / 256 == a && j % 256 == c);
            }
            assert(row@ =~= counts);
            lemma_bi_record(ids@, marks@, a as u8);
        }
        let mut rec = record(row, marks);
        if rec[0] != NO_WORD {
            n = n + 1;
            proof {
                seen = seen.insert(a as u8);
            }
        }
        proof {
            assert(contexts.to_set().contains(a as u8) <==> contexts.contains(a as u8));
            assert(seen =~= contexts.to_set().filter(|p: u8| p < a + 1));
            assert forall|k: int| 0 <= k < 16 implies #[trigger] rec@[k] == table[a * 16 + k] by {
                assert((a * 16 + k) / 16 == a && (a * 16 + k) % 16 == k);
            }
        }
        let ghost before = bi@;
        let ghost piece = rec@;
        bi.append(&mut rec);
        assert(bi@ =~= table.take((a + 1) * 16)) by {
            assert(bi@ == before + piece);
        }
        a = a + 1;
    }
    proof {
        assert forall|p: u8| contexts.to_set().contains(p) implies p < MAX_WORDS by {
            let i = contexts.index_of(p);
            assert(contexts.contains(p));
            assert(ids@[i] == p);
        }
        assert(seen =~= contexts.to_set());
        assert(bi@ =~= table);
    }
    (bi, n)
}

} // verus!
