//! The word vocabulary: ids are places in a sorted list of words.

use vstd::prelude::*;
use crate::text::{
    char_ids, chars_of, ids_of, is_mark, is_word_char, lemma_run_end, run_end, split_words,
    string_of, texts, tokens_from, upper, uppered, words_of,
};

verus! {

/// Cap on vocabulary words baked into the ROM layout.
pub const MAX_WORDS: usize = 248;

/// Longest word the display takes.
pub const MAX_WORD_LEN: usize = 11;

// ---------------------------------------------------------------------------
// Dictionary order
// ---------------------------------------------------------------------------

/// Dictionary order of texts, by code points.
pub open spec fn lex_less(a: Seq<char>, b: Seq<char>) -> bool
    decreases a.len(),
{
    if b.len() == 0 {
        false
    } else if a.len() == 0 {
        true
    } else if a[0] != b[0] {
        a[0] < b[0]
    } else {
        lex_less(a.skip(1), b.skip(1))
    }
}

/// The order is irreflexive and total.
pub proof fn lemma_lex_total(a: Seq<char>, b: Seq<char>)
    ensures
        !lex_less(a, a),
        a == b || lex_less(a, b) || lex_less(b, a),
        !(lex_less(a, b) && lex_less(b, a)),
    decreases a.len(),
{
    if a.len() > 0 && b.len() > 0 {
        lemma_lex_total(a.skip(1), b.skip(1));
        if a[0] == b[0] && a.skip(1) == b.skip(1) {
            assert(a =~= seq![a[0]] + a.skip(1));
            assert(b =~= seq![b[0]] + b.skip(1));
        }
    } else if a.len() > 0 {
        lemma_lex_total(a.skip(1), b);
    } else {
        assert(b.len() == 0 ==> a =~= b);
    }
}

/// The order is transitive.
pub proof fn lemma_lex_trans(a: Seq<char>, b: Seq<char>, c: Seq<char>)
    requires
        lex_less(a, b),
        lex_less(b, c),
    ensures
        lex_less(a, c),
    decreases a.len(),
{
    if a.len() > 0 && a[0] == b[0] && b[0] == c[0] {
        lemma_lex_trans(a.skip(1), b.skip(1), c.skip(1));
    }
}

/// How two texts compare.
#[derive(Clone, Copy, PartialEq, Eq, Structural)]
pub enum Order {
    Less,
    Same,
    More,
}

fn order_chars(a: &[char], b: &[char]) -> (order: Order)
    ensures
        match order {
            Order::Less => lex_less(a@, b@),
            Order::Same => a@ == b@,
            Order::More => lex_less(b@, a@),
        },
{
    let mut i: usize = 0;
    assert(a@.skip(0) == a@);
    assert(b@.skip(0) == b@);
    while i < a.len() && i < b.len()
        invariant
            i <= a.len(),
            i <= b.len(),
            a@.take(i as int) == b@.take(i as int),
            lex_less(a@, b@) == lex_less(a@.skip(i as int), b@.skip(i as int)),
            lex_less(b@, a@) == lex_less(b@.skip(i as int), a@.skip(i as int)),
        decreases a.len() - i,
    {
        if a[i] < b[i] {
            return Order::Less;
        }
        if a[i] > b[i] {
            return Order::More;
        }
        assert(a@.skip(i as int).skip(1) == a@.skip(i + 1));
        assert(b@.skip(i as int).skip(1) == b@.skip(i + 1));
        assert(a@.take(i + 1) == a@.take(i as int).push(a@[i as int]));
        assert(b@.take(i + 1) == b@.take(i as int).push(b@[i as int]));
        i = i + 1;
    }
    if a.len() == b.len() {
        assert(a@.take(i as int) == a@);
        assert(b@.take(i as int) == b@);
        Order::Same
    } else if a.len() < b.len() {
        Order::Less
    } else {
        Order::More
    }
}

/// How two texts compare in dictionary order.
pub fn order_text(a: &str, b: &str) -> (order: Order)
    ensures
        match order {
            Order::Less => lex_less(a@, b@),
            Order::Same => a@ == b@,
            Order::More => lex_less(b@, a@),
        },
{
    order_chars(&chars_of(a), &chars_of(b))
}

/// Strictly increasing in dictionary order.
pub open spec fn sorted(words: Seq<Seq<char>>) -> bool {
    forall|i: int, j: int| 0 <= i < j < words.len() ==> lex_less(words[i], words[j])
}

/// In a sorted list, a word stands in one place only.
pub proof fn lemma_sorted_distinct(words: Seq<Seq<char>>, i: int, j: int)
    requires
        sorted(words),
        0 <= i < words.len(),
        0 <= j < words.len(),
        words[i] == words[j],
    ensures
        i == j,
{
    lemma_lex_total(words[i], words[j]);
}

// ---------------------------------------------------------------------------
// The vocabulary
// ---------------------------------------------------------------------------

/// Words by id: the id is the index, and the words are sorted.
pub struct WordVocab {
    pub words: Vec<String>,
}

impl View for WordVocab {
    type V = Seq<Seq<char>>;

    open spec fn view(&self) -> Seq<Seq<char>> {
        texts(self.words@)
    }
}

/// Sorted, and few enough for byte ids.
pub open spec fn vocab_sound(words: Seq<Seq<char>>) -> bool {
    sorted(words) && words.len() <= 256
}

/// The id of a word, `None` for a word outside the vocabulary.
pub open spec fn word_id(words: Seq<Seq<char>>, w: Seq<char>) -> Option<u8> {
    if words.contains(w) {
        Some(words.index_of(w) as u8)
    } else {
        None
    }
}

/// In a sorted vocabulary the id of the word at `i` is `i`.
pub proof fn lemma_word_id(words: Seq<Seq<char>>, i: int)
    requires
        vocab_sound(words),
        0 <= i < words.len(),
    ensures
        word_id(words, words[i]) == Some(i as u8),
{
    let j = words.index_of(words[i]);
    assert(words.contains(words[i]));
    lemma_sorted_distinct(words, i, j);
}

/// An id found is the place of the word.
pub proof fn lemma_word_id_place(words: Seq<Seq<char>>, w: Seq<char>)
    requires
        words.len() <= 256,
    ensures
        word_id(words, w) matches Some(i) ==> i < words.len() && words[i as int] == w,
{
    if words.contains(w) {
        let j = words.index_of(w);
        assert(0 <= j < words.len() && words[j] == w);
    }
}

/// Where `w` stands in a sorted list, or where it would have to stand.
pub fn search(words: &Vec<String>, w: &str) -> (place: Result<usize, usize>)
    ensures
        match place {
            Ok(i) => i < words@.len() && words@[i as int]@ == w@,
            Err(i) => i <= words@.len() && (sorted(texts(words@)) ==> {
                &&& forall|k: int| 0 <= k < i ==> lex_less(#[trigger] words@[k]@, w@)
                &&& forall|k: int| i <= k < words@.len() ==> lex_less(w@, #[trigger] words@[k]@)
            }),
        },
{
    let mut lo: usize = 0;
    let mut hi: usize = words.len();
    while lo < hi
        invariant
            lo <= hi <= words.len(),
            sorted(texts(words@)) ==> forall|k: int|
                0 <= k < lo ==> lex_less(#[trigger] words@[k]@, w@),
            sorted(texts(words@)) ==> forall|k: int|
                hi <= k < words@.len() ==> lex_less(w@, #[trigger] words@[k]@),
        decreases hi - lo,
    {
        let mid: usize = lo + (hi - lo) / 2;
        match order_text(words[mid].as_str(), w) {
            Order::Same => {
                return Ok(mid);
            },
            Order::Less => {
                proof {
                    if sorted(texts(words@)) {
                        assert forall|k: int| 0 <= k < mid + 1 implies lex_less(
                            #[trigger] words@[k]@,
                            w@,
                        ) by {
                            if k < mid {
                                assert(lex_less(texts(words@)[k], texts(words@)[mid as int]));
                                lemma_lex_trans(words@[k]@, words@[mid as int]@, w@);
                            }
                        }
                    }
                }
                lo = mid + 1;
            },
            Order::More => {
                proof {
                    if sorted(texts(words@)) {
                        assert forall|k: int| mid <= k < words@.len() implies lex_less(
                            w@,
                            #[trigger] words@[k]@,
                        ) by {
                            if k > mid {
                                assert(lex_less(texts(words@)[mid as int], texts(words@)[k]));
                                lemma_lex_trans(w@, words@[mid as int]@, words@[k]@);
                            }
                        }
                    }
                }
                hi = mid;
            },
        }
    }
    Err(lo)
}

/// The vocabulary's table of character data: per word its length and its
/// character ids.
pub open spec fn word_data(words: Seq<Seq<char>>) -> Seq<u8>
    decreases words.len(),
{
    if words.len() == 0 {
        seq![]
    } else {
        word_data(words.drop_last()).push((ids_of(words.last()).len() % 256) as u8) + ids_of(
            words.last(),
        )
    }
}

/// Where word `k` starts in the table, as a 16-bit offset; unused ids point at
/// offset 0.
pub open spec fn word_offset(words: Seq<Seq<char>>, k: int) -> int {
    if k < words.len() {
        word_data(words.take(k)).len() as int % 0x10000
    } else {
        0
    }
}

/// Serialized form: low offset bytes, high offset bytes, character data.
pub open spec fn vocab_bytes(words: Seq<Seq<char>>) -> Seq<u8> {
    Seq::new(MAX_WORDS as nat, |k: int| (word_offset(words, k) % 256) as u8) + Seq::new(
        MAX_WORDS as nat,
        |k: int| (word_offset(words, k) / 256) as u8,
    ) + word_data(words)
}

impl WordVocab {
    /// The id of a word.
    pub fn id(&self, w: &str) -> (id: Option<u8>)
        ensures
            vocab_sound(self@) ==> id == word_id(self@, w@),
            id matches Some(i) ==> exists|k: int|
                0 <= k < self@.len() && #[trigger] self@[k] == w@ && i == k % 256,
            id is None && sorted(self@) ==> !self@.contains(w@),
    {
        match search(&self.words, w) {
            Ok(i) => {
                proof {
                    assert(self@[i as int] == w@);
                    if vocab_sound(self@) {
                        lemma_word_id(self@, i as int);
                    }
                }
                Some((i % 256) as u8)
            },
            Err(i) => {
                proof {
                    if sorted(self@) && self@.contains(w@) {
                        let k = self@.index_of(w@);
                        assert(self.words@[k]@ == w@);
                        lemma_lex_total(w@, w@);
                    }
                }
                None
            },
        }
    }

    /// Serialized form for both hashing and the ROM's fixed bank. Offsets are
    /// relative to the start of the character data.
    pub fn to_bytes(&self) -> (out: Vec<u8>)
        ensures
            out@ == vocab_bytes(self@),
    {
        let mut data: Vec<u8> = Vec::new();
        let mut lo: Vec<u8> = Vec::new();
        let mut hi: Vec<u8> = Vec::new();
        let mut i: usize = 0;
        while i < self.words.len()
            invariant
                i <= self.words.len(),
                data@ == word_data(self@.take(i as int)),
                lo@.len() == i,
                hi@.len() == i,
                forall|k: int|
                    0 <= k < i ==> #[trigger] lo@[k] == (word_offset(self@, k) % 256) as u8,
                forall|k: int|
                    0 <= k < i ==> #[trigger] hi@[k] == (word_offset(self@, k) / 256) as u8,
            decreases self.words.len() - i,
        {
            let off: usize = data.len() % 0x10000;
            lo.push((off % 256) as u8);
            hi.push((off / 256) as u8);
            let mut ids = char_ids(self.words[i].as_str());
            proof {
                assert(self@.take(i + 1).drop_last() == self@.take(i as int));
                assert(self@.take(i + 1).last() == self.words@[i as int]@);
            }
            data.push((ids.len() % 256) as u8);
            data.append(&mut ids);
            i = i + 1;
        }
        assert(self@.take(i as int) == self@);
        let mut out: Vec<u8> = Vec::new();
        let mut k: usize = 0;
        while k < MAX_WORDS
            invariant
                k <= MAX_WORDS,
                i == self@.len(),
                lo@.len() == i,
                forall|j: int|
                    0 <= j < i ==> #[trigger] lo@[j] == (word_offset(self@, j) % 256) as u8,
                out@ == Seq::new(k as nat, |j: int| (word_offset(self@, j) % 256) as u8),
            decreases MAX_WORDS - k,
        {
            out.push(
                if k < lo.len() {
                    lo[k]
                } else {
                    0
                },
            );
            k = k + 1;
        }
        let ghost first = out@;
        k = 0;
        while k < MAX_WORDS
            invariant
                k <= MAX_WORDS,
                i == self@.len(),
                hi@.len() == i,
                forall|j: int|
                    0 <= j < i ==> #[trigger] hi@[j] == (word_offset(self@, j) / 256) as u8,
                out@ == first + Seq::new(k as nat, |j: int| (word_offset(self@, j) / 256) as u8),
            decreases MAX_WORDS - k,
        {
            out.push(
                if k < hi.len() {
                    hi[k]
                } else {
                    0
                },
            );
            k = k + 1;
        }
        out.append(&mut data);
        out
    }
}

/// The ids of the words that the vocabulary knows, in order.
pub open spec fn known_ids(words: Seq<Seq<char>>, list: Seq<Seq<char>>) -> Seq<u8>
    decreases list.len(),
{
    if list.len() == 0 {
        seq![]
    } else {
        match word_id(words, list.last()) {
            Some(i) => known_ids(words, list.drop_last()).push(i),
            None => known_ids(words, list.drop_last()),
        }
    }
}

/// Tokenizes text to word ids, silently dropping unknown words.
pub fn word_ids(vocab: &WordVocab, text: &str) -> (ids: Vec<u8>)
    ensures
        vocab_sound(vocab@) ==> ids@ == known_ids(vocab@, words_of(text@)),
        forall|k: int|
            0 <= k < ids@.len() ==> exists|j: int|
                0 <= j < vocab@.len() && #[trigger] ids@[k] == j % 256 && words_of(text@).contains(
                    #[trigger] vocab@[j],
                ),
{
    let list = split_words(text);
    let mut ids: Vec<u8> = Vec::new();
    let mut i: usize = 0;
    while i < list.len()
        invariant
            i <= list.len(),
            texts(list@) == words_of(text@),
            vocab_sound(vocab@) ==> ids@ == known_ids(vocab@, words_of(text@).take(i as int)),
            forall|k: int|
                0 <= k < ids@.len() ==> exists|j: int|
                    0 <= j < vocab@.len() && #[trigger] ids@[k] == j % 256 && words_of(
                        text@,
                    ).contains(#[trigger] vocab@[j]),
        decreases list.len() - i,
    {
        proof {
            assert(words_of(text@).take(i + 1).drop_last() == words_of(text@).take(i as int));
            assert(words_of(text@)[i as int] == list@[i as int]@);
        }
        if let Some(id) = vocab.id(list[i].as_str()) {
            ids.push(id);
        }
        i = i + 1;
    }
    assert(words_of(text@).take(i as int) == words_of(text@));
    ids
}

/// Whether a word is punctuation.
pub open spec fn is_punct(w: Seq<char>) -> bool {
    w.len() == 1 && is_mark(w[0])
}

/// Whether a word is punctuation.
pub fn is_punct_text(w: &str) -> (yes: bool)
    ensures
        yes == is_punct(w@),
{
    let c = chars_of(w);
    c.len() == 1 && (c[0] == '.' || c[0] == ',' || c[0] == '!' || c[0] == '?')
}

/// Words joined to a text: a blank before every word but the first and
/// punctuation; ids outside the vocabulary are left out.
pub open spec fn joined(words: Seq<Seq<char>>, ids: Seq<u8>) -> Seq<char>
    decreases ids.len(),
{
    if ids.len() == 0 {
        seq![]
    } else {
        let before = joined(words, ids.drop_last());
        if ids.last() >= words.len() {
            before
        } else {
            let w = words[ids.last() as int];
            if before.len() > 0 && !is_punct(w) {
                before.push(' ') + w
            } else {
                before + w
            }
        }
    }
}

/// The text of a list of word ids.
pub fn words_to_text(vocab: &WordVocab, ids: &[u8]) -> (text: String)
    ensures
        text@ == joined(vocab@, ids@),
{
    let mut out: Vec<char> = Vec::new();
    let mut i: usize = 0;
    while i < ids.len()
        invariant
            i <= ids.len(),
            out@ == joined(vocab@, ids@.take(i as int)),
        decreases ids.len() - i,
    {
        assert(ids@.take(i + 1).drop_last() == ids@.take(i as int));
        let id: usize = ids[i] as usize;
        if id < vocab.words.len() {
            let w = vocab.words[id].as_str();
            if out.len() > 0 && !is_punct_text(w) {
                out.push(' ');
            }
            let mut c = chars_of(w);
            out.append(&mut c);
        }
        i = i + 1;
    }
    assert(ids@.take(i as int) == ids@);
    string_of(&out)
}

// ---------------------------------------------------------------------------
// Texts and ids
// ---------------------------------------------------------------------------

/// A run of word characters, or a single mark.
pub open spec fn is_single(w: Seq<char>) -> bool {
    &&& w.len() > 0
    &&& (forall|i: int| 0 <= i < w.len() ==> is_word_char(#[trigger] w[i])) || (w.len() == 1
        && is_mark(w[0]))
}

proof fn lemma_run_joined(a: Seq<char>, b: Seq<char>, i: int)
    requires
        0 <= i <= a.len(),
        b.len() > 0,
        !is_word_char(b[0]),
    ensures
        run_end(a + b, i) == run_end(a, i),
    decreases a.len() - i,
{
    if i < a.len() {
        assert((a + b)[i] == a[i]);
        lemma_run_joined(a, b, i + 1);
    } else {
        assert((a + b)[i] == b[0]);
    }
}

/// The words of a text end where something follows that joins no word.
proof fn lemma_tokens_joined(a: Seq<char>, b: Seq<char>, i: int)
    requires
        0 <= i <= a.len(),
        b.len() > 0,
        !is_word_char(b[0]),
    ensures
        tokens_from(a + b, i) == tokens_from(a, i) + tokens_from(a + b, a.len() as int),
    decreases a.len() - i,
{
    let rest = tokens_from(a + b, a.len() as int);
    if i < a.len() {
        assert((a + b)[i] == a[i]);
        if is_word_char(a[i]) {
            let j = run_end(a, i + 1);
            lemma_run_end(a, i + 1);
            lemma_run_joined(a, b, i + 1);
            lemma_tokens_joined(a, b, j);
            assert((a + b).subrange(i, j) =~= a.subrange(i, j));
            let part = seq![a.subrange(i, j)];
            assert(part + (tokens_from(a, j) + rest) =~= (part + tokens_from(a, j)) + rest);
        } else {
            lemma_tokens_joined(a, b, i + 1);
            if is_mark(a[i]) {
                let part = seq![seq![a[i]]];
                assert(part + (tokens_from(a, i + 1) + rest) =~= (part + tokens_from(a, i + 1))
                    + rest);
            }
        }
    } else {
        assert(tokens_from(a, i) =~= Seq::<Seq<char>>::empty());
        assert(tokens_from(a, i) + rest =~= rest);
    }
}

proof fn lemma_run_to_end(s: Seq<char>, i: int)
    requires
        0 <= i <= s.len(),
        forall|k: int| i <= k < s.len() ==> is_word_char(#[trigger] s[k]),
    ensures
        run_end(s, i) == s.len(),
    decreases s.len() - i,
{
    if i < s.len() {
        lemma_run_to_end(s, i + 1);
    }
}

/// A single word at the end of a text is its last word.
proof fn lemma_last_token(a: Seq<char>, w: Seq<char>)
    requires
        is_single(w),
    ensures
        tokens_from(a + w, a.len() as int) == seq![w],
{
    let s = a + w;
    let n = a.len() as int;
    assert(s[n] == w[0]);
    assert(tokens_from(s, s.len() as int) =~= Seq::<Seq<char>>::empty());
    if is_word_char(w[0]) {
        assert forall|k: int| n <= k < s.len() implies is_word_char(#[trigger] s[k]) by {
            assert(s[k] == w[k - n]);
        }
        lemma_run_to_end(s, n + 1);
        assert(s.subrange(n, s.len() as int) =~= w);
        assert(tokens_from(s, n) =~= seq![w]);
    } else {
        assert(w.len() == 1 && is_mark(w[0]));
        assert(seq![s[n]] =~= w);
        assert(tokens_from(s, n) =~= seq![w]);
    }
}

/// The words of a joined text are the words that were joined, and it is in upper
/// case.
proof fn lemma_joined_words(words: Seq<Seq<char>>, ids: Seq<u8>)
    requires
        forall|i: int| 0 <= i < words.len() ==> is_single(#[trigger] words[i]),
        forall|i: int| 0 <= i < ids.len() ==> #[trigger] ids[i] < words.len(),
    ensures
        uppered(joined(words, ids)) == joined(words, ids),
        words_of(joined(words, ids)) == Seq::new(ids.len(), |i: int| words[ids[i] as int]),
    decreases ids.len(),
{
    let all = Seq::new(ids.len(), |i: int| words[ids[i] as int]);
    let text = joined(words, ids);
    if ids.len() == 0 {
        assert(uppered(text) =~= text);
        assert(words_of(text) =~= all);
    } else {
        let rest = ids.drop_last();
        assert forall|i: int| 0 <= i < rest.len() implies #[trigger] rest[i] < words.len() by {
            assert(rest[i] == ids[i]);
        }
        lemma_joined_words(words, rest);
        let before = joined(words, rest);
        let w = words[ids.last() as int];
        assert(is_single(w));
        assert(ids.last() == ids[ids.len() - 1]);
        assert forall|i: int| 0 <= i < w.len() implies upper(#[trigger] w[i]) == w[i] by {
            assert(is_word_char(w[i]) || is_mark(w[i]));
        }
        assert forall|i: int| 0 <= i < text.len() implies upper(#[trigger] text[i]) == text[i] by {
            if i < before.len() {
                assert(text[i] == before[i]);
                assert(uppered(before)[i] == before[i]);
            } else if text.len() == before.len() + w.len() {
                assert(text[i] == w[i - before.len()]);
            } else if i > before.len() {
                assert(text[i] == w[i - before.len() - 1]);
            }
        }
        assert(uppered(text) =~= text);
        let init = Seq::new(rest.len(), |i: int| words[rest[i] as int]);
        if before.len() == 0 {
            assert(text =~= before + w);
            lemma_last_token(before, w);
            assert(uppered(before) =~= before);
            assert(words_of(before) =~= Seq::<Seq<char>>::empty());
            assert(rest.len() == init.len());
        } else if is_punct(w) {
            assert(text =~= before + w);
            lemma_tokens_joined(before, w, 0);
            lemma_last_token(before, w);
        } else {
            let gap = seq![' '];
            let spaced = before.push(' ');
            assert(spaced =~= before + gap);
            assert(text =~= spaced + w);
            assert(text =~= before + (gap + w));
            assert((gap + w)[0] == ' ');
            lemma_tokens_joined(before, gap + w, 0);
            assert(text[before.len() as int] == ' ');
            lemma_last_token(spaced, w);
            assert(tokens_from(text, before.len() as int) == tokens_from(
                text,
                spaced.len() as int,
            ));
        }
        assert(words_of(text) =~= init + seq![w]);
        assert(all =~= init + seq![w]);
    }
}

/// The ids that are ids of words.
pub open spec fn ids_in(words: Seq<Seq<char>>, ids: Seq<u8>) -> Seq<u8> {
    ids.filter(|i: u8| i < words.len())
}

/// Only ids of words show in a text.
proof fn lemma_joined_in(words: Seq<Seq<char>>, ids: Seq<u8>)
    ensures
        joined(words, ids_in(words, ids)) == joined(words, ids),
        forall|i: int|
            0 <= i < ids_in(words, ids).len() ==> #[trigger] ids_in(words, ids)[i] < words.len(),
        (forall|i: int| 0 <= i < ids.len() ==> #[trigger] ids[i] < words.len()) ==> ids_in(
            words,
            ids,
        ) == ids,
    decreases ids.len(),
{
    reveal(Seq::filter);
    if ids.len() > 0 {
        let rest = ids.drop_last();
        let kept = ids_in(words, rest);
        lemma_joined_in(words, rest);
        if ids.last() < words.len() {
            assert(ids_in(words, ids) == kept.push(ids.last()));
            assert(kept.push(ids.last()).drop_last() =~= kept);
        }
        if forall|i: int| 0 <= i < ids.len() ==> #[trigger] ids[i] < words.len() {
            assert forall|i: int| 0 <= i < rest.len() implies #[trigger] rest[i] < words.len() by {
                assert(rest[i] == ids[i]);
            }
            assert(ids[ids.len() - 1] < words.len());
            assert(rest.push(ids.last()) =~= ids);
        }
    }
}

/// Reading a text of word ids back gives the ids that are ids of words, in order;
/// where all of them are, it gives the ids.
pub proof fn law_words_roundtrip(words: Seq<Seq<char>>, ids: Seq<u8>)
    requires
        vocab_sound(words),
        forall|i: int| 0 <= i < words.len() ==> is_single(#[trigger] words[i]),
    ensures
        known_ids(words, words_of(joined(words, ids))) == ids_in(words, ids),
        (forall|i: int| 0 <= i < ids.len() ==> #[trigger] ids[i] < words.len()) ==> known_ids(
            words,
            words_of(joined(words, ids)),
        ) == ids,
{
    let kept = ids_in(words, ids);
    lemma_joined_in(words, ids);
    lemma_joined_words(words, kept);
    lemma_known_back(words, kept);
}

proof fn lemma_known_back(words: Seq<Seq<char>>, ids: Seq<u8>)
    requires
        vocab_sound(words),
        forall|i: int| 0 <= i < ids.len() ==> #[trigger] ids[i] < words.len(),
    ensures
        known_ids(words, Seq::new(ids.len(), |i: int| words[ids[i] as int])) == ids,
    decreases ids.len(),
{
    let all = Seq::new(ids.len(), |i: int| words[ids[i] as int]);
    if ids.len() > 0 {
        let rest = ids.drop_last();
        assert forall|i: int| 0 <= i < rest.len() implies #[trigger] rest[i] < words.len() by {
            assert(rest[i] == ids[i]);
        }
        lemma_known_back(words, rest);
        assert(all.drop_last() =~= Seq::new(rest.len(), |i: int| words[rest[i] as int]));
        assert(ids.last() == ids[ids.len() - 1]);
        lemma_word_id(words, ids.last() as int);
        assert(known_ids(words, all) =~= ids);
    } else {
        assert(known_ids(words, all) =~= ids);
    }
}

} // verus!
