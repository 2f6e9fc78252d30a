//! Parsing what was typed: words of the typing buffer, the stem matcher, and
//! what they say about the question.

use vstd::prelude::*;
use crate::bytes::same_bytes;
use crate::model::{
    qgroup_of, tgroup_of, Model, ModelView, CLS_LEN, TONE_EMPTY, TONE_GREETING, TONE_NONSENSE,
    TONE_NORMAL, TONE_TECHNICAL,
};
use crate::text::{
    char_id, char_ids, find_char, folded, ids_of, is_mark, is_white, is_word_char, lemma_alphabet,
    lemma_char_id, lemma_folded, lemma_run_end, run_end, same_text, tile_char, tokens_from, upper,
    uppered, words_of, N_CHARS, VOCAB,
};

verus! {

/// Character classes: 0 separates (blank, `-`), 1 joins into words, 2 is a
/// punctuation word.
pub open spec fn class(id: u8) -> u8 {
    if id == 37 || id == 38 || id == 41 || id == 42 {
        2
    } else if 1 <= id <= 36 || id == 39 {
        1
    } else {
        0
    }
}

fn class_of(id: u8) -> (c: u8)
    ensures
        c == class(id),
{
    if id == 37 || id == 38 || id == 41 || id == 42 {
        2
    } else if (1 <= id && id <= 36) || id == 39 {
        1
    } else {
        0
    }
}

/// Where the run of word characters that `i` lies in ends.
pub open spec fn typed_run_end(typed: Seq<u8>, i: int) -> int
    decreases typed.len() - i,
{
    if 0 <= i < typed.len() && class(typed[i]) == 1 {
        typed_run_end(typed, i + 1)
    } else {
        i
    }
}

/// A run ends within the buffer.
pub proof fn lemma_typed_run_end(typed: Seq<u8>, i: int)
    requires
        0 <= i <= typed.len(),
    ensures
        i <= typed_run_end(typed, i) <= typed.len(),
    decreases typed.len() - i,
{
    if i < typed.len() && class(typed[i]) == 1 {
        lemma_typed_run_end(typed, i + 1);
    }
}

/// The typed words from `i` on: maximal runs of word characters and single
/// punctuation characters.
pub open spec fn typed_words(typed: Seq<u8>, i: int) -> Seq<Seq<u8>>
    decreases typed.len() - i,
{
    if i < 0 || i >= typed.len() {
        seq![]
    } else if class(typed[i]) == 2 {
        seq![seq![typed[i]]] + typed_words(typed, i + 1)
    } else if class(typed[i]) == 1 {
        proof {
            lemma_typed_run_end(typed, i + 1);
        }
        seq![typed.subrange(i, typed_run_end(typed, i + 1))] + typed_words(
            typed,
            typed_run_end(typed, i + 1),
        )
    } else {
        typed_words(typed, i + 1)
    }
}

/// The first of the first `n` words that is spelled `c`.
pub open spec fn first_spelled(words: Seq<Seq<char>>, c: Seq<u8>, n: int) -> Option<u8>
    decreases n,
{
    if n <= 0 {
        None
    } else {
        match first_spelled(words, c, n - 1) {
            Some(i) => Some(i),
            None => if ids_of(words[n - 1]) == c {
                Some((n - 1) as u8)
            } else {
                None
            },
        }
    }
}

/// The vocabulary word spelled `c`.
pub open spec fn exact_of(words: Seq<Seq<char>>, c: Seq<u8>) -> Option<u8> {
    first_spelled(words, c, words.len() as int)
}

/// Whether a vocabulary word of at least four characters is a proper prefix.
pub open spec fn is_stem(word: Seq<char>, c: Seq<u8>) -> bool {
    let w = ids_of(word);
    4 <= w.len() < c.len() && c.take(w.len() as int) == w
}

/// The longest stem of `c` among the first `n` words, the first one of its
/// length, with its length.
pub open spec fn longest_stem(words: Seq<Seq<char>>, c: Seq<u8>, n: int) -> Option<(int, u8)>
    decreases n,
{
    if n <= 0 {
        None
    } else {
        let before = longest_stem(words, c, n - 1);
        let len = ids_of(words[n - 1]).len() as int;
        if is_stem(words[n - 1], c) && (before matches Some((l, _)) ==> len > l) {
            Some((len, (n - 1) as u8))
        } else {
            before
        }
    }
}

/// The stem matcher: an exact match; else, with a final S, an exact match without
/// it; else the longest stem.
pub open spec fn stem_of(words: Seq<Seq<char>>, c: Seq<u8>) -> Option<u8> {
    let stripped = if c.len() > 0 && char_id('S') == Some(c.last()) {
        exact_of(words, c.drop_last())
    } else {
        None
    };
    if exact_of(words, c) is Some {
        exact_of(words, c)
    } else if stripped is Some {
        stripped
    } else {
        match longest_stem(words, c, words.len() as int) {
            Some((_, w)) => Some(w),
            None => None,
        }
    }
}

/// The ids of the words that the stem matcher finds.
pub open spec fn known_of(words: Seq<Seq<char>>, list: Seq<Seq<u8>>) -> Seq<u8>
    decreases list.len(),
{
    if list.len() == 0 {
        seq![]
    } else {
        match stem_of(words, list.last()) {
            Some(w) => known_of(words, list.drop_last()).push(w),
            None => known_of(words, list.drop_last()),
        }
    }
}

/// The question-type group of the first known word that has one.
pub open spec fn first_qgroup(m: ModelView, known: Seq<u8>) -> Option<u8>
    decreases known.len(),
{
    if known.len() == 0 {
        None
    } else {
        match first_qgroup(m, known.drop_last()) {
            Some(g) => Some(g),
            None => qgroup_of(m, known.last()),
        }
    }
}

/// The topic group of the last known word that has one.
pub open spec fn last_tgroup(m: ModelView, known: Seq<u8>) -> Option<u8>
    decreases known.len(),
{
    if known.len() == 0 {
        None
    } else {
        match tgroup_of(m, known.last()) {
            Some(g) => Some(g),
            None => last_tgroup(m, known.drop_last()),
        }
    }
}

/// The tone of a question: empty, nonsense, or that of its topic.
pub open spec fn tone_of(m: ModelView, any: bool, known: Seq<u8>, topic: Option<u8>) -> u8 {
    if known.len() == 0 && !any {
        TONE_EMPTY
    } else if known.len() == 0 {
        TONE_NONSENSE
    } else {
        match topic {
            None => TONE_NORMAL,
            Some(t) => if t < m.topic_names.len() && m.topic_names[t as int] == "GREETING"@ {
                TONE_GREETING
            } else if t < m.topic_tech.len() && m.topic_tech[t as int] {
                TONE_TECHNICAL
            } else {
                TONE_NORMAL
            },
        }
    }
}

/// What parsing gives: known words, question-type group, topic group, tone.
pub open spec fn parsed(m: ModelView, typed: Seq<u8>) -> (Seq<u8>, Option<u8>, Option<u8>, u8) {
    let list = typed_words(typed, 0);
    let known = known_of(m.words, list);
    let topic = last_tgroup(m, known);
    (known, first_qgroup(m, known), topic, tone_of(m, list.len() > 0, known, topic))
}

proof fn lemma_first_spelled_stays(words: Seq<Seq<char>>, c: Seq<u8>, k: int, n: int)
    requires
        k <= n,
        first_spelled(words, c, k) is Some,
    ensures
        first_spelled(words, c, n) == first_spelled(words, c, k),
    decreases n - k,
{
    if k < n && n > 0 {
        lemma_first_spelled_stays(words, c, k, n - 1);
    }
}

fn find_exact(model: &Model, chars: &[u8]) -> (w: Option<u8>)
    requires
        model@.words.len() <= 256,
    ensures
        w == exact_of(model@.words, chars@),
{
    let mut i: usize = 0;
    while i < model.vocab.words.len()
        invariant
            i <= model@.words.len() <= 256,
            first_spelled(model@.words, chars@, i as int) is None,
        decreases model@.words.len() - i,
    {
        let ids = char_ids(model.vocab.words[i].as_str());
        if same_bytes(&ids, chars) {
            proof {
                lemma_first_spelled_stays(
                    model@.words,
                    chars@,
                    i + 1,
                    model@.words.len() as int,
                );
            }
            return Some(i as u8);
        }
        i = i + 1;
    }
    None
}

fn find_stem(model: &Model, chars: &[u8]) -> (w: Option<u8>)
    requires
        model@.words.len() <= 256,
    ensures
        match longest_stem(model@.words, chars@, model@.words.len() as int) {
            Some((_, best)) => w == Some(best),
            None => w is None,
        },
{
    let mut best: Option<(usize, u8)> = None;
    let mut i: usize = 0;
    while i < model.vocab.words.len()
        invariant
            i <= model@.words.len() <= 256,
            match (longest_stem(model@.words, chars@, i as int), best) {
                (Some((len, w)), Some((l, b))) => len == l && w == b,
                (None, None) => true,
                _ => false,
            },
        decreases model@.words.len() - i,
    {
        let ids = char_ids(model.vocab.words[i].as_str());
        if ids.len() >= 4 && ids.len() < chars.len() && same_bytes(&chars[0..ids.len()], &ids) {
            assert(chars@.subrange(0, ids@.len() as int) == chars@.take(ids@.len() as int));
            let longer = match best {
                Some((l, _)) => ids.len() > l,
                None => true,
            };
            if longer {
                best = Some((ids.len(), i as u8));
            }
        } else {
            proof {
                if ids@.len() < chars@.len() {
                    assert(chars@.subrange(0, ids@.len() as int) == chars@.take(
                        ids@.len() as int,
                    ));
                }
            }
        }
        i = i + 1;
    }
    match best {
        Some((_, w)) => Some(w),
        None => None,
    }
}

/// The stem matcher: exact vocabulary match, then without one final S, then the
/// longest vocabulary word of at least four characters that is a prefix.
pub fn stem_lookup(model: &Model, chars: &[u8]) -> (w: Option<u8>)
    requires
        model@.words.len() <= 256,
    ensures
        w == stem_of(model@.words, chars@),
{
    if let Some(w) = find_exact(model, chars) {
        return Some(w);
    }
    let s_id = find_char('S');
    let strip = match s_id {
        Some(s) => chars.len() > 0 && chars[chars.len() - 1] == s,
        None => false,
    };
    if strip {
        assert(chars@.subrange(0, chars@.len() - 1) == chars@.drop_last());
        if let Some(w) = find_exact(model, &chars[0..chars.len() - 1]) {
            return Some(w);
        }
    }
    find_stem(model, chars)
}

/// Words found are words of the vocabulary.
pub proof fn lemma_stem_range(words: Seq<Seq<char>>, c: Seq<u8>)
    requires
        words.len() <= 256,
    ensures
        stem_of(words, c) matches Some(w) ==> w < words.len(),
{
    lemma_spelled_range(words, c, words.len() as int);
    lemma_spelled_range(words, c.drop_last(), words.len() as int);
    lemma_longest_range(words, c, words.len() as int);
}

proof fn lemma_spelled_range(words: Seq<Seq<char>>, c: Seq<u8>, n: int)
    requires
        n <= words.len() <= 256,
    ensures
        first_spelled(words, c, n) matches Some(w) ==> w < words.len() && ids_of(words[w as int])
            == c,
    decreases n,
{
    if n > 0 {
        lemma_spelled_range(words, c, n - 1);
    }
}

proof fn lemma_longest_range(words: Seq<Seq<char>>, c: Seq<u8>, n: int)
    requires
        n <= words.len() <= 256,
    ensures
        longest_stem(words, c, n) matches Some((_, w)) ==> w < words.len(),
    decreases n,
{
    if n > 0 {
        lemma_longest_range(words, c, n - 1);
    }
}

/// Known words are words of the vocabulary.
pub proof fn lemma_known_range(words: Seq<Seq<char>>, list: Seq<Seq<u8>>)
    requires
        words.len() <= 256,
    ensures
        forall|i: int|
            0 <= i < known_of(words, list).len() ==> #[trigger] known_of(words, list)[i]
                < words.len(),
    decreases list.len(),
{
    if list.len() > 0 {
        let before = known_of(words, list.drop_last());
        lemma_known_range(words, list.drop_last());
        lemma_stem_range(words, list.last());
        assert forall|i: int| 0 <= i < known_of(words, list).len() implies #[trigger] known_of(
            words,
            list,
        )[i] < words.len() by {
            assert(i < before.len() ==> before[i] < words.len());
        }
    }
}

fn topic_tone(model: &Model, t: u8) -> (tone: u8)
    ensures
        forall|any: bool, known: Seq<u8>|
            known.len() > 0 ==> tone == #[trigger] tone_of(model@, any, known, Some(t)),
{
    let i: usize = t as usize;
    if i < model.topic_names.len() && same_text(model.topic_names[i].as_str(), "GREETING") {
        TONE_GREETING
    } else if i < model.topic_tech.len() && model.topic_tech[i] {
        TONE_TECHNICAL
    } else {
        TONE_NORMAL
    }
}

fn hit(
    model: &Model,
    wid: u8,
    known: &mut Vec<u8>,
    qtype: &mut Option<u8>,
    topic: &mut Option<u8>,
)
    requires
        model@.cls.len() == CLS_LEN,
        *old(qtype) == first_qgroup(model@, old(known)@),
        *old(topic) == last_tgroup(model@, old(known)@),
    ensures
        final(known)@ == old(known)@.push(wid),
        *final(qtype) == first_qgroup(model@, final(known)@),
        *final(topic) == last_tgroup(model@, final(known)@),
{
    known.push(wid);
    assert(known@.drop_last() == old(known)@);
    if qtype.is_none() {
        *qtype = model.qgroup(wid);
    }
    if let Some(g) = model.tgroup(wid) {
        *topic = Some(g);
    }
}

/// Parses the typed buffer: known words, question-type group (the first hit),
/// topic group (the last hit), and tone.
pub fn parse_typed(model: &Model, typed: &[u8]) -> (out: (Vec<u8>, Option<u8>, Option<u8>, u8))
    requires
        model@.words.len() <= 256,
        model@.cls.len() == CLS_LEN,
    ensures
        (out.0@, out.1, out.2, out.3) == parsed(model@, typed@),
{
    let mut known: Vec<u8> = Vec::new();
    let mut qtype: Option<u8> = None;
    let mut topic: Option<u8> = None;
    let mut any = false;
    let ghost mut list: Seq<Seq<u8>> = seq![];
    let ghost words = model@.words;
    let mut i: usize = 0;
    while i < typed.len()
        invariant
            i <= typed.len(),
            words == model@.words,
            words.len() <= 256,
            model@.cls.len() == CLS_LEN,
            list + typed_words(typed@, i as int) == typed_words(typed@, 0),
            known@ == known_of(words, list),
            qtype == first_qgroup(model@, known@),
            topic == last_tgroup(model@, known@),
            any == (list.len() > 0),
        decreases typed.len() - i,
    {
        let c = class_of(typed[i]);
        if c == 0 {
            i = i + 1;
        } else {
            let start: usize = i;
            i = i + 1;
            if c == 1 {
                while i < typed.len() && class_of(typed[i]) == 1
                    invariant
                        start < i <= typed.len(),
                        typed_run_end(typed@, i as int) == typed_run_end(typed@, start + 1),
                    decreases typed.len() - i,
                {
                    i = i + 1;
                }
            }
            any = true;
            let ghost before = list;
            let ghost word = typed@.subrange(start as int, i as int);
            proof {
                list = list.push(word);
                assert(c == 2 ==> word =~= seq![typed@[start as int]]);
                assert(before + typed_words(typed@, start as int) =~= list + typed_words(
                    typed@,
                    i as int,
                ));
                assert(list.drop_last() == before);
            }
            if let Some(wid) = stem_lookup(model, &typed[start..i]) {
                hit(model, wid, &mut known, &mut qtype, &mut topic);
            }
        }
    }
    assert(list == typed_words(typed@, 0));
    let tone = if known.len() == 0 && !any {
        TONE_EMPTY
    } else if known.len() == 0 {
        TONE_NONSENSE
    } else {
        match topic {
            None => TONE_NORMAL,
            Some(t) => topic_tone(model, t),
        }
    };
    (known, qtype, topic, tone)
}

// ---------------------------------------------------------------------------
// The two tokenizers agree
// ---------------------------------------------------------------------------

/// The class of a tile is that of its character: marks are words of their own,
/// letters, digits and the apostrophe join, everything else separates.
pub proof fn law_classes(id: u8)
    ensures
        class(id) == 2 <==> id < N_CHARS && is_mark(VOCAB@[id as int]),
        class(id) == 1 <==> id < N_CHARS && is_word_char(VOCAB@[id as int]),
{
    lemma_alphabet();
    if id < N_CHARS {
        assert(VOCAB@[id as int] == tile_char(id as int));
    }
}

/// Texts that the on-screen keyboard can type, up to case and kind of blank.
pub open spec fn typeable(s: Seq<char>) -> bool {
    forall|i: int| 0 <= i < s.len() ==> VOCAB@.contains(folded(#[trigger] s[i]))
}

/// The ids of a typeable text, character by character.
proof fn lemma_ids_each(s: Seq<char>)
    requires
        typeable(s),
    ensures
        ids_of(s).len() == s.len(),
        forall|i: int|
            0 <= i < s.len() ==> char_id(folded(s[i])) == Some(#[trigger] ids_of(s)[i]),
    decreases s.len(),
{
    if s.len() > 0 {
        let rest = s.drop_last();
        assert forall|i: int| 0 <= i < rest.len() implies VOCAB@.contains(
            folded(#[trigger] rest[i]),
        ) by {
            assert(rest[i] == s[i]);
        }
        lemma_ids_each(rest);
        assert(VOCAB@.contains(folded(s[s.len() - 1])));
        assert forall|i: int| 0 <= i < s.len() implies char_id(folded(s[i])) == Some(
            #[trigger] ids_of(s)[i],
        ) by {
            assert(i < rest.len() ==> ids_of(s)[i] == ids_of(rest)[i] && rest[i] == s[i]);
        }
    }
}

/// A part of a typeable text has the ids of that part, in either case.
proof fn lemma_ids_part(s: Seq<char>, i: int, j: int)
    requires
        typeable(s),
        0 <= i <= j <= s.len(),
        forall|k: int| i <= k < j ==> !is_white(#[trigger] s[k]),
    ensures
        ids_of(s).subrange(i, j) == ids_of(uppered(s).subrange(i, j)),
{
    let part = uppered(s).subrange(i, j);
    assert forall|k: int| 0 <= k < part.len() implies VOCAB@.contains(folded(#[trigger] part[k]))
        && folded(part[k]) == folded(s[i + k]) by {
        let c = s[i + k];
        assert(VOCAB@.contains(folded(c)));
        assert(part[k] == upper(c));
        lemma_folded(folded(c));
    }
    lemma_ids_each(s);
    lemma_ids_each(part);
    assert forall|k: int| 0 <= k < part.len() implies ids_of(s).subrange(i, j)[k] == #[trigger] ids_of(
        part,
    )[k] by {
        assert(char_id(folded(s[i + k])) == Some(ids_of(s)[i + k]));
        assert(char_id(folded(part[k])) == Some(ids_of(part)[k]));
    }
    assert(ids_of(s).subrange(i, j) =~= ids_of(part));
}

proof fn lemma_class_each(s: Seq<char>, i: int)
    requires
        typeable(s),
        0 <= i < s.len(),
    ensures
        ids_of(s).len() == s.len(),
        class(ids_of(s)[i]) == 2 <==> is_mark(uppered(s)[i]),
        class(ids_of(s)[i]) == 1 <==> is_word_char(uppered(s)[i]),
        is_word_char(uppered(s)[i]) || is_mark(uppered(s)[i]) ==> !is_white(s[i]),
{
    lemma_ids_each(s);
    let id = ids_of(s)[i];
    assert(char_id(folded(s[i])) == Some(id));
    lemma_char_id(folded(s[i]));
    law_classes(id);
}

proof fn lemma_run_ends_agree(s: Seq<char>, i: int)
    requires
        typeable(s),
        0 <= i <= s.len(),
    ensures
        ids_of(s).len() == s.len(),
        typed_run_end(ids_of(s), i) == run_end(uppered(s), i),
    decreases s.len() - i,
{
    lemma_ids_each(s);
    if i < s.len() {
        lemma_class_each(s, i);
        lemma_run_ends_agree(s, i + 1);
    }
}

proof fn lemma_tokens_agree(s: Seq<char>, i: int)
    requires
        typeable(s),
        0 <= i <= s.len(),
    ensures
        typed_words(ids_of(s), i) == Seq::new(
            tokens_from(uppered(s), i).len(),
            |k: int| ids_of(tokens_from(uppered(s), i)[k]),
        ),
    decreases s.len() - i,
{
    let u = uppered(s);
    let ids = ids_of(s);
    lemma_ids_each(s);
    if i < s.len() {
        lemma_class_each(s, i);
        if is_word_char(u[i]) {
            let j = run_end(u, i + 1);
            lemma_run_end(u, i + 1);
            lemma_run_ends_agree(s, i + 1);
            assert forall|k: int| i <= k < j implies !is_white(#[trigger] s[k]) by {
                assert(is_word_char(u[k]));
                lemma_class_each(s, k);
            }
            lemma_ids_part(s, i, j);
            lemma_tokens_agree(s, j);
        } else if is_mark(u[i]) {
            lemma_ids_part(s, i, i + 1);
            assert(ids.subrange(i, i + 1) =~= seq![ids[i]]);
            assert(u.subrange(i, i + 1) =~= seq![u[i]]);
            lemma_tokens_agree(s, i + 1);
        } else {
            lemma_tokens_agree(s, i + 1);
        }
        assert(typed_words(ids, i) =~= Seq::new(
            tokens_from(u, i).len(),
            |k: int| ids_of(tokens_from(u, i)[k]),
        ));
    }
}

/// The parser of the typed buffer sees the same words as the tokenizer of texts:
/// of a typeable text, the typed words are the spellings of its words.
pub proof fn law_tokenizers_agree(s: Seq<char>)
    requires
        typeable(s),
    ensures
        typed_words(ids_of(s), 0) == Seq::new(
            words_of(s).len(),
            |k: int| ids_of(words_of(s)[k]),
        ),
{
    lemma_tokens_agree(s, 0);
}

} // verus!
