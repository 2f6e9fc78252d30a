//! What a plan has to satisfy, stated over the tokens of the corpus.

use vstd::prelude::*;
use crate::bank_laws::{law_topic_words_biased, ranks};
use crate::builder::{
    assembled, corpus_fault, first_long, lemma_corpus, lemma_topic_shape, lemma_vocabulary_exists,
    model_of, plan_of, PlanView,
};
use crate::classifier::{cls_of, BankInput};
use crate::corpus::{
    bi_contexts, bi_counts, lemma_ids_countable, lemma_token_ids, marks_of, pairs_of, token_ids,
    tri_contexts, tri_counts, triples_of, vocabulary,
};
use crate::count_laws::{
    followed, followed_twice, law_counts_by_position, law_marks_and_enders, law_records_ranked,
    law_table_places, linked, tally,
};
use crate::lines::lines_of;
use crate::model::RouteRow;
use crate::neural::NeuralView;
use crate::records::{countable, record_of};
use crate::routes::{attr_of, routes_of, topics_of, Fault};
use crate::sentences::{enders_of, examples_of};
use crate::text::words_of;
use crate::vocab::{lemma_word_id_place, lex_less, word_id};

verus! {

/// Dictionary order: where two texts first differ, the smaller has the smaller
/// character or has ended.
pub proof fn law_dictionary_order(a: Seq<char>, b: Seq<char>)
    ensures
        lex_less(a, b) <==> exists|k: int| #[trigger] parts_at(a, b, k),
    decreases a.len(),
{
    if b.len() > 0 && a.len() > 0 && a[0] == b[0] {
        let (x, y) = (a.skip(1), b.skip(1));
        law_dictionary_order(x, y);
        if lex_less(a, b) {
            let k = choose|k: int| #[trigger] parts_at(x, y, k);
            assert forall|i: int| 0 <= i < k + 1 implies #[trigger] a[i] == b[i] by {
                if i > 0 {
                    assert(x[i - 1] == y[i - 1]);
                }
            }
            assert(parts_at(a, b, k + 1));
        }
        if exists|k: int| #[trigger] parts_at(a, b, k) {
            let k = choose|k: int| #[trigger] parts_at(a, b, k);
            assert(k > 0);
            assert forall|i: int| 0 <= i < k - 1 implies #[trigger] x[i] == y[i] by {
                assert(a[i + 1] == b[i + 1]);
            }
            assert(parts_at(x, y, k - 1));
        }
    } else if b.len() > 0 {
        assert(lex_less(a, b) ==> parts_at(a, b, 0));
        if exists|k: int| #[trigger] parts_at(a, b, k) {
            let k = choose|k: int| #[trigger] parts_at(a, b, k);
            if a.len() > 0 && k > 0 {
                assert(a[0] == b[0]);
            }
        }
    }
}

/// Two texts agree before `k`, and there the first has ended or has the smaller
/// character.
pub open spec fn parts_at(a: Seq<char>, b: Seq<char>, k: int) -> bool {
    &&& 0 <= k <= a.len()
    &&& k < b.len()
    &&& forall|i: int| 0 <= i < k ==> #[trigger] a[i] == b[i]
    &&& k == a.len() || a[k] < b[k]
}

/// The ids of tokens in a vocabulary.
pub open spec fn ids_stand_for(ids: Seq<u8>, words: Seq<Seq<char>>, toks: Seq<Seq<char>>) -> bool {
    &&& ids.len() == toks.len()
    &&& forall|i: int|
        0 <= i < ids.len() ==> #[trigger] ids[i] < words.len() && words[ids[i] as int] == toks[i]
}

/// Counts of the words behind two words.
pub open spec fn counts_behind(counts: Seq<u32>, ids: Seq<u8>, a: u8, b: u8) -> bool {
    counts.len() == 256 && forall|c: u8|
        #[trigger] counts[c as int] == tally(ids.len() - 2, followed_twice(ids, a, b, c))
}

/// Counts of the words behind a word.
pub open spec fn counts_next(counts: Seq<u32>, ids: Seq<u8>, a: u8) -> bool {
    counts.len() == 256 && forall|c: u8|
        #[trigger] counts[c as int] == tally(ids.len() - 1, followed(ids, a, c))
}

/// Two words stand side by side at position `i`, with a third behind them.
pub open spec fn context_at(ids: Seq<u8>, c: (u8, u8), i: int) -> bool {
    0 <= i < ids.len() - 2 && ids[i] == c.0 && ids[i + 1] == c.1
}

/// A word stands at position `i` with another behind it.
pub open spec fn starts_at(ids: Seq<u8>, a: u8, i: int) -> bool {
    0 <= i < ids.len() - 1 && ids[i] == a
}

/// The words of a plan: the tokens of the corpus in dictionary order, short enough
/// for the display, with the place of the question mark.
pub open spec fn words_hold(p: PlanView, toks: Seq<Seq<char>>) -> bool {
    &&& 3 <= toks.len()
    &&& 1 <= p.words.len() <= 248
    &&& forall|i: int, j: int| 0 <= i < j < p.words.len() ==> lex_less(p.words[i], p.words[j])
    &&& forall|w: int| 0 <= w < p.words.len() ==> toks.contains(#[trigger] p.words[w])
    &&& forall|i: int| 0 <= i < toks.len() ==> p.words.contains(#[trigger] toks[i])
    &&& forall|w: int| 0 <= w < p.words.len() ==> (#[trigger] p.words[w]).len() <= 11
    &&& p.qmark_id < p.words.len() && p.words[p.qmark_id as int] =~= seq!['?']
}

/// The examples of a plan, and its contexts.
pub open spec fn examples_hold(p: PlanView, ids: Seq<u8>) -> bool {
    &&& p.examples.len() == 2 * ids.len() - 3
    &&& forall|i: int|
        0 <= i < ids.len() - 2 ==> #[trigger] p.examples[i] == (ids[i], ids[i + 1], ids[i + 2])
    &&& forall|i: int|
        0 <= i < ids.len() - 1 ==> p.examples[ids.len() - 2 + i] == (0xFFu8, #[trigger] ids[i], ids[i
            + 1])
    &&& exists|i: int| #[trigger] context_at(ids, p.emergency, i)
    &&& p.n_tri == Set::new(|c: (u8, u8)| exists|i: int| #[trigger] context_at(ids, c, i)).len()
    &&& p.n_bi == Set::new(|a: u8| exists|i: int| #[trigger] starts_at(ids, a, i)).len()
}

/// Ids that stand for the tokens are the ids of the tokens.
proof fn lemma_the_ids(ids: Seq<u8>, words: Seq<Seq<char>>, toks: Seq<Seq<char>>)
    requires
        ids_stand_for(ids, words, toks),
        crate::corpus::is_vocabulary(words, toks),
        words.len() <= 248,
    ensures
        ids == token_ids(words, toks),
{
    assert forall|i: int| 0 <= i < ids.len() implies #[trigger] ids[i] == token_ids(words, toks)[i] by {
        crate::vocab::lemma_word_id(words, ids[i] as int);
    }
    assert(ids =~= token_ids(words, toks));
}

/// What a successful plan is made of.
proof fn lemma_plan_parts(
    corpus: Seq<char>,
    routes_src: Seq<char>,
    topics_src: Seq<char>,
    p: PlanView,
)
    requires
        plan_of(corpus, routes_src, topics_src) == Ok::<PlanView, Fault<Seq<char>>>(p),
    ensures
        corpus_fault(words_of(corpus)) is None,
        p.words == vocabulary(words_of(corpus)),
        routes_of(p.words, routes_src) == Ok::<(Seq<RouteRow>, (u8, u8)), Fault<Seq<char>>>(
            (p.routes, p.emergency),
        ),
        topics_of(p.words, topics_src) is Ok,
        tri_contexts(token_ids(p.words, words_of(corpus))).contains(p.emergency),
        p == assembled(
            words_of(corpus),
            p.routes,
            p.emergency,
            topics_of(p.words, topics_src)->Ok_0,
        ),
{
}

/// A plan gives every word its place in dictionary order and its question mark, has
/// all three words in a row and all two as examples, and counts the contexts.
#[verifier::rlimit(60)]
pub proof fn law_plan_by_position(
    corpus: Seq<char>,
    routes_src: Seq<char>,
    topics_src: Seq<char>,
    p: PlanView,
)
    requires
        plan_of(corpus, routes_src, topics_src) == Ok::<PlanView, Fault<Seq<char>>>(p),
    ensures
        words_hold(p, words_of(corpus)),
        exists|ids: Seq<u8>|
            #[trigger] ids_stand_for(ids, p.words, words_of(corpus)) && examples_hold(p, ids),
{
    let toks = words_of(corpus);
    lemma_plan_parts(corpus, routes_src, topics_src, p);
    assert(Some(p.qmark_id) == word_id(p.words, "?"@)) by {
        lemma_corpus(toks);
    }
    lemma_words_hold(p, toks);
    lemma_token_ids(p.words, toks);
    let ids = token_ids(p.words, toks);
    assert(ids_stand_for(ids, p.words, toks));
    lemma_examples_hold(p, ids);
}

proof fn lemma_words_hold(p: PlanView, toks: Seq<Seq<char>>)
    requires
        corpus_fault(toks) is None,
        p.words == vocabulary(toks),
        Some(p.qmark_id) == word_id(p.words, "?"@),
    ensures
        words_hold(p, toks),
        crate::corpus::is_vocabulary(p.words, toks),
{
    let words = p.words;
    lemma_corpus(toks);
    lemma_word_id_place(words, "?"@);
    reveal_strlit("?");
    assert("?"@ =~= seq!['?']);
    assert forall|w: int| 0 <= w < words.len() implies toks.contains(#[trigger] words[w]) by {
        assert(words.contains(words[w]));
    }
    assert forall|i: int| 0 <= i < toks.len() implies words.contains(#[trigger] toks[i]) by {
        assert(toks.contains(toks[i]));
    }
}

proof fn lemma_examples_hold(p: PlanView, ids: Seq<u8>)
    requires
        ids.len() >= 3,
        tri_contexts(ids).contains(p.emergency),
        p.examples == examples_of(ids),
        p.n_tri == tri_contexts(ids).to_set().len(),
        p.n_bi == bi_contexts(ids).to_set().len(),
    ensures
        examples_hold(p, ids),
{
    let i = tri_contexts(ids).index_of(p.emergency);
    assert(tri_contexts(ids)[i] == p.emergency);
    assert(context_at(ids, p.emergency, i));
    lemma_contexts(ids);
    assert forall|i: int| 0 <= i < ids.len() - 1 implies p.examples[ids.len() - 2 + i] == (
        0xFFu8,
        #[trigger] ids[i],
        ids[i + 1],
    ) by {
        assert(pairs_of(ids)[i] == (ids[i], ids[i + 1]));
        assert(triples_of(ids).len() == ids.len() - 2);
    }
}

/// A plan has a record for every two words and for every word, counted by positions
/// in the corpus, and a bank made from the same ids and from the topic file; its
/// routes are those of the route file.
#[verifier::rlimit(60)]
pub proof fn law_plan_tables(
    corpus: Seq<char>,
    routes_src: Seq<char>,
    topics_src: Seq<char>,
    p: PlanView,
    ids: Seq<u8>,
    a: u8,
    b: u8,
)
    requires
        plan_of(corpus, routes_src, topics_src) == Ok::<PlanView, Fault<Seq<char>>>(p),
        countable(words_of(corpus)),
        ids_stand_for(ids, p.words, words_of(corpus)),
        a < 248,
    ensures
        countable(ids),
        exists|counts: Seq<u32>|
            counts_behind(counts, ids, a, b) && #[trigger] ranks(
                counts,
                marks_of(p.words),
                p.tri.subrange(a * 4096 + b * 16, a * 4096 + b * 16 + 16),
            ),
        exists|counts: Seq<u32>|
            counts_next(counts, ids, a) && #[trigger] ranks(
                counts,
                marks_of(p.words),
                p.bi.subrange(a * 16, a * 16 + 16),
            ),
        match topics_of(p.words, topics_src) {
            Err(_) => false,
            Ok(topics) => {
                &&& p.cls == cls_of(
                    (BankInput { words: p.words, ids, qmark: p.qmark_id, topics }),
                )
                &&& p.topic_names == topics.names
                &&& p.topic_tech == topics.tech
                &&& topics.members.len() <= 16
                &&& topics.names.len() == topics.members.len()
                &&& topics.tech.len() == topics.members.len()
            },
        },
        routes_of(p.words, routes_src) == Ok::<(Seq<RouteRow>, (u8, u8)), Fault<Seq<char>>>(
            (p.routes, p.emergency),
        ),
        p.attr == attr_of(p.routes),
{
    let toks = words_of(corpus);
    lemma_plan_parts(corpus, routes_src, topics_src, p);
    lemma_corpus(toks);
    lemma_the_ids(ids, p.words, toks);
    lemma_ids_countable(p.words, toks);
    lemma_topic_shape(p.words, lines_of(topics_src), lines_of(topics_src).len() as int);
    lemma_tri_part(p, ids, a, b);
    lemma_bi_part(p, ids, a);
}

proof fn lemma_contexts(ids: Seq<u8>)
    ensures
        tri_contexts(ids).to_set() == Set::new(
            |c: (u8, u8)| exists|i: int| #[trigger] context_at(ids, c, i),
        ),
        bi_contexts(ids).to_set() == Set::new(
            |a: u8| exists|i: int| #[trigger] starts_at(ids, a, i),
        ),
{
    let t = tri_contexts(ids);
    let b = bi_contexts(ids);
    let ts = Set::new(|c: (u8, u8)| exists|i: int| #[trigger] context_at(ids, c, i));
    let bs = Set::new(|a: u8| exists|i: int| #[trigger] starts_at(ids, a, i));
    assert forall|c: (u8, u8)| #[trigger] t.to_set().contains(c) <==> ts.contains(c) by {
        if t.contains(c) {
            let i = t.index_of(c);
            assert(t[i] == c);
            assert(context_at(ids, c, i));
        }
        if ts.contains(c) {
            let i = choose|i: int| #[trigger] context_at(ids, c, i);
            assert(t[i] == c);
        }
    }
    assert(t.to_set() =~= ts);
    assert forall|a: u8| #[trigger] b.to_set().contains(a) <==> bs.contains(a) by {
        if b.contains(a) {
            let i = b.index_of(a);
            assert(b[i] == a);
            assert(starts_at(ids, a, i));
        }
        if bs.contains(a) {
            let i = choose|i: int| #[trigger] starts_at(ids, a, i);
            assert(b[i] == a);
        }
    }
    assert(b.to_set() =~= bs);
}

proof fn lemma_tri_part(p: PlanView, ids: Seq<u8>, a: u8, b: u8)
    requires
        countable(ids),
        a < 248,
        p.tri == crate::corpus::tri_table(ids, marks_of(p.words)),
    ensures
        exists|counts: Seq<u32>|
            counts_behind(counts, ids, a, b) && #[trigger] ranks(
                counts,
                marks_of(p.words),
                p.tri.subrange(a * 4096 + b * 16, a * 4096 + b * 16 + 16),
            ),
{
    let marks = marks_of(p.words);
    let counts = tri_counts(ids, a, b);
    law_counts_by_position(ids, a, b, 0);
    assert forall|c: u8| #[trigger] counts[c as int] == tally(
        ids.len() - 2,
        followed_twice(ids, a, b, c),
    ) by {
        law_counts_by_position(ids, a, b, c);
    }
    law_marks_and_enders(p.words, 0);
    law_records_ranked(counts, marks);
    let rec = record_of(counts, marks);
    let from = a * 4096 + b * 16;
    assert forall|k: int| 0 <= k < 16 implies p.tri[from + k] == #[trigger] rec[k] by {
        law_table_places(ids, marks, a, b, k);
    }
    law_table_places(ids, marks, a, b, 0);
    assert(from + 16 <= p.tri.len());
    assert(p.tri.subrange(from, from + 16) =~= rec);
    assert(ranks(counts, marks, rec));
}

proof fn lemma_bi_part(p: PlanView, ids: Seq<u8>, a: u8)
    requires
        countable(ids),
        a < 248,
        p.bi == crate::corpus::bi_table(ids, marks_of(p.words)),
    ensures
        exists|counts: Seq<u32>|
            counts_next(counts, ids, a) && #[trigger] ranks(
                counts,
                marks_of(p.words),
                p.bi.subrange(a * 16, a * 16 + 16),
            ),
{
    let marks = marks_of(p.words);
    let counts = bi_counts(ids, a);
    law_counts_by_position(ids, a, a, 0);
    assert forall|c: u8| #[trigger] counts[c as int] == tally(ids.len() - 1, followed(ids, a, c)) by {
        law_counts_by_position(ids, a, a, c);
    }
    law_marks_and_enders(p.words, 0);
    law_records_ranked(counts, marks);
    let rec = record_of(counts, marks);
    let from = a * 16;
    assert forall|k: int| 0 <= k < 16 implies p.bi[from + k] == #[trigger] rec[k] by {
        law_table_places(ids, marks, a, 0, k);
    }
    law_table_places(ids, marks, a, 0, 0);
    assert(p.bi.subrange(from, from + 16) =~= rec);
    assert(ranks(counts, marks, rec));
}

proof fn lemma_long_first(words: Seq<Seq<char>>, n: int)
    requires
        0 <= n <= words.len(),
    ensures
        match first_long(words, n) {
            None => forall|i: int| 0 <= i < n ==> (#[trigger] words[i]).len() <= 11,
            Some(w) => exists|i: int|
                0 <= i < n && #[trigger] words[i] == w && w.len() > 11 && forall|j: int|
                    0 <= j < i ==> (#[trigger] words[j]).len() <= 11,
        },
    decreases n,
{
    if n > 0 {
        lemma_long_first(words, n - 1);
        assert(words[n - 1] == words[n - 1]);
    }
}

/// When a corpus is refused: with fewer than three tokens; with more than 248
/// different ones; with one of more than 11 characters, the first in dictionary
/// order; without a question mark; with a last token that stands nowhere else. In
/// that order.
#[verifier::rlimit(60)]
pub proof fn law_corpus_refused(toks: Seq<Seq<char>>)
    requires
        toks.len() <= usize::MAX,
        vocabulary(toks).len() <= usize::MAX,
    ensures
        ({
            let words = vocabulary(toks);
            let small = toks.len() < 3;
            let many = words.len() > 248;
            let long = exists|i: int| 0 <= i < toks.len() && (#[trigger] toks[i]).len() > 11;
            let asked = exists|i: int| 0 <= i < toks.len() && #[trigger] toks[i] =~= seq!['?'];
            let again = exists|i: int|
                0 <= i < toks.len() - 1 && #[trigger] toks[i] == toks[toks.len() - 1];
            &&& forall|i: int, j: int| 0 <= i < j < words.len() ==> lex_less(words[i], words[j])
            &&& forall|w: Seq<char>| #[trigger] words.contains(w) <==> toks.contains(w)
            &&& corpus_fault(toks) is None <==> !small && !many && !long && asked && again
            &&& small ==> corpus_fault(toks) == Some(Fault::<Seq<char>>::CorpusTooSmall)
            &&& !small && many ==> (corpus_fault(toks) matches Some(Fault::TooManyWords(n)) && n
                == words.len())
            &&& !small && !many && long ==> (corpus_fault(toks) matches Some(Fault::WordTooLong(w))
                && toks.contains(w) && w.len() > 11 && forall|i: int|
                0 <= i < toks.len() && (#[trigger] toks[i]).len() > 11 ==> toks[i] == w || lex_less(
                    w,
                    toks[i],
                ))
            &&& !small && !many && !long && !asked ==> corpus_fault(toks) == Some(
                Fault::<Seq<char>>::NoQuestionMark,
            )
            &&& !small && !many && !long && asked && !again ==> corpus_fault(toks) == Some(
                Fault::NoSuccessor(toks[toks.len() - 1]),
            )
        }),
{
    let words = vocabulary(toks);
    lemma_vocabulary_exists(toks);
    reveal_strlit("?");
    assert("?"@ =~= seq!['?']);
    let n = words.len() as int;
    lemma_long_first(words, n);
    if toks.len() >= 1 {
        let front = toks.drop_last();
        let last = toks[toks.len() - 1];
        if front.contains(toks.last()) {
            let i = front.index_of(toks.last());
            assert(toks[i] == last);
        }
        assert forall|i: int| 0 <= i < toks.len() - 1 && #[trigger] toks[i] == last implies front.contains(
            toks.last(),
        ) by {
            assert(front[i] == toks.last());
        }
    }
    if toks.contains("?"@) {
        let i = toks.index_of("?"@);
        assert(toks[i] =~= seq!['?']);
    }
    assert forall|i: int| 0 <= i < toks.len() && #[trigger] toks[i] =~= seq!['?'] implies toks.contains(
        "?"@,
    ) by {
        assert(toks[i] == "?"@);
    }
    if first_long(words, n) is Some {
        let w = first_long(words, n)->Some_0;
        let i = choose|i: int|
            0 <= i < n && #[trigger] words[i] == w && w.len() > 11 && forall|j: int|
                0 <= j < i ==> (#[trigger] words[j]).len() <= 11;
        assert(words.contains(w));
        let k = toks.index_of(w);
        assert(toks[k].len() > 11);
        assert forall|k: int| 0 <= k < toks.len() && (#[trigger] toks[k]).len() > 11 implies toks[k]
            == w || lex_less(w, toks[k]) by {
            assert(toks.contains(toks[k]));
            assert(words.contains(toks[k]));
            let j = words.index_of(toks[k]);
            assert(words[j].len() > 11);
            assert(j >= i);
        }
    } else {
        assert forall|k: int| 0 <= k < toks.len() implies (#[trigger] toks[k]).len() <= 11 by {
            assert(toks.contains(toks[k]));
            assert(words.contains(toks[k]));
            let j = words.index_of(toks[k]);
            assert(words[j].len() <= 11);
        }
    }
}

/// A route file marks the words it names: bit 0 for the question words of its rows,
/// bit 1 for their topic words, wildcards apart.
pub proof fn law_route_words_marked(rows: Seq<RouteRow>, w: u8)
    ensures
        attr_of(rows).len() == 256,
        attr_of(rows)[w as int] <= 3,
        attr_of(rows)[w as int] % 2 == 1 <==> w != 0xFE && exists|i: int|
            0 <= i < rows.len() && (#[trigger] rows[i]).qtype == w,
        attr_of(rows)[w as int] >= 2 <==> w != 0xFE && exists|i: int|
            0 <= i < rows.len() && (#[trigger] rows[i]).topic == w,
{
}

/// A model keeps what its plan says, with the network beside it.
pub proof fn law_model_from_plan(p: PlanView, n: NeuralView)
    requires
        p.words.len() <= 255,
    ensures
        model_of(p, n).vocab_size == p.words.len(),
        model_of(p, n).k == 8,
        model_of(p, n).qmark_id == p.qmark_id,
        model_of(p, n).emergency == p.emergency,
        model_of(p, n).tri == p.tri,
        model_of(p, n).bi == p.bi,
        model_of(p, n).words == p.words,
        model_of(p, n).attr == p.attr,
        model_of(p, n).routes == p.routes,
        model_of(p, n).cls == p.cls,
        model_of(p, n).neural == n,
        model_of(p, n).topic_names == p.topic_names,
        model_of(p, n).topic_tech == p.topic_tech,
        model_of(p, n).qtype_names == p.qtype_names,
{
}

/// Tokens that end a sentence.
pub open spec fn ends_one(w: Seq<char>) -> bool {
    w =~= seq!['.'] || w =~= seq!['!'] || w =~= seq!['?']
}

/// Every word of a corpus sentence has a bias on the page of a topic with a member
/// anywhere in the sentence: two positions lie in one sentence if no token from the
/// first up to the last ends a sentence before it.
pub proof fn law_plan_topic_words(
    corpus: Seq<char>,
    routes_src: Seq<char>,
    topics_src: Seq<char>,
    p: PlanView,
    ids: Seq<u8>,
    g: int,
    at: int,
    member_at: int,
)
    requires
        plan_of(corpus, routes_src, topics_src) == Ok::<PlanView, Fault<Seq<char>>>(p),
        countable(words_of(corpus)),
        ids_stand_for(ids, p.words, words_of(corpus)),
        0 <= at < ids.len(),
        0 <= member_at < ids.len(),
        forall|r: int|
            at <= r < member_at || member_at <= r < at ==> !ends_one(#[trigger] words_of(corpus)[r]),
        0 <= g,
        topics_of(p.words, topics_src) matches Ok(topics) ==> g < topics.members.len()
            && topics.members[g].contains(ids[member_at]),
    ensures
        1 <= p.cls[g * 256 + ids[at]] <= 15,
{
    let toks = words_of(corpus);
    law_plan_tables(corpus, routes_src, topics_src, p, ids, 0, 0);
    let topics = topics_of(p.words, topics_src)->Ok_0;
    let b = BankInput { words: p.words, ids, qmark: p.qmark_id, topics };
    let enders = enders_of(p.words);
    assert forall|r: int| at <= r < member_at || member_at <= r < at implies !enders[
    #[trigger] ids[r] as int] by {
        law_marks_and_enders(p.words, ids[r] as int);
        assert(p.words[ids[r] as int] == toks[r]);
        assert(!ends_one(toks[r]));
    }
    assert(linked(ids, enders, at, member_at));
    law_topic_words_biased(b, g, at, 0);
}

} // verus!
