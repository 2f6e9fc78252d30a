//! What counts, records, biases and sentences have to satisfy, stated by positions
//! in the corpus.

use vstd::prelude::*;
use crate::corpus::{
    bi_counts, bi_table, marks_of, pairs_of, tri_counts, tri_table, triples_of, word_counts,
};
use crate::records::{
    ahead, bias_of, candidate, countable, is_next, law_top_ordered, lemma_occurrences_joined,
    most_of, occurrences, record_of, top, MAX_COUNT,
};
use crate::sentences::{
    answer_tokens, asks, cut, enders_of, flat, law_sentences_cover, sentences_of, topic_tokens,
    touches,
};

verus! {

// ---------------------------------------------------------------------------
// Tallies
// ---------------------------------------------------------------------------

/// How many of the positions 0 to `n` - 1 have a property.
pub open spec fn tally(n: int, p: spec_fn(int) -> bool) -> int
    decreases n,
{
    if n <= 0 {
        0
    } else if p(n - 1) {
        tally(n - 1, p) + 1
    } else {
        tally(n - 1, p)
    }
}

/// The positions that hold a value.
pub open spec fn holding<T>(s: Seq<T>, x: T) -> spec_fn(int) -> bool {
    |i: int| s[i] == x
}

/// The positions that hold one word with another right behind it.
pub open spec fn followed(ids: Seq<u8>, a: u8, b: u8) -> spec_fn(int) -> bool {
    |i: int| ids[i] == a && ids[i + 1] == b
}

/// The positions that hold one word with two others right behind it.
pub open spec fn followed_twice(ids: Seq<u8>, a: u8, b: u8, c: u8) -> spec_fn(int) -> bool {
    |i: int| ids[i] == a && ids[i + 1] == b && ids[i + 2] == c
}

/// A property of positions, counted from `a`.
pub open spec fn shifted(p: spec_fn(int) -> bool, a: int) -> spec_fn(int) -> bool {
    |i: int| p(a + i)
}

pub proof fn lemma_tally_same(n: int, p: spec_fn(int) -> bool, q: spec_fn(int) -> bool)
    requires
        forall|i: int| 0 <= i < n ==> #[trigger] p(i) == q(i),
    ensures
        tally(n, p) == tally(n, q),
        0 <= tally(n, p),
    decreases n,
{
    if n > 0 {
        lemma_tally_same(n - 1, p, q);
        assert(p(n - 1) == q(n - 1));
    }
}

pub proof fn lemma_tally_split(a: int, b: int, p: spec_fn(int) -> bool)
    requires
        0 <= a,
        0 <= b,
    ensures
        tally(a + b, p) == tally(a, p) + tally(b, shifted(p, a)),
    decreases b,
{
    if b > 0 {
        lemma_tally_split(a, b - 1, p);
    }
}

proof fn lemma_tally_none(n: int, p: spec_fn(int) -> bool)
    requires
        forall|i: int| 0 <= i < n ==> !#[trigger] p(i),
    ensures
        tally(n, p) == 0,
    decreases n,
{
    if n > 0 {
        lemma_tally_none(n - 1, p);
        assert(!p(n - 1));
    }
}

/// A value occurs as often as there are positions that hold it.
pub proof fn law_occurrences_tally<T>(s: Seq<T>, x: T)
    ensures
        occurrences(s, x) == tally(s.len() as int, holding(s, x)),
    decreases s.len(),
{
    if s.len() > 0 {
        let rest = s.drop_last();
        law_occurrences_tally(rest, x);
        lemma_tally_same(rest.len() as int, holding(rest, x), holding(s, x));
    }
}

/// How often a word follows two others, follows another, and occurs, counted by
/// positions in the corpus.
pub proof fn law_counts_by_position(ids: Seq<u8>, a: u8, b: u8, c: u8)
    requires
        countable(ids),
    ensures
        tri_counts(ids, a, b).len() == 256,
        bi_counts(ids, b).len() == 256,
        word_counts(ids).len() == 256,
        tri_counts(ids, a, b)[c as int] == tally(
            ids.len() - 2,
            followed_twice(ids, a, b, c),
        ),
        bi_counts(ids, b)[c as int] == tally(ids.len() - 1, followed(ids, b, c)),
        word_counts(ids)[c as int] == tally(ids.len() as int, holding(ids, c)),
{
    crate::corpus::lemma_transitions(ids, a, b, c);
    assert(occurrences(ids, c) <= crate::records::MAX_COUNT);
    law_occurrences_tally(ids, c);
    let t = triples_of(ids);
    law_occurrences_tally(t, (a, b, c));
    let pt = followed_twice(ids, a, b, c);
    lemma_tally_same(t.len() as int, holding(t, (a, b, c)), pt);
    if ids.len() < 2 {
        assert(tally(ids.len() - 2, pt) == 0);
    }
    let p = pairs_of(ids);
    law_occurrences_tally(p, (b, c));
    let pp = followed(ids, b, c);
    lemma_tally_same(p.len() as int, holding(p, (b, c)), pp);
}

/// Where the records stand: that of a context at 4096 times its first word plus 16
/// times its second, that of a word at 16 times the word.
pub proof fn law_table_places(ids: Seq<u8>, marks: Seq<bool>, a: u8, b: u8, k: int)
    requires
        a < 248,
        0 <= k < 16,
    ensures
        tri_table(ids, marks).len() == 248 * 4096,
        bi_table(ids, marks).len() == 248 * 16,
        tri_table(ids, marks)[a * 4096 + b * 16 + k] == record_of(tri_counts(ids, a, b), marks)[k],
        bi_table(ids, marks)[a * 16 + k] == record_of(bi_counts(ids, a), marks)[k],
{
    let at = a * 4096 + b * 16 + k;
    assert(at / 16 == a * 256 + b);
    assert(at / 4096 == a && at / 16 % 256 == b && at % 16 == k);
    assert((a * 16 + k) / 16 == a && (a * 16 + k) % 16 == k);
}

// ---------------------------------------------------------------------------
// Records
// ---------------------------------------------------------------------------

/// One word comes before another in a record: it was counted more often, or as
/// often and only the other is punctuation, or both are or neither is and its id is
/// smaller.
pub open spec fn comes_first(counts: Seq<u32>, marks: Seq<bool>, a: u8, b: u8) -> bool {
    if counts[a as int] != counts[b as int] {
        counts[a as int] > counts[b as int]
    } else if marks[a as int] != marks[b as int] {
        marks[b as int]
    } else {
        a < b
    }
}

/// A record with `n` words: each was counted and stands before those it comes first
/// of; no word left out comes before one that is listed, and none is left out while
/// there is room; the score of a word is one more than the 62nd parts of the largest
/// count that its count fills; and behind the words there is padding.
pub open spec fn is_record(counts: Seq<u32>, marks: Seq<bool>, rec: Seq<u8>, n: int) -> bool {
    &&& 0 <= n <= 8
    &&& rec.len() == 16
    &&& forall|k: int|
        0 <= k < n ==> {
            let c = counts[#[trigger] rec[2 * k] as int] as int;
            let most = counts[rec[0] as int] as int;
            let score = rec[2 * k + 1] as int;
            c > 0 && score >= 1 && (score - 1) * most <= 62 * c < score * most
        }
    &&& forall|i: int, j: int|
        0 <= i < j < n ==> comes_first(counts, marks, #[trigger] rec[2 * i], #[trigger] rec[2 * j])
    &&& forall|u: u8|
        counts[u as int] > 0 && (forall|k: int| 0 <= k < n ==> #[trigger] rec[2 * k] != u) ==> n == 8
            && forall|k: int|
            0 <= k < n ==> #[trigger] comes_first(counts, marks, rec[2 * k], u)
    &&& forall|k: int| n <= k < 8 ==> #[trigger] rec[2 * k] == 0xFF && rec[2 * k + 1] == 0
}

/// Among the words below `n` with a property one comes first.
proof fn lemma_some_first(
    counts: Seq<u32>,
    marks: Seq<bool>,
    p: spec_fn(u8) -> bool,
    n: int,
    c: u8,
) -> (t: u8)
    requires
        c < n <= 256,
        p(c),
    ensures
        t < n,
        p(t),
        forall|u: u8| u < n && u != t && #[trigger] p(u) ==> ahead(counts, marks, t, u),
    decreases n,
{
    let last = (n - 1) as u8;
    if exists|u: u8| u < n - 1 && #[trigger] p(u) {
        let u = choose|u: u8| u < n - 1 && #[trigger] p(u);
        let b = lemma_some_first(counts, marks, p, n - 1, u);
        if p(last) && ahead(counts, marks, last, b) {
            assert forall|u: u8| u < n && u != last && #[trigger] p(u) implies ahead(
                counts,
                marks,
                last,
                u,
            ) by {
                assert(u == b || ahead(counts, marks, b, u));
            }
            last
        } else {
            b
        }
    } else {
        c
    }
}

/// A list of candidates is as long as asked for, or nothing is left out.
proof fn lemma_top_full(counts: Seq<u32>, marks: Seq<bool>, k: int)
    requires
        k >= 0,
    ensures
        top(counts, marks, k).len() == k || forall|t: u8|
            !#[trigger] candidate(counts, top(counts, marks, k), t),
    decreases k,
{
    if k > 0 {
        lemma_top_full(counts, marks, k - 1);
        let before = top(counts, marks, k - 1);
        if exists|t: u8| is_next(counts, marks, before, t) {
            let t = choose|t: u8| is_next(counts, marks, before, t);
            assert(candidate(counts, before, t));
        } else {
            if exists|t: u8| #[trigger] candidate(counts, before, t) {
                let c = choose|t: u8| #[trigger] candidate(counts, before, t);
                let p = |u: u8| candidate(counts, before, u);
                let t = lemma_some_first(counts, marks, p, 256, c);
                assert(p(t));
                assert forall|u: u8| u != t && #[trigger] candidate(counts, before, u) implies ahead(
                    counts,
                    marks,
                    t,
                    u,
                ) by {
                    assert(p(u));
                }
                assert(is_next(counts, marks, before, t));
            }
        }
    }
}

proof fn lemma_score(c: int, most: int)
    requires
        0 < c <= most,
    ensures
        0 <= 62 * c / most <= 62,
        (62 * c / most) * most <= 62 * c < (62 * c / most + 1) * most,
{
    let q = 62 * c / most;
    assert(q * most <= 62 * c < (q + 1) * most && 0 <= q <= 62) by (nonlinear_arith)
        requires
            0 < c <= most,
            q == 62 * c / most,
    ;
}

/// Records are records: the words counted most, in order, with their scores.
#[verifier::rlimit(60)]
pub proof fn law_records_ranked(counts: Seq<u32>, marks: Seq<bool>)
    requires
        counts.len() == 256,
        marks.len() == 256,
    ensures
        exists|n: int| is_record(counts, marks, record_of(counts, marks), n),
{
    let list = top(counts, marks, 8);
    let n = list.len() as int;
    let rec = record_of(counts, marks);
    law_top_ordered(counts, marks, 8);
    lemma_top_full(counts, marks, 8);
    assert forall|k: int| 0 <= k < n implies #[trigger] rec[2 * k] == list[k] by {
        assert((2 * k) / 2 == k && (2 * k) % 2 == 0);
    }
    assert forall|k: int| 0 <= k < n implies {
        let c = counts[#[trigger] rec[2 * k] as int] as int;
        let most = counts[rec[0] as int] as int;
        let score = rec[2 * k + 1] as int;
        c > 0 && score >= 1 && (score - 1) * most <= 62 * c < score * most
    } by {
        assert(rec[2 * 0int] == list[0]);
        assert(counts[list[k] as int] > 0);
        if k > 0 {
            assert(ahead(counts, marks, list[0], list[k]));
        }
        assert((2 * k + 1) / 2 == k && (2 * k + 1) % 2 == 1);
        lemma_score(counts[list[k] as int] as int, counts[list[0] as int] as int);
    }
    assert forall|i: int, j: int| 0 <= i < j < n implies comes_first(
        counts,
        marks,
        #[trigger] rec[2 * i],
        #[trigger] rec[2 * j],
    ) by {
        assert(ahead(counts, marks, list[i], list[j]));
    }
    assert forall|u: u8|
        counts[u as int] > 0 && (forall|k: int| 0 <= k < n ==> #[trigger] rec[2 * k]
            != u) implies n == 8 && forall|k: int|
        0 <= k < n ==> #[trigger] comes_first(counts, marks, rec[2 * k], u) by {
        if list.contains(u) {
            let k = list.index_of(u);
            assert(rec[2 * k] == u);
        }
        assert(candidate(counts, list, u));
        assert forall|k: int| 0 <= k < n implies #[trigger] comes_first(
            counts,
            marks,
            rec[2 * k],
            u,
        ) by {
            assert(rec[2 * k] == list[k]);
            assert(ahead(counts, marks, list[k], u));
        }
    }
    assert forall|k: int| n <= k < 8 implies #[trigger] rec[2 * k] == 0xFF && rec[2 * k + 1] == 0 by {
        assert((2 * k) / 2 == k && (2 * k + 1) / 2 == k && (2 * k) % 2 == 0 && (2 * k + 1) % 2 == 1);
    }
    assert(is_record(counts, marks, rec, n));
}

proof fn lemma_most_attained(counts: Seq<u32>, n: int)
    requires
        0 <= n <= counts.len(),
    ensures
        most_of(counts, n) >= 1,
        forall|i: int| 0 <= i < n ==> #[trigger] counts[i] <= most_of(counts, n),
        most_of(counts, n) == 1 || exists|i: int|
            0 <= i < n && #[trigger] counts[i] == most_of(counts, n),
    decreases n,
{
    if n > 0 {
        lemma_most_attained(counts, n - 1);
        assert(counts[n - 1] == counts[n - 1]);
    }
}

/// A bias is the number of fifteenths of the largest count that its count reaches
/// into.
pub open spec fn is_bias(counts: Seq<u32>, t: int, bias: int) -> bool {
    exists|most: int|
        #![trigger is_largest(counts, most)]
        is_largest(counts, most) && (bias - 1) * most < 15 * counts[t] <= bias * most
}

/// The largest of some counts, 1 if none is larger.
pub open spec fn is_largest(counts: Seq<u32>, most: int) -> bool {
    &&& most >= 1
    &&& forall|i: int| 0 <= i < counts.len() ==> #[trigger] counts[i] <= most
    &&& most == 1 || exists|i: int| 0 <= i < counts.len() && #[trigger] counts[i] == most
}

/// Biases are biases.
pub proof fn law_bias_fifteenths(counts: Seq<u32>, t: int)
    requires
        0 <= t < counts.len(),
    ensures
        is_bias(counts, t, bias_of(counts, t) as int),
        bias_of(counts, t) <= 15,
        bias_of(counts, t) == 0 <==> counts[t] == 0,
{
    let most = most_of(counts, counts.len() as int);
    lemma_most_attained(counts, counts.len() as int);
    let n = counts[t] as int;
    let b = (15 * n + most - 1) / most;
    assert((b - 1) * most < 15 * n <= b * most && 0 <= b <= 15) by (nonlinear_arith)
        requires
            most >= 1,
            0 <= n <= most,
            b == (15 * n + most - 1) / most,
    ;
    crate::records::law_bias_range(counts, t);
    assert(is_largest(counts, most));
}

// ---------------------------------------------------------------------------
// Sentences
// ---------------------------------------------------------------------------

/// Finished and unfinished sentences: none is empty, a word that ends a sentence is
/// its last one, and all but the last sentence end with such a word.
pub open spec fn well_cut(sents: Seq<Seq<u8>>, enders: Seq<bool>) -> bool {
    &&& forall|k: int| 0 <= k < sents.len() ==> (#[trigger] sents[k]).len() > 0
    &&& forall|k: int, i: int|
        0 <= k < sents.len() && 0 <= i < sents[k].len() - 1 ==> !enders[#[trigger] sents[k][i] as int]
    &&& forall|k: int| 0 <= k < sents.len() - 1 ==> enders[(#[trigger] sents[k]).last() as int]
}

proof fn lemma_cut_well(ids: Seq<u8>, enders: Seq<bool>)
    ensures
        ({
            let (done, open) = cut(ids, enders);
            &&& well_cut(done, enders)
            &&& done.len() > 0 ==> enders[done.last().last() as int]
            &&& forall|i: int| 0 <= i < open.len() ==> !enders[#[trigger] open[i] as int]
        }),
    decreases ids.len(),
{
    if ids.len() > 0 {
        lemma_cut_well(ids.drop_last(), enders);
        let (done, open) = cut(ids.drop_last(), enders);
        let (done1, open1) = cut(ids, enders);
        if enders[ids.last() as int] {
            let s = open.push(ids.last());
            assert(done1 == done.push(s));
            assert forall|k: int, i: int|
                0 <= k < done1.len() && 0 <= i < done1[k].len() - 1 implies !enders[
            #[trigger] done1[k][i] as int] by {
                if k < done.len() {
                    assert(done1[k] == done[k]);
                    assert(!enders[done[k][i] as int]);
                } else {
                    assert(done1[k][i] == open[i]);
                }
            }
            assert forall|k: int| 0 <= k < done1.len() - 1 implies enders[(
            #[trigger] done1[k]).last() as int] by {
                assert(done1[k] == done[k]);
                if k == done.len() - 1 {
                    assert(done[k] == done.last());
                }
            }
            assert forall|k: int| 0 <= k < done1.len() implies (#[trigger] done1[k]).len() > 0 by {
                if k < done.len() {
                    assert(done1[k] == done[k]);
                }
            }
            assert(done1.last() == s);
            assert(s.last() == ids.last());
        } else {
            assert forall|i: int| 0 <= i < open1.len() implies !enders[#[trigger] open1[i] as int] by {
                if i < open.len() {
                    assert(open1[i] == open[i]);
                }
            }
        }
    }
}

/// The sentences of a corpus joined are the corpus, and they are cut behind every
/// word that ends one and nowhere else.
pub proof fn law_sentences_cut(ids: Seq<u8>, enders: Seq<bool>)
    ensures
        flat(sentences_of(ids, enders)) == ids,
        well_cut(sentences_of(ids, enders), enders),
{
    law_sentences_cover(ids, enders);
    lemma_cut_well(ids, enders);
    let (done, open) = cut(ids, enders);
    let sents = sentences_of(ids, enders);
    if open.len() > 0 {
        assert(sents == done.push(open));
        assert forall|k: int, i: int|
            0 <= k < sents.len() && 0 <= i < sents[k].len() - 1 implies !enders[
        #[trigger] sents[k][i] as int] by {
            if k < done.len() {
                assert(sents[k] == done[k]);
                assert(!enders[done[k][i] as int]);
            } else {
                assert(sents[k][i] == open[i]);
            }
        }
        assert forall|k: int| 0 <= k < sents.len() - 1 implies enders[(
        #[trigger] sents[k]).last() as int] by {
            assert(sents[k] == done[k]);
            if k == done.len() - 1 {
                assert(done[k] == done.last());
            }
        }
    }
}

/// Two positions lie in one sentence: no word from the earlier one up to the later
/// one ends a sentence before it.
pub open spec fn linked(ids: Seq<u8>, enders: Seq<bool>, p: int, q: int) -> bool {
    forall|r: int| (p <= r < q || q <= r < p) ==> !enders[#[trigger] ids[r] as int]
}

/// A position lies in a sentence with a member of a topic group, anywhere in it.
pub open spec fn near_member(ids: Seq<u8>, enders: Seq<bool>, members: Seq<u8>, p: int) -> bool {
    exists|q: int|
        0 <= q < ids.len() && members.contains(#[trigger] ids[q]) && linked(ids, enders, p, q)
}

/// A position lies in the sentence behind a question that ends with `qmark` and has
/// `id` among its first three words.
pub open spec fn answers_type(
    ids: Seq<u8>,
    enders: Seq<bool>,
    id: u8,
    qmark: u8,
    p: int,
) -> bool {
    exists|end: int, q: int, s: int|
        #![trigger ids[end], ids[q], linked(ids, enders, s, q)]
        0 <= s <= q <= end < p && q < s + 3 && ids[end] == qmark && enders[ids[end] as int]
            && ids[q] == id && linked(ids, enders, end + 1, p) && linked(ids, enders, q, end)
            && linked(ids, enders, s, q) && (s == 0 || enders[ids[s - 1] as int])
}

/// The positions that hold a word in a sentence with a member of a topic group.
pub open spec fn with_topic(
    ids: Seq<u8>,
    enders: Seq<bool>,
    members: Seq<u8>,
    t: u8,
) -> spec_fn(int) -> bool {
    |p: int| ids[p] == t && near_member(ids, enders, members, p)
}

/// The positions that hold a word in the sentence behind a question of a type.
pub open spec fn with_type(
    ids: Seq<u8>,
    enders: Seq<bool>,
    id: u8,
    qmark: u8,
    t: u8,
) -> spec_fn(int) -> bool {
    |p: int| ids[p] == t && answers_type(ids, enders, id, qmark, p)
}

/// Well-cut sentences joined: where the last one starts, the text before ends a
/// sentence.
proof fn lemma_well_cut_rest(sents: Seq<Seq<u8>>, enders: Seq<bool>)
    requires
        well_cut(sents, enders),
        sents.len() > 0,
    ensures
        well_cut(sents.drop_last(), enders),
        flat(sents) == flat(sents.drop_last()) + sents.last(),
        flat(sents.drop_last()).len() > 0 ==> enders[flat(sents.drop_last()).last() as int],
        sents.len() > 1 ==> flat(sents.drop_last()).len() >= sents[sents.len() - 2].len()
            && forall|i: int|
            0 <= i < sents[sents.len() - 2].len() ==> #[trigger] sents[sents.len() - 2][i] == flat(
                sents.drop_last(),
            )[flat(sents.drop_last()).len() - sents[sents.len() - 2].len() + i],
        sents.len() == 1 ==> flat(sents.drop_last()).len() == 0,
{
    let rest = sents.drop_last();
    assert forall|k: int| 0 <= k < rest.len() implies #[trigger] rest[k] == sents[k] by {}
    assert forall|k: int, i: int| 0 <= k < rest.len() && 0 <= i < rest[k].len() - 1 implies !enders[
    #[trigger] rest[k][i] as int] by {
        assert(!enders[sents[k][i] as int]);
    }
    if sents.len() > 1 {
        let prev = sents[sents.len() - 2];
        assert(rest.last() == prev);
        assert(flat(rest) == flat(rest.drop_last()) + prev);
        assert(flat(rest).last() == prev.last());
    }
}

/// The words of all sentences with a member are those at positions near a member.
#[verifier::rlimit(60)]
proof fn lemma_topic_tally(sents: Seq<Seq<u8>>, enders: Seq<bool>, members: Seq<u8>, t: u8)
    requires
        well_cut(sents, enders),
    ensures
        occurrences(topic_tokens(sents, members), t) == tally(
            flat(sents).len() as int,
            with_topic(flat(sents), enders, members, t),
        ),
    decreases sents.len(),
{
    let f = flat(sents);
    let pf = with_topic(f, enders, members, t);
    if sents.len() > 0 {
        let rest = sents.drop_last();
        let last = sents.last();
        let f0 = flat(rest);
        let n0 = f0.len() as int;
        let n1 = last.len() as int;
        lemma_well_cut_rest(sents, enders);
        lemma_topic_tally(rest, enders, members, t);
        assert(last == sents[sents.len() - 1]);
        assert forall|r: int| 0 <= r < n0 implies #[trigger] f[r] == f0[r] by {}
        assert forall|i: int| 0 <= i < n1 implies f[n0 + i] == #[trigger] last[i] by {}
        let p0 = with_topic(f0, enders, members, t);
        assert forall|p: int| 0 <= p < n0 implies #[trigger] p0(p) == pf(p) by {
            if near_member(f0, enders, members, p) {
                let q = choose|q: int|
                    0 <= q < n0 && members.contains(#[trigger] f0[q]) && linked(f0, enders, p, q);
                assert(f[q] == f0[q]);
                assert forall|r: int| (p <= r < q || q <= r < p) implies !enders[
                #[trigger] f[r] as int] by {
                    assert(!enders[f0[r] as int]);
                }
                assert(near_member(f, enders, members, p));
            }
            if near_member(f, enders, members, p) {
                let q = choose|q: int|
                    0 <= q < f.len() && members.contains(#[trigger] f[q]) && linked(
                        f,
                        enders,
                        p,
                        q,
                    );
                if q >= n0 {
                    assert(!enders[f[n0 - 1] as int]);
                }
                assert(members.contains(f0[q]));
                assert forall|r: int| (p <= r < q || q <= r < p) implies !enders[
                #[trigger] f0[r] as int] by {
                    assert(!enders[f[r] as int]);
                }
                assert(near_member(f0, enders, members, p));
            }
        }
        lemma_tally_same(n0, p0, pf);
        lemma_tally_split(n0, n1, pf);
        let pl = shifted(pf, n0);
        assert forall|i: int| 0 <= i < n1 implies #[trigger] near_member(
            f,
            enders,
            members,
            n0 + i,
        ) == touches(last, members) by {
            let p = n0 + i;
            if touches(last, members) {
                let j = choose|j: int| 0 <= j < n1 && members.contains(#[trigger] last[j]);
                let q = n0 + j;
                assert(f[q] == last[j]);
                assert forall|r: int| (p <= r < q || q <= r < p) implies !enders[
                #[trigger] f[r] as int] by {
                    assert(f[r] == last[r - n0]);
                    assert(!enders[sents[sents.len() - 1][r - n0] as int]);
                }
                assert(near_member(f, enders, members, p));
            }
            if near_member(f, enders, members, p) {
                let q = choose|q: int|
                    0 <= q < f.len() && members.contains(#[trigger] f[q]) && linked(
                        f,
                        enders,
                        p,
                        q,
                    );
                if q < n0 {
                    assert(!enders[f[n0 - 1] as int]);
                    assert(f[n0 - 1] == f0.last());
                }
                assert(members.contains(last[q - n0]));
            }
        }
        if touches(last, members) {
            lemma_occurrences_joined(topic_tokens(rest, members), last, t);
            law_occurrences_tally(last, t);
            lemma_tally_same(n1, holding(last, t), pl);
        } else {
            lemma_tally_none(n1, pl);
        }
    } else {
        assert(topic_tokens(sents, members).len() == 0);
        assert(f.len() == 0);
    }
}

/// The words of all sentences behind a question of a type are those at positions
/// that answer the type.
#[verifier::rlimit(60)]
proof fn lemma_answer_tally(sents: Seq<Seq<u8>>, enders: Seq<bool>, id: u8, qmark: u8, t: u8)
    requires
        well_cut(sents, enders),
    ensures
        occurrences(answer_tokens(sents, id, qmark), t) == tally(
            flat(sents).len() as int,
            with_type(flat(sents), enders, id, qmark, t),
        ),
    decreases sents.len(),
{
    let f = flat(sents);
    let pf = with_type(f, enders, id, qmark, t);
    if sents.len() > 0 {
        let rest = sents.drop_last();
        let last = sents.last();
        let f0 = flat(rest);
        let n0 = f0.len() as int;
        let n1 = last.len() as int;
        lemma_well_cut_rest(sents, enders);
        lemma_answer_tally(rest, enders, id, qmark, t);
        assert(last == sents[sents.len() - 1]);
        assert forall|r: int| 0 <= r < n0 implies #[trigger] f[r] == f0[r] by {}
        assert forall|i: int| 0 <= i < n1 implies f[n0 + i] == #[trigger] last[i] by {}
        let p0 = with_type(f0, enders, id, qmark, t);
        assert forall|p: int| 0 <= p < n0 implies #[trigger] p0(p) == pf(p) by {
            lemma_answers_front(f0, f, enders, id, qmark, p);
        }
        lemma_tally_same(n0, p0, pf);
        lemma_tally_split(n0, n1, pf);
        let pl = shifted(pf, n0);
        let asked = sents.len() >= 2 && asks(sents[sents.len() - 2], id, qmark);
        assert forall|i: int| 0 <= i < n1 implies #[trigger] answers_type(
            f,
            enders,
            id,
            qmark,
            n0 + i,
        ) == asked by {
            lemma_answers_last(sents, enders, id, qmark, i);
        }
        assert(sents.len() < 2 ==> answer_tokens(rest, id, qmark) =~= seq![]);
        if asked {
            lemma_occurrences_joined(answer_tokens(rest, id, qmark), last, t);
            law_occurrences_tally(last, t);
            lemma_tally_same(n1, holding(last, t), pl);
        } else {
            lemma_tally_none(n1, pl);
            assert(answer_tokens(sents, id, qmark) =~= answer_tokens(rest, id, qmark));
        }
    } else {
        assert(answer_tokens(sents, id, qmark).len() == 0);
        assert(f.len() == 0);
    }
}

/// Whether a position answers a type depends on what is before it alone.
proof fn lemma_answers_front(
    a: Seq<u8>,
    b: Seq<u8>,
    enders: Seq<bool>,
    id: u8,
    qmark: u8,
    p: int,
)
    requires
        0 <= p < a.len() <= b.len(),
        forall|r: int| 0 <= r < a.len() ==> #[trigger] b[r] == a[r],
    ensures
        answers_type(a, enders, id, qmark, p) == answers_type(b, enders, id, qmark, p),
{
    assert forall|x: int, y: int| 0 <= x <= a.len() && 0 <= y <= a.len() implies #[trigger] linked(
        a,
        enders,
        x,
        y,
    ) == linked(b, enders, x, y) by {
        if linked(a, enders, x, y) {
            assert forall|r: int| (x <= r < y || y <= r < x) implies !enders[
            #[trigger] b[r] as int] by {
                assert(!enders[a[r] as int]);
            }
        }
        if linked(b, enders, x, y) {
            assert forall|r: int| (x <= r < y || y <= r < x) implies !enders[
            #[trigger] a[r] as int] by {
                assert(!enders[b[r] as int]);
            }
        }
    }
    if answers_type(a, enders, id, qmark, p) {
        let (end, q, s) = choose|end: int, q: int, s: int|
            #![trigger a[end], a[q], linked(a, enders, s, q)]
            0 <= s <= q <= end < p && q < s + 3 && a[end] == qmark && enders[a[end] as int]
                && a[q] == id && linked(a, enders, end + 1, p) && linked(a, enders, q, end)
                && linked(a, enders, s, q) && (s == 0 || enders[a[s - 1] as int]);
        assert(b[end] == a[end] && b[q] == a[q] && (s > 0 ==> b[s - 1] == a[s - 1]));
        assert(linked(a, enders, end + 1, p) && linked(a, enders, q, end));
        assert(linked(b, enders, s, q));
    }
    if answers_type(b, enders, id, qmark, p) {
        let (end, q, s) = choose|end: int, q: int, s: int|
            #![trigger b[end], b[q], linked(b, enders, s, q)]
            0 <= s <= q <= end < p && q < s + 3 && b[end] == qmark && enders[b[end] as int]
                && b[q] == id && linked(b, enders, end + 1, p) && linked(b, enders, q, end)
                && linked(b, enders, s, q) && (s == 0 || enders[b[s - 1] as int]);
        assert(b[end] == a[end] && b[q] == a[q] && (s > 0 ==> b[s - 1] == a[s - 1]));
        assert(linked(a, enders, end + 1, p) == linked(b, enders, end + 1, p));
        assert(linked(a, enders, q, end) == linked(b, enders, q, end));
        assert(linked(a, enders, s, q));
    }
}

/// A position of the last sentence answers a type where the sentence before asks.
#[verifier::rlimit(60)]
proof fn lemma_answers_last(sents: Seq<Seq<u8>>, enders: Seq<bool>, id: u8, qmark: u8, i: int)
    requires
        well_cut(sents, enders),
        sents.len() > 0,
        0 <= i < sents.last().len(),
    ensures
        ({
            let n0 = flat(sents.drop_last()).len() as int;
            answers_type(flat(sents), enders, id, qmark, n0 + i) == (sents.len() >= 2 && asks(
                sents[sents.len() - 2],
                id,
                qmark,
            ))
        }),
{
    let f = flat(sents);
    let f0 = flat(sents.drop_last());
    let n0 = f0.len() as int;
    let last = sents[sents.len() - 1];
    let p = n0 + i;
    lemma_well_cut_rest(sents, enders);
    assert forall|r: int| 0 <= r < n0 implies #[trigger] f[r] == f0[r] by {}
    assert forall|r: int| n0 <= r < p implies !enders[#[trigger] f[r] as int] by {
        assert(f[r] == last[r - n0]);
        assert(!enders[sents[sents.len() - 1][r - n0] as int]);
    }
    if n0 > 0 {
        assert(f[n0 - 1] == f0.last());
    }
    if sents.len() >= 2 {
        let prev = sents[sents.len() - 2];
        let n1 = n0 - prev.len();
        let rest = sents.drop_last();
        assert(rest.last() == prev);
        lemma_well_cut_rest(rest, enders);
        assert forall|k: int| 0 <= k < prev.len() implies f[n1 + k] == #[trigger] prev[k] by {
            assert(f0[n1 + k] == prev[k]);
        }
        assert forall|r: int| n1 <= r < n0 - 1 implies !enders[#[trigger] f[r] as int] by {
            assert(f[r] == prev[r - n1]);
            assert(!enders[sents[sents.len() - 2][r - n1] as int]);
        }
        assert(prev[prev.len() - 1] == prev.last());
        assert(f[n0 - 1] == prev.last());
        if n1 > 0 {
            assert(flat(rest.drop_last()).len() == n1);
            assert(f[n1 - 1] == flat(rest.drop_last()).last());
            assert(enders[f[n1 - 1] as int]);
        }
        if asks(prev, id, qmark) {
            let k = choose|k: int| 0 <= k < 3 && k < prev.len() && #[trigger] prev[k] == id;
            let (end, q, s) = (n0 - 1, n1 + k, n1);
            assert(f[end] == qmark && f[q] == id);
            assert(linked(f, enders, end + 1, p));
            assert(linked(f, enders, q, end));
            assert(linked(f, enders, s, q));
        }
        if answers_type(f, enders, id, qmark, p) {
            let (end, q, s) = choose|end: int, q: int, s: int|
                #![trigger f[end], f[q], linked(f, enders, s, q)]
                0 <= s <= q <= end < p && q < s + 3 && f[end] == qmark && enders[f[end] as int]
                    && f[q] == id && linked(f, enders, end + 1, p) && linked(f, enders, q, end)
                    && linked(f, enders, s, q) && (s == 0 || enders[f[s - 1] as int]);
            if end < n0 - 1 {
                assert(!enders[f[n0 - 1] as int]);
            }
            assert(end == n0 - 1);
            if q < n1 {
                assert(!enders[f[n1 - 1] as int]);
            }
            if s < n1 {
                assert(!enders[f[n1 - 1] as int]);
            }
            if s > n1 {
                assert(!enders[f[s - 1] as int]);
            }
            assert(prev[q - n1] == id);
        }
    } else {
        if answers_type(f, enders, id, qmark, p) {
            let (end, q, s) = choose|end: int, q: int, s: int|
                #![trigger f[end], f[q], linked(f, enders, s, q)]
                0 <= s <= q <= end < p && q < s + 3 && f[end] == qmark && enders[f[end] as int]
                    && f[q] == id && linked(f, enders, end + 1, p) && linked(f, enders, q, end)
                    && linked(f, enders, s, q) && (s == 0 || enders[f[s - 1] as int]);
            assert(!enders[f[end] as int]);
        }
    }
}

/// How often a word goes with a topic: at how many positions of the corpus it stands
/// in a sentence with a member of the topic anywhere in it. And how often it answers
/// a type of question: at how many positions it stands in the sentence behind a
/// question with the type's word among its first three.
pub proof fn law_conditioned_counts(
    ids: Seq<u8>,
    enders: Seq<bool>,
    members: Seq<u8>,
    id: u8,
    qmark: u8,
    t: u8,
)
    ensures
        occurrences(topic_tokens(sentences_of(ids, enders), members), t) == tally(
            ids.len() as int,
            with_topic(ids, enders, members, t),
        ),
        occurrences(answer_tokens(sentences_of(ids, enders), id, qmark), t) == tally(
            ids.len() as int,
            with_type(ids, enders, id, qmark, t),
        ),
{
    law_sentences_cut(ids, enders);
    lemma_topic_tally(sentences_of(ids, enders), enders, members, t);
    lemma_answer_tally(sentences_of(ids, enders), enders, id, qmark, t);
}

/// Which ids are punctuation, and which end a sentence.
pub proof fn law_marks_and_enders(words: Seq<Seq<char>>, t: int)
    requires
        0 <= t < 256,
    ensures
        marks_of(words).len() == 256,
        enders_of(words).len() == 256,
        marks_of(words)[t] <==> t < words.len() && (words[t] =~= seq!['.'] || words[t] =~= seq![',']
            || words[t] =~= seq!['!'] || words[t] =~= seq!['?']),
        enders_of(words)[t] <==> t < words.len() && (words[t] =~= seq!['.'] || words[t] =~= seq![
            '!',
        ] || words[t] =~= seq!['?']),
{
}

/// What can be counted: 62 times every count fits in 32 bits.
pub proof fn law_countable<T>(s: Seq<T>)
    ensures
        countable(s) <==> forall|x: T|
            62 * tally(s.len() as int, #[trigger] holding(s, x)) <= 0xFFFF_FFFF,
{
    assert forall|x: T| #[trigger] occurrences(s, x) == tally(s.len() as int, holding(s, x)) by {
        law_occurrences_tally(s, x);
    }
    if countable(s) {
        assert forall|x: T| 62 * tally(s.len() as int, #[trigger] holding(s, x)) <= 0xFFFF_FFFF by {
            assert(occurrences(s, x) <= MAX_COUNT);
        }
    }
    if forall|x: T| 62 * tally(s.len() as int, #[trigger] holding(s, x)) <= 0xFFFF_FFFF {
        assert forall|x: T| #[trigger] occurrences(s, x) <= MAX_COUNT by {
            assert(62 * tally(s.len() as int, holding(s, x)) <= 0xFFFF_FFFF);
        }
    }
}

} // verus!
