//! Records and biases: how word counts become the scored candidate lists and
//! the conditioning pages of the model.

use vstd::prelude::*;
use crate::bytes::has_byte;
use crate::model::{BASE_MAX, BIAS_MAX, NO_WORD, REC_LEN, TOP_K};

verus! {

/// The largest count that the 32-bit score arithmetic takes.
pub const MAX_COUNT: u32 = 69_273_666;

// ---------------------------------------------------------------------------
// Counting
// ---------------------------------------------------------------------------

/// How often `x` occurs in `s`.
pub open spec fn occurrences<T>(s: Seq<T>, x: T) -> nat
    decreases s.len(),
{
    if s.len() == 0 {
        0
    } else if s.last() == x {
        occurrences(s.drop_last(), x) + 1
    } else {
        occurrences(s.drop_last(), x)
    }
}

/// Nothing occurs more often than the sequence is long, and what occurs is what
/// the sequence contains.
pub proof fn lemma_occurrences<T>(s: Seq<T>, x: T)
    ensures
        occurrences(s, x) <= s.len(),
        occurrences(s, x) > 0 <==> s.contains(x),
    decreases s.len(),
{
    if s.len() > 0 {
        lemma_occurrences(s.drop_last(), x);
        assert(s =~= s.drop_last().push(s.last()));
        if s.drop_last().contains(x) {
            let i = s.drop_last().index_of(x);
            assert(s[i] == x);
        }
        if s.contains(x) && s.last() != x {
            let i = s.index_of(x);
            assert(s.drop_last()[i] == x);
        }
        if s.last() == x {
            assert(s[s.len() - 1] == x);
        }
    }
}

/// The counts of two lists add up in the joined list.
pub proof fn lemma_occurrences_joined<T>(s: Seq<T>, t: Seq<T>, x: T)
    ensures
        occurrences(s + t, x) == occurrences(s, x) + occurrences(t, x),
    decreases t.len(),
{
    if t.len() == 0 {
        assert(s + t =~= s);
    } else {
        lemma_occurrences_joined(s, t.drop_last(), x);
        assert((s + t).drop_last() =~= s + t.drop_last());
    }
}

/// The front of a list holds nothing more often than the list.
pub proof fn lemma_occurrences_front<T>(s: Seq<T>, n: int, x: T)
    requires
        0 <= n <= s.len(),
    ensures
        occurrences(s.take(n), x) <= occurrences(s, x),
{
    lemma_occurrences_joined(s.take(n), s.skip(n), x);
    assert(s.take(n) + s.skip(n) =~= s);
}

/// Where `x` stands only at places at which another list has `y`, it occurs no
/// more often than `y` does there.
pub proof fn lemma_occurrences_matched<T, U>(s: Seq<T>, x: T, t: Seq<U>, y: U)
    requires
        s.len() == t.len(),
        forall|i: int| 0 <= i < s.len() && #[trigger] s[i] == x ==> t[i] == y,
    ensures
        occurrences(s, x) <= occurrences(t, y),
    decreases s.len(),
{
    if s.len() > 0 {
        let s1 = s.drop_last();
        let t1 = t.drop_last();
        assert forall|i: int| 0 <= i < s1.len() && #[trigger] s1[i] == x implies t1[i] == y by {
            assert(s[i] == x);
        }
        lemma_occurrences_matched(s1, x, t1, y);
        assert(s.last() == s[s.len() - 1]);
    }
}

/// No word occurs more often than the score arithmetic takes.
pub open spec fn countable<T>(s: Seq<T>) -> bool {
    forall|x: T| #[trigger] occurrences(s, x) <= MAX_COUNT
}

// ---------------------------------------------------------------------------
// Order of candidates
// ---------------------------------------------------------------------------

/// Whether candidate `a` comes before `b`: higher counts first, punctuation
/// loses ties, then smaller ids first.
pub open spec fn ahead(counts: Seq<u32>, marks: Seq<bool>, a: u8, b: u8) -> bool {
    ||| counts[a as int] > counts[b as int]
    ||| counts[a as int] == counts[b as int] && !marks[a as int] && marks[b as int]
    ||| counts[a as int] == counts[b as int] && marks[a as int] == marks[b as int] && a < b
}

/// A word that was counted and is not yet taken.
pub open spec fn candidate(counts: Seq<u32>, taken: Seq<u8>, t: u8) -> bool {
    counts[t as int] > 0 && !taken.contains(t)
}

/// The candidate that comes before all others.
pub open spec fn is_next(counts: Seq<u32>, marks: Seq<bool>, taken: Seq<u8>, t: u8) -> bool {
    &&& candidate(counts, taken, t)
    &&& forall|u: u8|
        u != t && #[trigger] candidate(counts, taken, u) ==> ahead(counts, marks, t, u)
}

/// The first `k` candidates in order, fewer where there are fewer.
pub open spec fn top(counts: Seq<u32>, marks: Seq<bool>, k: int) -> Seq<u8>
    decreases k,
{
    if k <= 0 {
        seq![]
    } else {
        let before = top(counts, marks, k - 1);
        if exists|t: u8| is_next(counts, marks, before, t) {
            before.push(choose|t: u8| is_next(counts, marks, before, t))
        } else {
            before
        }
    }
}

/// The score of a count next to the record's largest, 1 to `BASE_MAX`.
pub open spec fn base_score(n: u32, most: u32) -> u8 {
    let s = 1 + (BASE_MAX - 1) * n / most as int;
    if s > BASE_MAX {
        BASE_MAX
    } else {
        s as u8
    }
}

/// The record of some counts: up to eight pairs of candidate and score, in
/// order, padded with (`NO_WORD`, 0).
pub open spec fn record_of(counts: Seq<u32>, marks: Seq<bool>) -> Seq<u8> {
    let list = top(counts, marks, TOP_K as int);
    Seq::new(
        REC_LEN as nat,
        |j: int|
            if j / 2 < list.len() {
                if j % 2 == 0 {
                    list[j / 2]
                } else {
                    base_score(counts[list[j / 2] as int], counts[list[0] as int])
                }
            } else if j % 2 == 0 {
                NO_WORD
            } else {
                0
            },
    )
}

proof fn lemma_next_unique(counts: Seq<u32>, marks: Seq<bool>, taken: Seq<u8>, a: u8, b: u8)
    requires
        is_next(counts, marks, taken, a),
        is_next(counts, marks, taken, b),
    ensures
        a == b,
{
    if a != b {
        assert(candidate(counts, taken, a) && candidate(counts, taken, b));
        assert(ahead(counts, marks, a, b) && ahead(counts, marks, b, a));
    }
}

proof fn lemma_top_ends(counts: Seq<u32>, marks: Seq<bool>, k: int, n: int)
    requires
        0 <= k <= n,
        forall|t: u8| !is_next(counts, marks, top(counts, marks, k), t),
    ensures
        top(counts, marks, n) == top(counts, marks, k),
    decreases n - k,
{
    if k < n {
        lemma_top_ends(counts, marks, k, n - 1);
    }
}

fn find_next(counts: &[u32], marks: &[bool], taken: &Vec<u8>) -> (next: Option<u8>)
    requires
        counts@.len() == 256,
        marks@.len() == 256,
    ensures
        match next {
            Some(t) => is_next(counts@, marks@, taken@, t),
            None => forall|t: u8| !is_next(counts@, marks@, taken@, t),
        },
{
    let mut best: Option<u8> = None;
    let mut t: usize = 0;
    while t < 256
        invariant
            t <= 256,
            counts@.len() == 256,
            marks@.len() == 256,
            match best {
                Some(b) => {
                    &&& candidate(counts@, taken@, b)
                    &&& forall|u: u8|
                        u < t && u != b && #[trigger] candidate(counts@, taken@, u) ==> ahead(
                            counts@,
                            marks@,
                            b,
                            u,
                        )
                },
                None => forall|u: u8| u < t ==> !#[trigger] candidate(counts@, taken@, u),
            },
        decreases 256 - t,
    {
        let c: u8 = t as u8;
        if counts[t] > 0 && !has_byte(taken, c) {
            assert(candidate(counts@, taken@, c));
            match best {
                None => {
                    best = Some(c);
                },
                Some(b) => {
                    let i: usize = b as usize;
                    if counts[t] > counts[i] || (counts[t] == counts[i] && !marks[t] && marks[i])
                        || (counts[t] == counts[i] && marks[t] == marks[i] && c < b) {
                        best = Some(c);
                    }
                },
            }
        }
        t = t + 1;
    }
    best
}

fn first_candidates(counts: &[u32], marks: &[bool]) -> (list: Vec<u8>)
    requires
        counts@.len() == 256,
        marks@.len() == 256,
    ensures
        list@ == top(counts@, marks@, TOP_K as int),
{
    let mut list: Vec<u8> = Vec::new();
    let mut k: usize = 0;
    while k < TOP_K
        invariant
            k <= TOP_K,
            counts@.len() == 256,
            marks@.len() == 256,
            list@ == top(counts@, marks@, k as int),
        decreases TOP_K - k,
    {
        match find_next(counts, marks, &list) {
            Some(t) => {
                proof {
                    let chosen = choose|u: u8| is_next(counts@, marks@, list@, u);
                    lemma_next_unique(counts@, marks@, list@, t, chosen);
                }
                list.push(t);
            },
            None => {
                proof {
                    lemma_top_ends(counts@, marks@, k as int, TOP_K as int);
                }
                return list;
            },
        }
        k = k + 1;
    }
    list
}

/// Candidates in a record were counted, each is there once, and they stand in
/// order.
pub proof fn law_top_ordered(counts: Seq<u32>, marks: Seq<bool>, k: int)
    ensures
        top(counts, marks, k).len() <= vstd::math::max(k, 0),
        forall|i: int|
            0 <= i < top(counts, marks, k).len() ==> counts[#[trigger] top(
                counts,
                marks,
                k,
            )[i] as int] > 0,
        forall|i: int, j: int|
            0 <= i < j < top(counts, marks, k).len() ==> top(counts, marks, k)[i] != top(
                counts,
                marks,
                k,
            )[j] && ahead(
                counts,
                marks,
                #[trigger] top(counts, marks, k)[i],
                #[trigger] top(counts, marks, k)[j],
            ),
        forall|i: int, u: u8|
            0 <= i < top(counts, marks, k).len() && #[trigger] candidate(
                counts,
                top(counts, marks, k),
                u,
            ) ==> ahead(counts, marks, #[trigger] top(counts, marks, k)[i], u),
    decreases k,
{
    if k > 0 {
        law_top_ordered(counts, marks, k - 1);
        let before = top(counts, marks, k - 1);
        let after = top(counts, marks, k);
        if exists|t: u8| is_next(counts, marks, before, t) {
            let t = choose|t: u8| is_next(counts, marks, before, t);
            assert(candidate(counts, before, t));
            assert forall|i: int, j: int| 0 <= i < j < after.len() implies after[i] != after[j]
                && ahead(counts, marks, #[trigger] after[i], #[trigger] after[j]) by {
                assert(before.contains(before[i]));
                if j < before.len() {
                    assert(ahead(counts, marks, before[i], before[j]));
                } else {
                    assert(ahead(counts, marks, before[i], t));
                }
            }
            assert forall|i: int, u: u8|
                0 <= i < after.len() && #[trigger] candidate(counts, after, u) implies ahead(
                counts,
                marks,
                #[trigger] after[i],
                u,
            ) by {
                if before.contains(u) {
                    let p = before.index_of(u);
                    assert(after[p] == u);
                    assert(after.contains(u));
                }
                assert(candidate(counts, before, u));
                assert(after[after.len() - 1] == t);
                assert(after.contains(t));
                if i < before.len() {
                    assert(ahead(counts, marks, before[i], u));
                }
            }
        }
    }
}

/// There is a first candidate exactly where something was counted.
pub proof fn lemma_top_first(counts: Seq<u32>, marks: Seq<bool>, t: u8)
    requires
        counts.len() == 256,
        marks.len() == 256,
        counts[t as int] > 0,
    ensures
        top(counts, marks, TOP_K as int).len() > 0,
{
    lemma_exists_next(counts, marks, 256);
    let none: Seq<u8> = seq![];
    assert(top(counts, marks, 0) == none);
    assert(candidate(counts, none, t));
    let first = choose|t: u8|
        t < 256 && #[trigger] candidate(counts, none, t) && forall|u: u8|
            u < 256 && u != t && #[trigger] candidate(counts, none, u) ==> ahead(
                counts,
                marks,
                t,
                u,
            );
    assert(is_next(counts, marks, none, first));
    assert(top(counts, marks, 1).len() == 1);
    lemma_top_grows(counts, marks, 1, TOP_K as int);
}

proof fn lemma_top_grows(counts: Seq<u32>, marks: Seq<bool>, k: int, n: int)
    requires
        0 <= k <= n,
    ensures
        top(counts, marks, k).is_prefix_of(top(counts, marks, n)),
    decreases n - k,
{
    if k < n {
        lemma_top_grows(counts, marks, k, n - 1);
    }
}

/// Among the counted words below `n` one comes first.
proof fn lemma_exists_next(counts: Seq<u32>, marks: Seq<bool>, n: int)
    requires
        0 <= n <= 256,
    ensures
        (exists|t: u8| t < n && #[trigger] candidate(counts, seq![], t)) ==> exists|t: u8|
            t < n && #[trigger] candidate(counts, seq![], t) && forall|u: u8|
                u < n && u != t && #[trigger] candidate(counts, seq![], u) ==> ahead(
                    counts,
                    marks,
                    t,
                    u,
                ),
    decreases n,
{
    if n > 0 {
        lemma_exists_next(counts, marks, n - 1);
        let last = (n - 1) as u8;
        if exists|t: u8| t < n - 1 && #[trigger] candidate(counts, seq![], t) {
            let b = choose|t: u8|
                t < n - 1 && #[trigger] candidate(counts, seq![], t) && forall|u: u8|
                    u < n - 1 && u != t && #[trigger] candidate(counts, seq![], u) ==> ahead(
                        counts,
                        marks,
                        t,
                        u,
                    );
            if candidate(counts, seq![], last) && ahead(counts, marks, last, b) {
                assert(candidate(counts, seq![], last));
                assert forall|u: u8|
                    u < n && u != last && #[trigger] candidate(counts, seq![], u) implies ahead(
                    counts,
                    marks,
                    last,
                    u,
                ) by {
                    assert(u == b || ahead(counts, marks, b, u));
                }
            } else {
                assert(candidate(counts, seq![], b));
                assert forall|u: u8|
                    u < n && u != b && #[trigger] candidate(counts, seq![], u) implies ahead(
                    counts,
                    marks,
                    b,
                    u,
                ) by {
                    assert(u == last || u < n - 1);
                }
            }
        }
    }
}

/// The record of counts that are all zero is empty, any other record is not.
pub proof fn law_record_empty(counts: Seq<u32>, marks: Seq<bool>)
    requires
        counts.len() == 256,
        marks.len() == 256,
    ensures
        counts[NO_WORD as int] == 0 ==> (record_of(counts, marks)[0] == NO_WORD <==> forall|t: u8|
            #[trigger] counts[t as int] == 0),
        (forall|t: u8| #[trigger] counts[t as int] == 0) ==> record_of(counts, marks) == Seq::new(
            REC_LEN as nat,
            |j: int|
                if j % 2 == 0 {
                    NO_WORD
                } else {
                    0u8
                },
        ),
{
    let list = top(counts, marks, TOP_K as int);
    law_top_ordered(counts, marks, TOP_K as int);
    if exists|t: u8| counts[t as int] > 0 {
        let t = choose|t: u8| counts[t as int] > 0;
        lemma_top_first(counts, marks, t);
        assert(counts[list[0] as int] > 0);
        assert(record_of(counts, marks)[0] == list[0]);
    } else {
        if list.len() > 0 {
            assert(counts[list[0] as int] > 0);
        }
        assert(record_of(counts, marks) =~= Seq::new(
            REC_LEN as nat,
            |j: int|
                if j % 2 == 0 {
                    NO_WORD
                } else {
                    0u8
                },
        ));
    }
}

/// The scores in a record are 1 to `BASE_MAX`: the first is `BASE_MAX`, and none
/// is higher than the one before it.
pub proof fn law_record_scores(counts: Seq<u32>, marks: Seq<bool>)
    ensures
        ({
            let n = top(counts, marks, TOP_K as int).len();
            let rec = record_of(counts, marks);
            &&& n <= TOP_K
            &&& n > 0 ==> rec[1] == BASE_MAX
            &&& forall|k: int| 0 <= k < n ==> 1 <= #[trigger] rec[2 * k + 1] <= BASE_MAX
            &&& forall|i: int, j: int|
                0 <= i < j < n ==> #[trigger] rec[2 * i + 1] >= #[trigger] rec[2 * j + 1]
        }),
{
    let list = top(counts, marks, TOP_K as int);
    let rec = record_of(counts, marks);
    law_top_ordered(counts, marks, TOP_K as int);
    if list.len() > 0 {
        let most = counts[list[0] as int];
        assert forall|k: int| 0 <= k < list.len() implies 0 < counts[#[trigger] list[k] as int]
            && counts[list[k] as int] <= most && rec[2 * k + 1] == base_score(
            counts[list[k] as int],
            most,
        ) by {
            if k > 0 {
                assert(ahead(counts, marks, list[0], list[k]));
            }
            assert((2 * k + 1) / 2 == k);
        }
        assert forall|k: int| 0 <= k < list.len() implies 1 <= #[trigger] rec[2 * k + 1]
            <= BASE_MAX by {
            lemma_base_score(counts[list[k] as int], counts[list[k] as int], most);
        }
        assert forall|i: int, j: int| 0 <= i < j < list.len() implies #[trigger] rec[2 * i + 1]
            >= #[trigger] rec[2 * j + 1] by {
            assert(ahead(counts, marks, list[i], list[j]));
            lemma_base_score(counts[list[j] as int], counts[list[i] as int], most);
        }
        lemma_base_score(most, most, most);
        assert(rec[1] == base_score(counts[list[0] as int], most));
        assert(62 * most / most as int == 62) by (nonlinear_arith)
            requires
                most > 0,
        ;
    }
}

proof fn lemma_base_score(a: u32, b: u32, most: u32)
    requires
        0 < a <= b <= most,
    ensures
        1 <= base_score(a, most) <= base_score(b, most) <= BASE_MAX,
{
    assert(0 <= 62 * a / most as int <= 62 * b / most as int) by (nonlinear_arith)
        requires
            0 < a <= b <= most,
    ;
}

/// The record of some counts.
pub fn record(counts: &[u32], marks: &[bool]) -> (rec: Vec<u8>)
    requires
        counts@.len() == 256,
        marks@.len() == 256,
        forall|t: int| 0 <= t < 256 ==> #[trigger] counts@[t] <= MAX_COUNT,
    ensures
        rec@ == record_of(counts@, marks@),
{
    let list = first_candidates(counts, marks);
    proof {
        law_top_ordered(counts@, marks@, TOP_K as int);
    }
    let mut rec: Vec<u8> = Vec::new();
    let mut k: usize = 0;
    while k < TOP_K
        invariant
            k <= TOP_K,
            counts@.len() == 256,
            list@ == top(counts@, marks@, TOP_K as int),
            list@.len() <= TOP_K,
            forall|i: int| 0 <= i < list@.len() ==> counts@[#[trigger] list@[i] as int] > 0,
            forall|t: int| 0 <= t < 256 ==> #[trigger] counts@[t] <= MAX_COUNT,
            rec@ == record_of(counts@, marks@).take(2 * k),
        decreases TOP_K - k,
    {
        if k < list.len() {
            assert(counts@[list@[0] as int] > 0);
            let n: u32 = counts[list[k] as usize];
            let most: u32 = counts[list[0] as usize];
            assert(n <= MAX_COUNT);
            assert(62 * n / most as int <= 62 * n) by (nonlinear_arith)
                requires
                    most > 0,
                    n >= 0,
            ;
            let s: u32 = 1 + (BASE_MAX as u32 - 1) * n / most;
            rec.push(list[k]);
            rec.push(
                if s > BASE_MAX as u32 {
                    BASE_MAX
                } else {
                    s as u8
                },
            );
        } else {
            rec.push(NO_WORD);
            rec.push(0);
        }
        assert((2 * k) / 2 == k && (2 * k + 1) / 2 == k);
        assert(rec@ =~= record_of(counts@, marks@).take(2 * (k + 1)));
        k = k + 1;
    }
    rec
}

// ---------------------------------------------------------------------------
// Biases
// ---------------------------------------------------------------------------

/// The largest of the first `n` counts, at least 1.
pub open spec fn most_of(counts: Seq<u32>, n: int) -> int
    decreases n,
{
    if n <= 0 {
        1
    } else {
        vstd::math::max(most_of(counts, n - 1), counts[n - 1] as int)
    }
}

/// The bias of a count: `BIAS_MAX` parts of the largest, rounded up.
pub open spec fn bias_of(counts: Seq<u32>, t: int) -> u8 {
    let most = most_of(counts, counts.len() as int);
    ((BIAS_MAX * counts[t] + most - 1) / most) as u8
}

proof fn lemma_most(counts: Seq<u32>, n: int)
    requires
        0 <= n <= counts.len(),
    ensures
        most_of(counts, n) >= 1,
        forall|i: int| 0 <= i < n ==> #[trigger] counts[i] <= most_of(counts, n),
    decreases n,
{
    if n > 0 {
        lemma_most(counts, n - 1);
    }
}

/// Biases are 0 to `BIAS_MAX`, and 0 exactly for words that were not counted.
pub proof fn law_bias_range(counts: Seq<u32>, t: int)
    requires
        0 <= t < counts.len(),
    ensures
        bias_of(counts, t) <= BIAS_MAX,
        bias_of(counts, t) == 0 <==> counts[t] == 0,
{
    let most = most_of(counts, counts.len() as int);
    lemma_most(counts, counts.len() as int);
    let n = counts[t] as int;
    lemma_bias(n, most);
}

proof fn lemma_bias(n: int, most: int)
    requires
        0 <= n <= most,
        1 <= most,
    ensures
        0 <= (15 * n + most - 1) / most <= 15,
        (15 * n + most - 1) / most == 0 <==> n == 0,
{
    assert((15 * n + most - 1) / most <= 15) by (nonlinear_arith)
        requires
            0 <= n <= most,
            1 <= most,
    ;
    assert(n == 0 ==> (15 * n + most - 1) / most == 0) by (nonlinear_arith)
        requires
            0 <= n,
            1 <= most,
    ;
    assert(n > 0 ==> (15 * n + most - 1) / most >= 1) by (nonlinear_arith)
        requires
            1 <= most,
    ;
}

/// The biases of some counts.
pub fn biases(counts: &[u32]) -> (page: Vec<u8>)
    requires
        counts@.len() == 256,
        forall|t: int| 0 <= t < 256 ==> #[trigger] counts@[t] <= MAX_COUNT,
    ensures
        page@ == Seq::new(256, |t: int| bias_of(counts@, t)),
{
    let mut most: u32 = 1;
    let mut i: usize = 0;
    while i < 256
        invariant
            i <= 256,
            counts@.len() == 256,
            1 <= most <= MAX_COUNT,
            forall|t: int| 0 <= t < 256 ==> #[trigger] counts@[t] <= MAX_COUNT,
            most == most_of(counts@, i as int),
        decreases 256 - i,
    {
        if counts[i] > most {
            most = counts[i];
        }
        i = i + 1;
    }
    let mut page: Vec<u8> = Vec::new();
    let mut t: usize = 0;
    while t < 256
        invariant
            t <= 256,
            counts@.len() == 256,
            1 <= most <= MAX_COUNT,
            forall|t: int| 0 <= t < 256 ==> #[trigger] counts@[t] <= MAX_COUNT,
            most == most_of(counts@, 256),
            page@ == Seq::new(t as nat, |t: int| bias_of(counts@, t)),
        decreases 256 - t,
    {
        proof {
            lemma_most(counts@, 256);
            lemma_bias(counts@[t as int] as int, most as int);
        }
        page.push(((BIAS_MAX as u32 * counts[t] + most - 1) / most) as u8);
        t = t + 1;
    }
    page
}

} // verus!
