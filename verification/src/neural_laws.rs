//! What the forward pass has to satisfy: explicit sums, and how each word of a
//! context acts through its own half of the weights.

use vstd::prelude::*;
use vstd::arithmetic::power2::{lemma_pow2_pos, pow2};
use crate::neural::{
    forward_of, hidden_acc_of, hidden_of, input_sum, layers_fit, lcg_next, least_shift, logit_of,
    max_hidden, max_logit, max_unit, max_word, requantized, unit_sum, NeuralView, LCG_SEED,
};

verus! {

/// The sum of `f` over 0 to `n` - 1.
pub open spec fn sum(f: spec_fn(int) -> int, n: int) -> int
    decreases n,
{
    if n <= 0 {
        0
    } else {
        sum(f, n - 1) + f(n - 1)
    }
}

proof fn lemma_sum_same(f: spec_fn(int) -> int, g: spec_fn(int) -> int, n: int)
    requires
        forall|j: int| 0 <= j < n ==> #[trigger] f(j) == g(j),
    ensures
        sum(f, n) == sum(g, n),
    decreases n,
{
    if n > 0 {
        lemma_sum_same(f, g, n - 1);
        assert(f(n - 1) == g(n - 1));
    }
}

proof fn lemma_sum_minus(f: spec_fn(int) -> int, g: spec_fn(int) -> int, d: spec_fn(int) -> int, n: int)
    requires
        forall|j: int| 0 <= j < n ==> #[trigger] d(j) == f(j) - g(j),
    ensures
        sum(f, n) - sum(g, n) == sum(d, n),
    decreases n,
{
    if n > 0 {
        lemma_sum_minus(f, g, d, n - 1);
        assert(d(n - 1) == f(n - 1) - g(n - 1));
    }
}

/// What a word adds to hidden unit `i` through the half of its weights that starts
/// at `half`: weight times embedding, over the eight dimensions.
pub open spec fn half_sum(n: NeuralView, w: u8, i: int, half: int) -> int {
    sum(|j: int| n.w1[i * 16 + half + j] * n.emb[w * 8 + j], 8)
}

/// What the first word of a context adds; a missing one adds nothing.
pub open spec fn first_half(n: NeuralView, c1: u8, i: int) -> int {
    if c1 == 0xFF {
        0
    } else {
        half_sum(n, c1, i, 0)
    }
}

proof fn lemma_input_halves(n: NeuralView, c1: u8, c2: u8, i: int, k: int)
    requires
        0 <= k <= 8,
    ensures
        input_sum(n, c1, c2, i, k) == (if c1 == 0xFF {
            0
        } else {
            sum(|j: int| n.w1[i * 16 + 0 + j] * n.emb[c1 * 8 + j], k)
        }),
        input_sum(n, c1, c2, i, 8 + k) == input_sum(n, c1, c2, i, 8) + sum(
            |j: int| n.w1[i * 16 + 8 + j] * n.emb[c2 * 8 + j],
            k,
        ),
    decreases k,
{
    if k > 0 {
        lemma_input_halves(n, c1, c2, i, k - 1);
        if c1 == 0xFF {
            assert(n.w1[i * 16 + (k - 1)] * 0 == 0) by (nonlinear_arith);
        }
        assert(input_sum(n, c1, c2, i, 8 + k) == input_sum(n, c1, c2, i, 8 + k - 1) + n.w1[i * 16
            + (8 + k - 1)] * n.emb[c2 * 8 + (k - 1)]);
        assert(i * 16 + (8 + k - 1) == i * 16 + 8 + (k - 1));
    }
}

/// The accumulator of a hidden unit is its bias, what the first word adds through
/// the first eight of its weights, and what the second adds through the last eight.
pub proof fn law_hidden_sum(n: NeuralView, c1: u8, c2: u8, i: int)
    ensures
        hidden_acc_of(n, c1, c2, i) == n.b1[i] + first_half(n, c1, i) + half_sum(n, c2, i, 8),
{
    lemma_input_halves(n, c1, c2, i, 8);
}

/// Each word of a context acts on a hidden unit through its own half of the
/// weights: changing the second word, or the first, changes the accumulator by the
/// weighted difference of the embeddings, whatever the other word is.
pub proof fn law_context_words_act(n: NeuralView, a: u8, b: u8, c: u8, i: int)
    requires
        a != 0xFF,
        b != 0xFF,
    ensures
        hidden_acc_of(n, a, b, i) - hidden_acc_of(n, a, c, i) == sum(
            |j: int| n.w1[i * 16 + 8 + j] * (n.emb[b * 8 + j] - n.emb[c * 8 + j]),
            8,
        ),
        hidden_acc_of(n, a, c, i) - hidden_acc_of(n, b, c, i) == sum(
            |j: int| n.w1[i * 16 + j] * (n.emb[a * 8 + j] - n.emb[b * 8 + j]),
            8,
        ),
        hidden_acc_of(n, a, c, i) - hidden_acc_of(n, 0xFF, c, i) == sum(
            |j: int| n.w1[i * 16 + j] * n.emb[a * 8 + j],
            8,
        ),
{
    law_hidden_sum(n, a, b, i);
    law_hidden_sum(n, a, c, i);
    law_hidden_sum(n, b, c, i);
    law_hidden_sum(n, 0xFF, c, i);
    let fb = |j: int| n.w1[i * 16 + 8 + j] * n.emb[b * 8 + j];
    let fc = |j: int| n.w1[i * 16 + 8 + j] * n.emb[c * 8 + j];
    let d = |j: int| n.w1[i * 16 + 8 + j] * (n.emb[b * 8 + j] - n.emb[c * 8 + j]);
    assert forall|j: int| 0 <= j < 8 implies #[trigger] d(j) == fb(j) - fc(j) by {
        lemma_distributes(
            n.w1[i * 16 + 8 + j] as int,
            n.emb[b * 8 + j] as int,
            n.emb[c * 8 + j] as int,
        );
    }
    lemma_sum_minus(fb, fc, d, 8);
    let ga = |j: int| n.w1[i * 16 + 0 + j] * n.emb[a * 8 + j];
    let gb = |j: int| n.w1[i * 16 + 0 + j] * n.emb[b * 8 + j];
    let e = |j: int| n.w1[i * 16 + j] * (n.emb[a * 8 + j] - n.emb[b * 8 + j]);
    assert forall|j: int| 0 <= j < 8 implies #[trigger] e(j) == ga(j) - gb(j) by {
        lemma_distributes(
            n.w1[i * 16 + j] as int,
            n.emb[a * 8 + j] as int,
            n.emb[b * 8 + j] as int,
        );
    }
    lemma_sum_minus(ga, gb, e, 8);
    lemma_sum_same(ga, |j: int| n.w1[i * 16 + j] * n.emb[a * 8 + j], 8);
}

proof fn lemma_distributes(x: int, a: int, b: int)
    ensures
        x * (a - b) == x * a - x * b,
{
    assert(x * (a - b) == x * a - x * b) by (nonlinear_arith);
}

proof fn lemma_unit_sum(n: NeuralView, t: int, h: Seq<u8>, k: int)
    requires
        k >= 0,
    ensures
        unit_sum(n, t, h, k) == sum(|i: int| n.w2[t * 16 + i] * h[i], k),
    decreases k,
{
    if k > 0 {
        lemma_unit_sum(n, t, h, k - 1);
    }
}

/// A sum brought to a byte: 0 unless it is positive, else its quotient by two to the
/// shift, rounded down and capped.
pub open spec fn is_quotient(acc: int, sh: u8, cap: int, r: u8) -> bool {
    &&& acc <= 0 ==> r == 0
    &&& acc > 0 ==> r <= cap && r * pow2(sh as nat) <= acc
    &&& acc > 0 && r < cap ==> acc < (r + 1) * pow2(sh as nat)
}

proof fn lemma_quotient(acc: int, sh: u8, cap: u8)
    ensures
        is_quotient(acc, sh, cap as int, requantized(acc, sh, cap)),
{
    lemma_pow2_pos(sh as nat);
    let p = pow2(sh as nat) as int;
    if acc > 0 {
        let q = acc / p;
        assert(q * p <= acc < (q + 1) * p && q >= 0) by (nonlinear_arith)
            requires
                p > 0,
                acc > 0,
                q == acc / p,
        ;
        if q > cap {
            assert(cap * p <= q * p) by (nonlinear_arith)
                requires
                    p > 0,
                    q > cap,
            ;
        }
    }
}

/// The whole forward pass: every hidden unit is its explicit sum brought to a byte
/// with the hidden shift, and every base score is the bias of the word and the
/// weighted units, brought to at most 48 with the output shift.
pub proof fn law_forward_pass(n: NeuralView, c1: u8, c2: u8)
    requires
        layers_fit(n),
    ensures
        forward_of(n, c1, c2).len() == n.v,
        exists|h: Seq<u8>|
            #![trigger hidden_fits(n, c1, c2, h)]
            hidden_fits(n, c1, c2, h) && forall|t: int|
                0 <= t < n.v ==> is_quotient(
                    n.b2[t] + sum(|i: int| n.w2[t * 16 + i] * h[i], 16),
                    n.sh_out,
                    48,
                    #[trigger] forward_of(n, c1, c2)[t],
                ),
{
    let h = hidden_of(n, c1, c2);
    assert forall|i: int| 0 <= i < 16 implies is_quotient(
        n.b1[i] + first_half(n, c1, i) + half_sum(n, c2, i, 8),
        n.sh_h,
        255,
        #[trigger] h[i],
    ) by {
        law_hidden_sum(n, c1, c2, i);
        lemma_quotient(hidden_acc_of(n, c1, c2, i), n.sh_h, 255);
    }
    assert(hidden_fits(n, c1, c2, h));
    assert forall|t: int| 0 <= t < n.v implies is_quotient(
        n.b2[t] + sum(|i: int| n.w2[t * 16 + i] * h[i], 16),
        n.sh_out,
        48,
        #[trigger] forward_of(n, c1, c2)[t],
    ) by {
        lemma_unit_sum(n, t, h, 16);
        lemma_quotient(logit_of(n, t, h), n.sh_out, 48);
    }
}

/// A hidden layer whose units are the explicit sums brought to a byte.
pub open spec fn hidden_fits(n: NeuralView, c1: u8, c2: u8, h: Seq<u8>) -> bool {
    h.len() == 16 && forall|i: int|
        0 <= i < 16 ==> is_quotient(
            n.b1[i] + first_half(n, c1, i) + half_sum(n, c2, i, 8),
            n.sh_h,
            255,
            #[trigger] h[i],
        )
}

// ---------------------------------------------------------------------------
// Calibration
// ---------------------------------------------------------------------------

/// An accumulator over training contexts: of hidden unit `i` in context `k`.
pub open spec fn hidden_at(n: NeuralView, triples: Seq<(u8, u8, u8)>, k: int, i: int) -> int {
    hidden_acc_of(n, triples[k].0, triples[k].1, i)
}

/// The logit of word `t` in training context `k`.
pub open spec fn logit_at(n: NeuralView, triples: Seq<(u8, u8, u8)>, k: int, t: int) -> int {
    logit_of(n, t, hidden_of(n, triples[k].0, triples[k].1))
}

proof fn lemma_max_unit_found(n: NeuralView, c1: u8, c2: u8, k: int, floor: int)
    requires
        k >= 0,
    ensures
        max_unit(n, c1, c2, k, floor) >= floor,
        forall|i: int| 0 <= i < k ==> #[trigger] hidden_acc_of(n, c1, c2, i) <= max_unit(
            n,
            c1,
            c2,
            k,
            floor,
        ),
        max_unit(n, c1, c2, k, floor) == floor || exists|i: int|
            0 <= i < k && #[trigger] hidden_acc_of(n, c1, c2, i) == max_unit(n, c1, c2, k, floor),
    decreases k,
{
    if k > 0 {
        lemma_max_unit_found(n, c1, c2, k - 1, floor);
        let last = hidden_acc_of(n, c1, c2, k - 1);
    }
}

proof fn lemma_max_word_found(n: NeuralView, h: Seq<u8>, k: int, floor: int)
    requires
        k >= 0,
    ensures
        max_word(n, h, k, floor) >= floor,
        forall|t: int| 0 <= t < k ==> #[trigger] logit_of(n, t, h) <= max_word(n, h, k, floor),
        max_word(n, h, k, floor) == floor || exists|t: int|
            0 <= t < k && #[trigger] logit_of(n, t, h) == max_word(n, h, k, floor),
    decreases k,
{
    if k > 0 {
        lemma_max_word_found(n, h, k - 1, floor);
        let last = logit_of(n, k - 1, h);
    }
}

/// The largest hidden accumulator over training contexts is that of some unit in some
/// context and no smaller than any, or it is 1 and all are no larger.
pub proof fn law_largest_hidden(n: NeuralView, triples: Seq<(u8, u8, u8)>)
    ensures
        max_hidden(n, triples) >= 1,
        forall|k: int, i: int|
            0 <= k < triples.len() && 0 <= i < 16 ==> #[trigger] hidden_at(n, triples, k, i)
                <= max_hidden(n, triples),
        max_hidden(n, triples) == 1 || exists|k: int, i: int|
            0 <= k < triples.len() && 0 <= i < 16 && #[trigger] hidden_at(n, triples, k, i)
                == max_hidden(n, triples),
    decreases triples.len(),
{
    if triples.len() > 0 {
        let rest = triples.drop_last();
        let last = triples.last();
        law_largest_hidden(n, rest);
        let floor = max_hidden(n, rest);
        lemma_max_unit_found(n, last.0, last.1, 16, floor);
        let top = max_hidden(n, triples);
        assert forall|k: int, i: int| 0 <= k < triples.len() && 0 <= i < 16 implies #[trigger] hidden_at(
            n,
            triples,
            k,
            i,
        ) <= top by {
            if k < rest.len() {
                assert(hidden_at(n, rest, k, i) <= floor);
            } else {
                assert(hidden_acc_of(n, last.0, last.1, i) <= top);
            }
        }
        if top == floor && top != 1 {
            let (k, i) = choose|k: int, i: int|
                0 <= k < rest.len() && 0 <= i < 16 && #[trigger] hidden_at(n, rest, k, i) == floor;
            assert(hidden_at(n, triples, k, i) == top);
        } else if top != floor {
            let i = choose|i: int|
                0 <= i < 16 && #[trigger] hidden_acc_of(n, last.0, last.1, i) == top;
            assert(hidden_at(n, triples, triples.len() - 1, i) == top);
        }
    }
}

/// The largest logit over training contexts is that of some word in some context and
/// no smaller than any, or it is 1 and all are no larger.
pub proof fn law_largest_logit(n: NeuralView, triples: Seq<(u8, u8, u8)>)
    requires
        n.v >= 0,
    ensures
        max_logit(n, triples) >= 1,
        forall|k: int, t: int|
            0 <= k < triples.len() && 0 <= t < n.v ==> #[trigger] logit_at(n, triples, k, t)
                <= max_logit(n, triples),
        max_logit(n, triples) == 1 || exists|k: int, t: int|
            0 <= k < triples.len() && 0 <= t < n.v && #[trigger] logit_at(n, triples, k, t)
                == max_logit(n, triples),
    decreases triples.len(),
{
    if triples.len() > 0 {
        let rest = triples.drop_last();
        let last = triples.last();
        law_largest_logit(n, rest);
        let floor = max_logit(n, rest);
        let h = hidden_of(n, last.0, last.1);
        lemma_max_word_found(n, h, n.v, floor);
        let top = max_logit(n, triples);
        assert forall|k: int, t: int| 0 <= k < triples.len() && 0 <= t < n.v implies #[trigger] logit_at(
            n,
            triples,
            k,
            t,
        ) <= top by {
            if k < rest.len() {
                assert(logit_at(n, rest, k, t) <= floor);
            } else {
                assert(logit_of(n, t, h) <= top);
            }
        }
        if top == floor && top != 1 {
            let (k, t) = choose|k: int, t: int|
                0 <= k < rest.len() && 0 <= t < n.v && #[trigger] logit_at(n, rest, k, t) == floor;
            assert(logit_at(n, triples, k, t) == top);
        } else if top != floor {
            let t = choose|t: int| 0 <= t < n.v && #[trigger] logit_of(n, t, h) == top;
            assert(logit_at(n, triples, triples.len() - 1, t) == top);
        }
    }
}

/// A calibrated shift brings the largest number down to the cap, and no smaller shift
/// does.
pub proof fn law_least_shift(max: int, cap: int, sh: u8, less: nat)
    requires
        max >= 1,
        cap >= 0,
        least_shift(max, cap, sh),
        less < sh,
    ensures
        max < (cap + 1) * pow2(sh as nat),
        max >= (cap + 1) * pow2(less),
{
    lemma_pow2_pos(sh as nat);
    lemma_pow2_pos((sh - 1) as nat);
    let p = pow2(sh as nat) as int;
    let q = pow2((sh - 1) as nat) as int;
    assert(max < (cap + 1) * p) by (nonlinear_arith)
        requires
            p > 0,
            max / p <= cap,
    ;
    assert(max >= (cap + 1) * q) by (nonlinear_arith)
        requires
            q > 0,
            max / q > cap,
            max >= 1,
    ;
    let r = pow2(less) as int;
    if less < sh - 1 {
        vstd::arithmetic::power2::lemma_pow2_strictly_increases(less, (sh - 1) as nat);
    }
    assert((cap + 1) * r <= (cap + 1) * q) by (nonlinear_arith)
        requires
            r <= q,
            cap >= 0,
    ;
}

/// A number that fits already is not shifted.
pub proof fn law_no_shift(max: int, cap: int, sh: u8)
    requires
        1 <= max <= cap,
        least_shift(max, cap, sh),
    ensures
        sh == 0,
{
    if sh > 0 {
        lemma_pow2_pos((sh - 1) as nat);
        let q = pow2((sh - 1) as nat) as int;
        assert(max / q <= max) by (nonlinear_arith)
            requires
                q >= 1,
                max >= 1,
        ;
    }
}

/// The generator of initial weights: a linear congruence modulo two to the 64th.
pub proof fn law_generator(state: u64)
    ensures
        (lcg_next(state) - (6364136223846793005 * state + 1442695040888963407))
            % 0x1_0000_0000_0000_0000 == 0,
        LCG_SEED == 0xCAFE_F00D_D00D_5EED,
{
}

} // verus!
