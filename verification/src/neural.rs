//! The tiny neural next-word model as shipped: quantized integers, and the
//! byte-exact forward pass over them.
//!
//! Architecture: x = [emb(w1); emb(w2)] -> 16 ReLU units -> one logit per
//! word. All shifts are right shifts of positive accumulators, so the integer
//! pipeline needs no negative shift anywhere.

use vstd::prelude::*;
use vstd::arithmetic::power2::{lemma_pow2_pos, lemma_pow2_unfold, pow2};
use vstd::bits::lemma_u32_shr_is_div;

verus! {

pub const EMB_DIM: usize = 8;

pub const HID_DIM: usize = 16;

pub const IN_DIM: usize = 16;

/// Cap of the neural term, comparable to record scores.
pub const BASE_CLAMP: u8 = 48;

/// Bank image size.
pub const NEURAL_LEN: usize = 8192;

/// The context byte for "no first word".
pub const NO_CONTEXT: u8 = 0xFF;

/// Where the sections of the bank image start.
pub const BANK_W1: usize = 0x0800;

pub const BANK_B1: usize = 0x0900;

pub const BANK_B2: usize = 0x0A00;

pub const BANK_W2: usize = 0x0C00;

pub const BANK_TAIL: usize = 0x1FF0;

/// The quantized network: `v` words, embeddings (`v` x 8), first layer (16 x
/// 16), its biases, output layer (`v` x 16, a row per word), its biases, and
/// the two requantization shifts.
pub struct NeuralInt {
    pub v: usize,
    pub emb: Vec<i8>,
    pub w1: Vec<i8>,
    pub b1: Vec<i16>,
    pub w2: Vec<i8>,
    pub b2: Vec<i16>,
    pub sh_h: u8,
    pub sh_out: u8,
}

/// The network as contracts see it.
#[verifier::ext_equal]
pub struct NeuralView {
    pub v: int,
    pub emb: Seq<i8>,
    pub w1: Seq<i8>,
    pub b1: Seq<i16>,
    pub w2: Seq<i8>,
    pub b2: Seq<i16>,
    pub sh_h: u8,
    pub sh_out: u8,
}

impl View for NeuralInt {
    type V = NeuralView;

    open spec fn view(&self) -> NeuralView {
        NeuralView {
            v: self.v as int,
            emb: self.emb@,
            w1: self.w1@,
            b1: self.b1@,
            w2: self.w2@,
            b2: self.b2@,
            sh_h: self.sh_h,
            sh_out: self.sh_out,
        }
    }
}

/// The layers have the sizes that go with `v`.
pub open spec fn layers_fit(n: NeuralView) -> bool {
    &&& 0 <= n.v <= 256
    &&& n.emb.len() == n.v * 8
    &&& n.w1.len() == 256
    &&& n.b1.len() == 16
    &&& n.w2.len() == n.v * 16
    &&& n.b2.len() == n.v
}

/// A network that can be run: the layers fit and the shifts are shifts.
pub open spec fn neural_sound(n: NeuralView) -> bool {
    layers_fit(n) && n.sh_h < 32 && n.sh_out < 32
}

/// Contexts the network has embeddings for.
pub open spec fn context_ok(n: NeuralView, c1: u8, c2: u8) -> bool {
    (c1 == NO_CONTEXT || c1 < n.v) && c2 < n.v
}

// ---------------------------------------------------------------------------
// The forward pass
// ---------------------------------------------------------------------------

/// Input `j`: the first word's embedding (zero without one), then the second's.
pub open spec fn input(n: NeuralView, c1: u8, c2: u8, j: int) -> int {
    if j < 8 {
        if c1 == NO_CONTEXT {
            0
        } else {
            n.emb[c1 * 8 + j] as int
        }
    } else {
        n.emb[c2 * 8 + (j - 8)] as int
    }
}

/// The sum over the first `k` inputs of weight times input.
pub open spec fn input_sum(n: NeuralView, c1: u8, c2: u8, i: int, k: int) -> int
    decreases k,
{
    if k <= 0 {
        0
    } else {
        input_sum(n, c1, c2, i, k - 1) + n.w1[i * 16 + (k - 1)] * input(n, c1, c2, k - 1)
    }
}

/// Accumulator of hidden unit `i`.
pub open spec fn hidden_acc_of(n: NeuralView, c1: u8, c2: u8, i: int) -> int {
    n.b1[i] + input_sum(n, c1, c2, i, 16)
}

/// ReLU and requantization: negative sums give 0, others are shifted right and
/// capped.
pub open spec fn requantized(acc: int, sh: u8, cap: u8) -> u8 {
    if acc <= 0 {
        0
    } else if acc / pow2(sh as nat) as int > cap {
        cap
    } else {
        (acc / pow2(sh as nat) as int) as u8
    }
}

/// The hidden layer.
pub open spec fn hidden_of(n: NeuralView, c1: u8, c2: u8) -> Seq<u8> {
    Seq::new(16, |i: int| requantized(hidden_acc_of(n, c1, c2, i), n.sh_h, 255))
}

/// The sum over the first `k` hidden units of weight times unit.
pub open spec fn unit_sum(n: NeuralView, t: int, h: Seq<u8>, k: int) -> int
    decreases k,
{
    if k <= 0 {
        0
    } else {
        unit_sum(n, t, h, k - 1) + n.w2[t * 16 + (k - 1)] * h[k - 1]
    }
}

/// Accumulator of word `t`.
pub open spec fn logit_of(n: NeuralView, t: int, h: Seq<u8>) -> int {
    n.b2[t] + unit_sum(n, t, h, 16)
}

/// Base scores of all words in a context.
pub open spec fn forward_of(n: NeuralView, c1: u8, c2: u8) -> Seq<u8> {
    Seq::new(
        n.v as nat,
        |t: int| requantized(logit_of(n, t, hidden_of(n, c1, c2)), n.sh_out, BASE_CLAMP),
    )
}

proof fn lemma_product(a: int, b: int, m: int)
    requires
        -128 <= a <= 127,
        -m <= b <= m,
        m >= 0,
    ensures
        -128 * m <= a * b <= 128 * m,
{
    assert(-128 * m <= a * b <= 128 * m) by (nonlinear_arith)
        requires
            -128 <= a <= 127,
            -m <= b <= m,
            m >= 0,
    ;
}

fn requantize(acc: i32, sh: u8, cap: u8) -> (r: u8)
    requires
        sh < 32,
    ensures
        r == requantized(acc as int, sh, cap),
{
    if acc <= 0 {
        0
    } else {
        proof {
            lemma_u32_shr_is_div(acc as u32, sh as u32);
        }
        let q: u32 = acc as u32 >> sh as u32;
        if q > cap as u32 {
            cap
        } else {
            q as u8
        }
    }
}

// ---------------------------------------------------------------------------
// Calibration
// ---------------------------------------------------------------------------

/// The largest accumulator among the first `k` hidden units, at least `floor`.
pub open spec fn max_unit(n: NeuralView, c1: u8, c2: u8, k: int, floor: int) -> int
    decreases k,
{
    if k <= 0 {
        floor
    } else {
        vstd::math::max(max_unit(n, c1, c2, k - 1, floor), hidden_acc_of(n, c1, c2, k - 1))
    }
}

/// The largest hidden accumulator over training contexts, at least 1.
pub open spec fn max_hidden(n: NeuralView, triples: Seq<(u8, u8, u8)>) -> int
    decreases triples.len(),
{
    if triples.len() == 0 {
        1
    } else {
        max_unit(n, triples.last().0, triples.last().1, 16, max_hidden(n, triples.drop_last()))
    }
}

/// The largest of the first `k` logits, at least `floor`.
pub open spec fn max_word(n: NeuralView, h: Seq<u8>, k: int, floor: int) -> int
    decreases k,
{
    if k <= 0 {
        floor
    } else {
        vstd::math::max(max_word(n, h, k - 1, floor), logit_of(n, k - 1, h))
    }
}

/// The largest logit over training contexts, at least 1.
pub open spec fn max_logit(n: NeuralView, triples: Seq<(u8, u8, u8)>) -> int
    decreases triples.len(),
{
    if triples.len() == 0 {
        1
    } else {
        max_word(
            n,
            hidden_of(n, triples.last().0, triples.last().1),
            n.v,
            max_logit(n, triples.drop_last()),
        )
    }
}

/// `sh` is the least right shift that brings `max` down to `cap`.
pub open spec fn least_shift(max: int, cap: int, sh: u8) -> bool {
    &&& max / pow2(sh as nat) as int <= cap
    &&& sh > 0 ==> max / pow2((sh - 1) as nat) as int > cap
}

/// All triples have contexts that the network has embeddings for.
pub open spec fn contexts_ok(n: NeuralView, triples: Seq<(u8, u8, u8)>) -> bool {
    forall|k: int|
        0 <= k < triples.len() ==> context_ok(n, (#[trigger] triples[k]).0, triples[k].1)
}

fn find_shift(max: i32, cap: u8) -> (sh: u8)
    requires
        max >= 1,
        cap >= 1,
    ensures
        least_shift(max as int, cap as int, sh),
        sh < 32,
{
    let mut sh: u8 = 0;
    let mut q: i32 = max;
    proof {
        vstd::arithmetic::power2::lemma2_to64();
        assert(max as int / 1 == max);
    }
    while q > cap as i32
        invariant
            0 <= q <= max,
            sh <= 31,
            q == max as int / pow2(sh as nat) as int,
            pow2(31) == 0x80000000,
            cap >= 1,
            sh > 0 ==> max as int / pow2((sh - 1) as nat) as int > cap,
        decreases q,
    {
        proof {
            lemma_pow2_pos(sh as nat);
            lemma_pow2_unfold((sh + 1) as nat);
            vstd::arithmetic::div_mod::lemma_div_denominator(
                max as int,
                pow2(sh as nat) as int,
                2,
            );
            assert(pow2((sh + 1) as nat) == pow2(sh as nat) * 2) by (nonlinear_arith)
                requires
                    pow2((sh + 1) as nat) == 2 * pow2(sh as nat),
            ;
            if sh == 31 {
                assert(max as int / 0x80000000int == 0);
            }
        }
        q = q / 2;
        sh = sh + 1;
    }
    sh
}

impl NeuralInt {
    /// Accumulator of hidden unit `i`.
    pub fn hidden_acc(&self, c1: u8, c2: u8, i: usize) -> (acc: i32)
        requires
            layers_fit(self@),
            context_ok(self@, c1, c2),
            i < 16,
        ensures
            acc == hidden_acc_of(self@, c1, c2, i as int),
    {
        let mut acc: i32 = self.b1[i] as i32;
        let mut j: usize = 0;
        while j < IN_DIM
            invariant
                j <= 16,
                i < 16,
                layers_fit(self@),
                context_ok(self@, c1, c2),
                acc == self@.b1[i as int] + input_sum(self@, c1, c2, i as int, j as int),
                -0x8000 - 16384 * j <= acc <= 0x7FFF + 16384 * j,
            decreases 16 - j,
        {
            let x: i32 = if j < EMB_DIM {
                if c1 == NO_CONTEXT {
                    0
                } else {
                    self.emb[c1 as usize * EMB_DIM + j] as i32
                }
            } else {
                self.emb[c2 as usize * EMB_DIM + (j - EMB_DIM)] as i32
            };
            let w: i32 = self.w1[i * IN_DIM + j] as i32;
            proof {
                lemma_product(w as int, x as int, 128);
            }
            acc = acc + w * x;
            j = j + 1;
        }
        acc
    }

    /// The hidden layer in a context.
    pub fn hidden(&self, c1: u8, c2: u8) -> (h: [u8; HID_DIM])
        requires
            neural_sound(self@),
            context_ok(self@, c1, c2),
        ensures
            h@ == hidden_of(self@, c1, c2),
    {
        let mut h: [u8; HID_DIM] = [0;HID_DIM];
        let mut i: usize = 0;
        while i < HID_DIM
            invariant
                i <= 16,
                neural_sound(self@),
                context_ok(self@, c1, c2),
                h@.take(i as int) == hidden_of(self@, c1, c2).take(i as int),
            decreases 16 - i,
        {
            let acc = self.hidden_acc(c1, c2, i);
            let ghost before = h@;
            h[i] = requantize(acc, self.sh_h, 255);
            assert(h@.take(i + 1) == before.take(i as int).push(h@[i as int]));
            assert(hidden_of(self@, c1, c2).take(i + 1) == hidden_of(self@, c1, c2).take(
                i as int,
            ).push(h@[i as int]));
            i = i + 1;
        }
        assert(h@.take(16) == h@);
        assert(hidden_of(self@, c1, c2).take(16) == hidden_of(self@, c1, c2));
        h
    }

    /// Accumulator of word `t`.
    pub fn logit_acc(&self, t: usize, h: &[u8; HID_DIM]) -> (acc: i32)
        requires
            layers_fit(self@),
            t < self.v,
        ensures
            acc == logit_of(self@, t as int, h@),
    {
        let mut acc: i32 = self.b2[t] as i32;
        let mut i: usize = 0;
        while i < HID_DIM
            invariant
                i <= 16,
                t < self.v,
                layers_fit(self@),
                acc == self@.b2[t as int] + unit_sum(self@, t as int, h@, i as int),
                -0x8000 - 32640 * i <= acc <= 0x7FFF + 32640 * i,
            decreases 16 - i,
        {
            let w: i32 = self.w2[t * HID_DIM + i] as i32;
            let x: i32 = h[i] as i32;
            proof {
                lemma_product(w as int, x as int, 255);
            }
            acc = acc + w * x;
            i = i + 1;
        }
        acc
    }

    /// The byte-exact forward pass: base scores for every word.
    pub fn forward_int(&self, c1: u8, c2: u8) -> (base: Vec<u8>)
        requires
            neural_sound(self@),
            context_ok(self@, c1, c2),
        ensures
            base@ == forward_of(self@, c1, c2),
    {
        let h = self.hidden(c1, c2);
        let mut base: Vec<u8> = Vec::new();
        let mut t: usize = 0;
        while t < self.v
            invariant
                t <= self.v,
                neural_sound(self@),
                h@ == hidden_of(self@, c1, c2),
                base@ == forward_of(self@, c1, c2).take(t as int),
            decreases self.v - t,
        {
            let acc = self.logit_acc(t, &h);
            base.push(requantize(acc, self.sh_out, BASE_CLAMP));
            t = t + 1;
        }
        base
    }

    /// The hidden shift for this network: the least one that keeps every hidden
    /// unit of the training contexts in a byte.
    pub fn calibrate_hidden(&self, triples: &[(u8, u8, u8)]) -> (sh: u8)
        requires
            layers_fit(self@),
            contexts_ok(self@, triples@),
        ensures
            least_shift(max_hidden(self@, triples@), 255, sh),
            sh < 32,
    {
        let mut max: i32 = 1;
        let mut k: usize = 0;
        while k < triples.len()
            invariant
                k <= triples.len(),
                layers_fit(self@),
                contexts_ok(self@, triples@),
                max >= 1,
                max == max_hidden(self@, triples@.take(k as int)),
            decreases triples.len() - k,
        {
            let (c1, c2, _) = triples[k];
            let ghost floor = max as int;
            assert(triples@.take(k + 1).drop_last() == triples@.take(k as int));
            let mut i: usize = 0;
            while i < HID_DIM
                invariant
                    i <= 16,
                    layers_fit(self@),
                    context_ok(self@, c1, c2),
                    max >= 1,
                    max == max_unit(self@, c1, c2, i as int, floor),
                decreases 16 - i,
            {
                let acc = self.hidden_acc(c1, c2, i);
                if acc > max {
                    max = acc;
                }
                i = i + 1;
            }
            k = k + 1;
        }
        assert(triples@.take(k as int) == triples@);
        find_shift(max, 255)
    }

    /// The output shift for this network: the least one that keeps every base
    /// score of the training contexts within `BASE_CLAMP`.
    pub fn calibrate_out(&self, triples: &[(u8, u8, u8)]) -> (sh: u8)
        requires
            neural_sound(self@),
            contexts_ok(self@, triples@),
        ensures
            least_shift(max_logit(self@, triples@), BASE_CLAMP as int, sh),
            sh < 32,
    {
        let mut max: i32 = 1;
        let mut k: usize = 0;
        while k < triples.len()
            invariant
                k <= triples.len(),
                neural_sound(self@),
                contexts_ok(self@, triples@),
                max >= 1,
                max == max_logit(self@, triples@.take(k as int)),
            decreases triples.len() - k,
        {
            let (c1, c2, _) = triples[k];
            let ghost floor = max as int;
            assert(triples@.take(k + 1).drop_last() == triples@.take(k as int));
            let h = self.hidden(c1, c2);
            let mut t: usize = 0;
            while t < self.v
                invariant
                    t <= self.v,
                    neural_sound(self@),
                    max >= 1,
                    max == max_word(self@, h@, t as int, floor),
                decreases self.v - t,
            {
                let acc = self.logit_acc(t, &h);
                if acc > max {
                    max = acc;
                }
                t = t + 1;
            }
            k = k + 1;
        }
        assert(triples@.take(k as int) == triples@);
        find_shift(max, BASE_CLAMP)
    }

    /// Bank image of the network (embeddings at $0000, then the sections at the
    /// `BANK_*` offsets, all else zero).
    pub fn bank_image(&self) -> (bank: Vec<u8>)
        requires
            layers_fit(self@),
        ensures
            bank@ == bank_of(self@),
    {
        let mut bank: Vec<u8> = Vec::new();
        let mut i: usize = 0;
        while i < NEURAL_LEN
            invariant
                i <= 8192,
                layers_fit(self@),
                bank@ == bank_of(self@).take(i as int),
            decreases 8192 - i,
        {
            bank.push(self.bank_byte_at(i));
            i = i + 1;
        }
        bank
    }

    fn bank_byte_at(&self, i: usize) -> (b: u8)
        requires
            layers_fit(self@),
            i < 8192,
        ensures
            b == bank_byte(self@, i as int),
    {
        if i < BANK_W1 {
            if i < self.emb.len() {
                byte_from(self.emb[i])
            } else {
                0
            }
        } else if i < BANK_B1 {
            byte_from(self.w1[i - BANK_W1])
        } else if i < BANK_B2 {
            if i - BANK_B1 < 32 {
                half_from(self.b1[(i - BANK_B1) / 2], i % 2 == 1)
            } else {
                0
            }
        } else if i < BANK_W2 {
            if i - BANK_B2 < 2 * self.v {
                half_from(self.b2[(i - BANK_B2) / 2], i % 2 == 1)
            } else {
                0
            }
        } else if i < BANK_TAIL {
            if i - BANK_W2 < self.w2.len() {
                byte_from(self.w2[i - BANK_W2])
            } else {
                0
            }
        } else if i == BANK_TAIL {
            self.sh_h
        } else if i == BANK_TAIL + 1 {
            self.sh_out
        } else if i == BANK_TAIL + 2 {
            (self.v % 256) as u8
        } else {
            0
        }
    }

    /// The network of `v` words that a bank image holds.
    pub fn from_bank(b: &[u8], v: usize) -> (net: NeuralInt)
        requires
            b.len() >= BANK_TAIL + 2,
            v * EMB_DIM <= b.len(),
            BANK_B2 + v * 2 <= b.len(),
            BANK_W2 + v * HID_DIM <= b.len(),
        ensures
            net@ == network_of(b@, v as int),
    {
        let net = NeuralInt {
            v,
            emb: signed_bytes(b, 0, v * EMB_DIM),
            w1: signed_bytes(b, BANK_W1, HID_DIM * IN_DIM),
            b1: signed_words(b, BANK_B1, HID_DIM),
            w2: signed_bytes(b, BANK_W2, v * HID_DIM),
            b2: signed_words(b, BANK_B2, v),
            sh_h: b[BANK_TAIL],
            sh_out: b[BANK_TAIL + 1],
        };
        assert(net@ =~= network_of(b@, v as int));
        net
    }
}

// ---------------------------------------------------------------------------
// The bank image
// ---------------------------------------------------------------------------

/// A signed byte as stored (two's complement).
pub open spec fn stored8(x: i8) -> u8 {
    (x as int % 256) as u8
}

/// One half of a signed 16-bit number as stored, low half first.
pub open spec fn stored16(x: i16, high: bool) -> u8 {
    if high {
        (x as int % 0x10000 / 256) as u8
    } else {
        (x as int % 256) as u8
    }
}

/// The signed number a byte stores.
pub open spec fn loaded8(b: u8) -> i8 {
    if b < 128 {
        b as i8
    } else {
        (b - 256) as i8
    }
}

/// The signed number two bytes store.
pub open spec fn loaded16(lo: u8, hi: u8) -> i16 {
    if hi < 128 {
        (lo + 256 * hi) as i16
    } else {
        (lo + 256 * hi - 0x10000) as i16
    }
}

/// Byte `i` of the bank image.
pub open spec fn bank_byte(n: NeuralView, i: int) -> u8 {
    if i < BANK_W1 {
        if i < n.emb.len() {
            stored8(n.emb[i])
        } else {
            0
        }
    } else if i < BANK_B1 {
        stored8(n.w1[i - BANK_W1])
    } else if i < BANK_B2 {
        if i - BANK_B1 < 32 {
            stored16(n.b1[(i - BANK_B1) / 2], i % 2 == 1)
        } else {
            0
        }
    } else if i < BANK_W2 {
        if i - BANK_B2 < 2 * n.v {
            stored16(n.b2[(i - BANK_B2) / 2], i % 2 == 1)
        } else {
            0
        }
    } else if i < BANK_TAIL {
        if i - BANK_W2 < n.w2.len() {
            stored8(n.w2[i - BANK_W2])
        } else {
            0
        }
    } else if i == BANK_TAIL {
        n.sh_h
    } else if i == BANK_TAIL + 1 {
        n.sh_out
    } else if i == BANK_TAIL + 2 {
        (n.v % 256) as u8
    } else {
        0
    }
}

/// The bank image of a network.
pub open spec fn bank_of(n: NeuralView) -> Seq<u8> {
    Seq::new(NEURAL_LEN as nat, |i: int| bank_byte(n, i))
}

/// The network of `v` words in a bank image.
pub open spec fn network_of(b: Seq<u8>, v: int) -> NeuralView {
    NeuralView {
        v,
        emb: Seq::new((v * 8) as nat, |i: int| loaded8(b[i])),
        w1: Seq::new(256, |i: int| loaded8(b[BANK_W1 + i])),
        b1: Seq::new(16, |i: int| loaded16(b[BANK_B1 + i * 2], b[BANK_B1 + i * 2 + 1])),
        w2: Seq::new((v * 16) as nat, |i: int| loaded8(b[BANK_W2 + i])),
        b2: Seq::new(v as nat, |i: int| loaded16(b[BANK_B2 + i * 2], b[BANK_B2 + i * 2 + 1])),
        sh_h: b[BANK_TAIL as int],
        sh_out: b[BANK_TAIL + 1],
    }
}

/// Reading a bank image gives back the network that was written.
pub proof fn law_bank_roundtrip(n: NeuralView)
    requires
        layers_fit(n),
    ensures
        network_of(bank_of(n), n.v) == n,
{
    let b = bank_of(n);
    let m = network_of(b, n.v);
    assert forall|x: i8| loaded8(#[trigger] stored8(x)) == x by {}
    assert forall|x: i16| loaded16(#[trigger] stored16(x, false), stored16(x, true)) == x by {}
    assert(m.emb =~= n.emb);
    assert(m.w1 =~= n.w1);
    assert forall|i: int| 0 <= i < 16 implies #[trigger] m.b1[i] == n.b1[i] by {
        assert(b[BANK_B1 + i * 2] == stored16(n.b1[i], false));
        assert(b[BANK_B1 + i * 2 + 1] == stored16(n.b1[i], true));
    }
    assert(m.b1 =~= n.b1);
    assert(m.w2 =~= n.w2);
    assert forall|i: int| 0 <= i < n.v implies #[trigger] m.b2[i] == n.b2[i] by {
        assert(b[BANK_B2 + i * 2] == stored16(n.b2[i], false));
        assert(b[BANK_B2 + i * 2 + 1] == stored16(n.b2[i], true));
    }
    assert(m.b2 =~= n.b2);
}

fn byte_from(x: i8) -> (b: u8)
    ensures
        b == stored8(x),
{
    let w: i16 = x as i16;
    if w < 0 {
        (w + 256) as u8
    } else {
        w as u8
    }
}

fn half_from(x: i16, high: bool) -> (b: u8)
    ensures
        b == stored16(x, high),
{
    let w: i32 = x as i32;
    let u: u16 = if w < 0 {
        (w + 0x10000) as u16
    } else {
        w as u16
    };
    if high {
        (u / 256) as u8
    } else {
        (u % 256) as u8
    }
}

fn signed_bytes(b: &[u8], at: usize, len: usize) -> (out: Vec<i8>)
    requires
        at + len <= b.len(),
    ensures
        out@ == Seq::new(len as nat, |i: int| loaded8(b@[at + i])),
{
    let mut out: Vec<i8> = Vec::new();
    let mut i: usize = 0;
    while i < len
        invariant
            i <= len,
            at + len <= b.len(),
            out@ == Seq::new(i as nat, |k: int| loaded8(b@[at + k])),
        decreases len - i,
    {
        let x: i16 = b[at + i] as i16;
        out.push(
            if x < 128 {
                x as i8
            } else {
                (x - 256) as i8
            },
        );
        i = i + 1;
    }
    out
}

fn signed_words(b: &[u8], at: usize, len: usize) -> (out: Vec<i16>)
    requires
        at + 2 * len <= b.len(),
    ensures
        out@ == Seq::new(len as nat, |i: int| loaded16(b@[at + i * 2], b@[at + i * 2 + 1])),
{
    let mut out: Vec<i16> = Vec::new();
    let mut i: usize = 0;
    while i < len
        invariant
            i <= len,
            at + 2 * len <= b.len(),
            out@ == Seq::new(i as nat, |k: int| loaded16(b@[at + k * 2], b@[at + k * 2 + 1])),
        decreases len - i,
    {
        let x: i32 = b[at + i * 2] as i32 + 256 * b[at + i * 2 + 1] as i32;
        out.push(
            if x < 0x8000 {
                x as i16
            } else {
                (x - 0x10000) as i16
            },
        );
        i = i + 1;
    }
    out
}

// ---------------------------------------------------------------------------
// Initial weights
// ---------------------------------------------------------------------------

/// Where the generator of initial weights starts.
pub const LCG_SEED: u64 = 0xCAFE_F00D_D00D_5EED;

/// Linear congruential generator, so that training starts from the same weights
/// every time.
pub struct Lcg {
    pub state: u64,
}

/// The state that follows a state.
pub open spec fn lcg_next(state: u64) -> u64 {
    ((state * 6364136223846793005 + 1442695040888963407) % 0x1_0000_0000_0000_0000) as u64
}

impl Lcg {
    pub fn new() -> (lcg: Lcg)
        ensures
            lcg.state == LCG_SEED,
    {
        Lcg { state: LCG_SEED }
    }

    /// Moves on and gives the upper 31 bits of the new state.
    pub fn next_bits(&mut self) -> (bits: u32)
        ensures
            final(self).state == lcg_next(old(self).state),
            bits == final(self).state as int / 0x2_0000_0000,
            bits < 0x8000_0000,
    {
        self.state = self.state.wrapping_mul(6364136223846793005).wrapping_add(
            1442695040888963407,
        );
        (self.state / 0x2_0000_0000) as u32
    }
}

// ---------------------------------------------------------------------------
// Laws of the integer pipeline
// ---------------------------------------------------------------------------

/// Base scores never exceed `BASE_CLAMP`, one per word.
pub proof fn law_base_scores_capped(n: NeuralView, c1: u8, c2: u8)
    requires
        n.v >= 0,
    ensures
        forward_of(n, c1, c2).len() == n.v,
        forall|t: int|
            0 <= t < n.v ==> #[trigger] forward_of(n, c1, c2)[t] <= BASE_CLAMP,
{
    let h = hidden_of(n, c1, c2);
    assert forall|t: int| 0 <= t < n.v implies #[trigger] forward_of(n, c1, c2)[t]
        <= BASE_CLAMP by {
        lemma_requantized(logit_of(n, t, h), n.sh_out, BASE_CLAMP);
    }
}

proof fn lemma_requantized(acc: int, sh: u8, cap: u8)
    ensures
        requantized(acc, sh, cap) <= cap,
        acc > 0 && acc / pow2(sh as nat) as int <= cap ==> requantized(acc, sh, cap) == acc / pow2(
            sh as nat,
        ) as int,
{
    lemma_pow2_pos(sh as nat);
    if acc > 0 {
        assert(acc / pow2(sh as nat) as int >= 0) by (nonlinear_arith)
            requires
                acc > 0,
                pow2(sh as nat) > 0,
        ;
    }
}

proof fn lemma_max_unit(n: NeuralView, c1: u8, c2: u8, k: int, floor: int)
    ensures
        max_unit(n, c1, c2, k, floor) >= floor,
        forall|i: int|
            0 <= i < k ==> #[trigger] hidden_acc_of(n, c1, c2, i) <= max_unit(n, c1, c2, k, floor),
    decreases k,
{
    if k > 0 {
        lemma_max_unit(n, c1, c2, k - 1, floor);
    }
}

proof fn lemma_max_word(n: NeuralView, h: Seq<u8>, k: int, floor: int)
    ensures
        max_word(n, h, k, floor) >= floor,
        forall|t: int| 0 <= t < k ==> #[trigger] logit_of(n, t, h) <= max_word(n, h, k, floor),
    decreases k,
{
    if k > 0 {
        lemma_max_word(n, h, k - 1, floor);
    }
}

proof fn lemma_max_hidden(n: NeuralView, triples: Seq<(u8, u8, u8)>, k: int, i: int)
    requires
        0 <= k < triples.len(),
        0 <= i < 16,
    ensures
        hidden_acc_of(n, triples[k].0, triples[k].1, i) <= max_hidden(n, triples),
    decreases triples.len(),
{
    let last = triples.last();
    let before = max_hidden(n, triples.drop_last());
    lemma_max_unit(n, last.0, last.1, 16, before);
    if k < triples.len() - 1 {
        assert(triples.drop_last()[k] == triples[k]);
        lemma_max_hidden(n, triples.drop_last(), k, i);
    } else {
        assert(hidden_acc_of(n, last.0, last.1, i) <= max_unit(n, last.0, last.1, 16, before));
    }
}

proof fn lemma_max_logit(n: NeuralView, triples: Seq<(u8, u8, u8)>, k: int, t: int)
    requires
        0 <= k < triples.len(),
        0 <= t < n.v,
    ensures
        logit_of(n, t, hidden_of(n, triples[k].0, triples[k].1)) <= max_logit(n, triples),
    decreases triples.len(),
{
    let h = hidden_of(n, triples.last().0, triples.last().1);
    let before = max_logit(n, triples.drop_last());
    lemma_max_word(n, h, n.v, before);
    if k < triples.len() - 1 {
        assert(triples.drop_last()[k] == triples[k]);
        lemma_max_logit(n, triples.drop_last(), k, t);
    } else {
        assert(logit_of(n, t, h) <= max_word(n, h, n.v, before));
    }
}

proof fn lemma_shift_fits(acc: int, max: int, sh: u8, cap: u8)
    requires
        0 < acc <= max,
        least_shift(max, cap as int, sh),
    ensures
        requantized(acc, sh, cap) == acc / pow2(sh as nat) as int,
{
    lemma_pow2_pos(sh as nat);
    let d = pow2(sh as nat) as int;
    assert(acc / d <= max / d) by (nonlinear_arith)
        requires
            0 < acc <= max,
            d > 0,
    ;
    lemma_requantized(acc, sh, cap);
}

/// With calibrated shifts nothing is clipped in the training contexts: a
/// positive hidden accumulator, shifted, fits a byte, and a positive logit,
/// shifted, fits `BASE_CLAMP`.
pub proof fn law_calibrated_exact(
    n: NeuralView,
    triples: Seq<(u8, u8, u8)>,
    k: int,
    i: int,
    t: int,
)
    requires
        least_shift(max_hidden(n, triples), 255, n.sh_h),
        least_shift(max_logit(n, triples), BASE_CLAMP as int, n.sh_out),
        0 <= k < triples.len(),
        0 <= i < 16,
        0 <= t < n.v,
    ensures
        ({
            let (c1, c2, _) = triples[k];
            let acc = hidden_acc_of(n, c1, c2, i);
            let logit = logit_of(n, t, hidden_of(n, c1, c2));
            &&& acc > 0 ==> hidden_of(n, c1, c2)[i] == acc / pow2(n.sh_h as nat) as int
            &&& logit > 0 ==> forward_of(n, c1, c2)[t] == logit / pow2(n.sh_out as nat) as int
        }),
{
    let (c1, c2, _) = triples[k];
    lemma_max_hidden(n, triples, k, i);
    lemma_max_logit(n, triples, k, t);
    if hidden_acc_of(n, c1, c2, i) > 0 {
        lemma_shift_fits(hidden_acc_of(n, c1, c2, i), max_hidden(n, triples), n.sh_h, 255);
    }
    if logit_of(n, t, hidden_of(n, c1, c2)) > 0 {
        lemma_shift_fits(
            logit_of(n, t, hidden_of(n, c1, c2)),
            max_logit(n, triples),
            n.sh_out,
            BASE_CLAMP,
        );
    }
}

/// Accumulators fit in 24 bits, whatever the weights.
pub proof fn law_accumulators_24_bit(n: NeuralView, c1: u8, c2: u8, i: int, t: int, h: Seq<u8>)
    requires
        layers_fit(n),
        context_ok(n, c1, c2),
        0 <= i < 16,
        0 <= t < n.v,
        h.len() == 16,
    ensures
        -0x80_0000 <= hidden_acc_of(n, c1, c2, i) < 0x80_0000,
        -0x80_0000 <= logit_of(n, t, h) < 0x80_0000,
{
    lemma_input_sum(n, c1, c2, i, 16);
    lemma_unit_sum(n, t, h, 16);
}

proof fn lemma_input_sum(n: NeuralView, c1: u8, c2: u8, i: int, k: int)
    requires
        0 <= k <= 16,
        0 <= i < 16,
    ensures
        -16384 * k <= input_sum(n, c1, c2, i, k) <= 16384 * k,
    decreases k,
{
    if k > 0 {
        lemma_input_sum(n, c1, c2, i, k - 1);
        lemma_product(n.w1[i * 16 + (k - 1)] as int, input(n, c1, c2, k - 1), 128);
    }
}

proof fn lemma_unit_sum(n: NeuralView, t: int, h: Seq<u8>, k: int)
    requires
        0 <= k <= 16,
    ensures
        -32640 * k <= unit_sum(n, t, h, k) <= 32640 * k,
    decreases k,
{
    if k > 0 {
        lemma_unit_sum(n, t, h, k - 1);
        lemma_product(n.w2[t * 16 + (k - 1)] as int, h[k - 1] as int, 255);
    }
}

} // verus!
