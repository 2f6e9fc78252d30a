//! The model: tables, classifier bank, network and vocabulary, with the
//! accessors the generator uses and the `model.bin` format.

use vstd::prelude::*;
use vstd::utf8::{
    decode_utf8, encode_utf8, encode_utf8_decode_utf8, encode_utf8_valid_utf8, valid_utf8,
};
use crate::neural::{
    bank_of, law_bank_roundtrip, layers_fit, network_of, NeuralInt, NeuralView, NEURAL_LEN,
};
use crate::text::{chars_from_ids, displayable, ids_of, law_display_roundtrip, text_of, texts};
use crate::vocab::{vocab_bytes, word_data, word_offset, WordVocab, MAX_WORDS};

verus! {

/// (next, score) pairs per record.
pub const TOP_K: usize = 8;

/// 8 x (next word, score), padded with (`NO_WORD`, 0).
pub const REC_LEN: usize = 16;

/// Generated words per answer (hard maximum).
pub const WORD_BUDGET: usize = 32;

/// Sentence ends stop an answer only from this length on.
pub const MIN_WORDS_BEFORE_STOP: usize = 6;

/// Shorter answers are reseeded.
pub const MIN_ANSWER_WORDS: usize = 6;

/// Route reason: the typed context hits a trigram record.
pub const R_EXACT: u8 = 0;

/// Route reason: question type and topic.
pub const R_QT_TOPIC: u8 = 1;

/// Route reason: topic only.
pub const R_TOPIC: u8 = 2;

/// Route reason: question type only.
pub const R_QTYPE: u8 = 3;

/// Route reason: nothing known.
pub const R_FALLBACK: u8 = 4;

/// Route reason: the answer was too short and reseeded.
pub const R_EMERGENCY: u8 = 5;

/// Attribute bit: the word is a question type of some route.
pub const ATTR_QTYPE: u8 = 0x01;

/// Attribute bit: the word is a topic of some route.
pub const ATTR_TOPIC: u8 = 0x02;

/// Trigram table: a record per (w1, w2) with 256 records per w1,
/// `MAX_WORDS` * 256 * `REC_LEN` bytes.
pub const TRI_LEN: usize = 1_015_808;

/// Bigram table: `MAX_WORDS` * `REC_LEN` bytes.
pub const BI_LEN: usize = 3968;

/// The byte that stands for no word.
pub const NO_WORD: u8 = 0xFF;

/// Length of the `model.bin` header.
pub const HEADER_LEN: usize = 32;

/// "NNW5".
pub const MAGIC: [u8; 4] = [0x4E, 0x4E, 0x57, 0x35];

pub const TOKENIZER_VERSION: &'static str = "v4-stem1";

pub const MODEL_FORMAT_VERSION: &'static str = "NNW5-neural1";

pub const N_TOPICS_MAX: usize = 16;

pub const N_QTYPES_MAX: usize = 11;

/// Repetition window (words).
pub const REP_WINDOW: usize = 8;

/// Score penalty for recently used words.
pub const REP_PEN: u8 = 24;

/// Bonus for sentence ends past `SOFT_LEN`.
pub const LEN_BONUS: u8 = 20;

/// Soft answer-length target (words).
pub const SOFT_LEN: usize = 14;

/// Quantized record scores are 1..=63.
pub const BASE_MAX: u8 = 63;

/// Quantized conditioning biases are 0..=15.
pub const BIAS_MAX: u8 = 15;

/// Classifier bank image.
pub const CLS_LEN: usize = 8192;

pub const L_TRI: u8 = 0;

pub const L_BI: u8 = 1;

pub const L_TOPIC: u8 = 2;

pub const L_QTYPE: u8 = 3;

pub const L_GLOBAL: u8 = 4;

pub const L_NEURAL: u8 = 5;

pub const TONE_NORMAL: u8 = 0;

pub const TONE_EMPTY: u8 = 1;

pub const TONE_NONSENSE: u8 = 2;

pub const TONE_GREETING: u8 = 3;

pub const TONE_TECHNICAL: u8 = 4;

/// Topic bias pages: 16 x 256.
pub const CLS_TOPIC_BIAS: usize = 0x0000;

/// Question-type bias pages: 11 x 256.
pub const CLS_QTYPE_BIAS: usize = 0x1000;

/// Whether a word ends a sentence.
pub const CLS_IS_END: usize = 0x1B00;

/// Word to topic group + 1 (0 = none).
pub const CLS_TGROUP: usize = 0x1C00;

/// Word to question-type group + 1 (0 = none).
pub const CLS_QGROUP: usize = 0x1D00;

/// Topic records: 16 x 16.
pub const CLS_TOPIC_RECS: usize = 0x1E00;

/// Question-type records: 11 x 16.
pub const CLS_QTYPE_RECS: usize = 0x1F00;

/// The global record.
pub const CLS_GLOBAL_REC: usize = 0x1FC0;

/// Tone per topic group.
pub const CLS_TONE: usize = 0x1FE0;

/// A route row's "any word".
pub const WILDCARD: u8 = 0xFE;

/// One route-table row: for a question type and a topic (`WILDCARD` = any),
/// the two seed words. Rows are stored in resolution priority order.
#[derive(Clone, Copy, Debug, PartialEq, Eq, Structural)]
pub struct RouteRow {
    /// `R_QT_TOPIC`, `R_TOPIC` or `R_QTYPE`.
    pub level: u8,
    pub qtype: u8,
    pub topic: u8,
    pub seed1: u8,
    pub seed2: u8,
}

/// The whole model.
pub struct Model {
    pub vocab_size: u8,
    pub k: u8,
    /// Seed of last resort.
    pub qmark_id: u8,
    /// Reseed context.
    pub emergency: (u8, u8),
    pub tri: Vec<u8>,
    pub bi: Vec<u8>,
    pub vocab: WordVocab,
    /// Per-word `ATTR_QTYPE` / `ATTR_TOPIC` bits.
    pub attr: [u8; 256],
    pub routes: Vec<RouteRow>,
    /// The classifier bank image.
    pub cls: Vec<u8>,
    pub neural: NeuralInt,
    pub topic_names: Vec<String>,
    pub topic_tech: Vec<bool>,
    pub qtype_names: Vec<String>,
}

/// The model as contracts see it.
#[verifier::ext_equal]
pub struct ModelView {
    pub vocab_size: u8,
    pub k: u8,
    pub qmark_id: u8,
    pub emergency: (u8, u8),
    pub tri: Seq<u8>,
    pub bi: Seq<u8>,
    pub words: Seq<Seq<char>>,
    pub attr: Seq<u8>,
    pub routes: Seq<RouteRow>,
    pub cls: Seq<u8>,
    pub neural: NeuralView,
    pub topic_names: Seq<Seq<char>>,
    pub topic_tech: Seq<bool>,
    pub qtype_names: Seq<Seq<char>>,
}

impl View for Model {
    type V = ModelView;

    open spec fn view(&self) -> ModelView {
        ModelView {
            vocab_size: self.vocab_size,
            k: self.k,
            qmark_id: self.qmark_id,
            emergency: self.emergency,
            tri: self.tri@,
            bi: self.bi@,
            words: self.vocab@,
            attr: self.attr@,
            routes: self.routes@,
            cls: self.cls@,
            neural: self.neural@,
            topic_names: texts(self.topic_names@),
            topic_tech: self.topic_tech@,
            qtype_names: texts(self.qtype_names@),
        }
    }
}

// ---------------------------------------------------------------------------
// Accessors
// ---------------------------------------------------------------------------

/// A 16-byte record at an offset of a table.
pub open spec fn rec_at(table: Seq<u8>, at: int) -> Seq<u8> {
    table.subrange(at, at + REC_LEN)
}

/// The trigram record of a context.
pub open spec fn tri_rec_of(m: ModelView, w1: u8, w2: u8) -> Seq<u8> {
    rec_at(m.tri, w1 * 4096 + w2 * 16)
}

/// The bigram record of a word.
pub open spec fn bi_rec_of(m: ModelView, w: u8) -> Seq<u8> {
    rec_at(m.bi, w * 16)
}

pub open spec fn topic_rec_of(m: ModelView, t: u8) -> Seq<u8> {
    rec_at(m.cls, CLS_TOPIC_RECS + t * 16)
}

pub open spec fn qtype_rec_of(m: ModelView, q: u8) -> Seq<u8> {
    rec_at(m.cls, CLS_QTYPE_RECS + q * 16)
}

pub open spec fn global_rec_of(m: ModelView) -> Seq<u8> {
    rec_at(m.cls, CLS_GLOBAL_REC as int)
}

/// Topic bias of a word.
pub open spec fn topic_bias_of(m: ModelView, topic: Option<u8>, tok: u8) -> u8 {
    match topic {
        Some(t) => m.cls[CLS_TOPIC_BIAS + t * 256 + tok],
        None => 0,
    }
}

/// Question-type bias of a word.
pub open spec fn qtype_bias_of(m: ModelView, qt: Option<u8>, tok: u8) -> u8 {
    match qt {
        Some(q) => m.cls[CLS_QTYPE_BIAS + q * 256 + tok],
        None => 0,
    }
}

/// Whether a word ends a sentence.
pub open spec fn is_end_of(m: ModelView, tok: u8) -> bool {
    m.cls[CLS_IS_END + tok] != 0
}

/// The group that a word-to-group map gives: the byte minus one, 0 for none.
pub open spec fn group_of(b: u8) -> Option<u8> {
    if b == 0 {
        None
    } else {
        Some((b - 1) as u8)
    }
}

/// Topic group of a word.
pub open spec fn tgroup_of(m: ModelView, w: u8) -> Option<u8> {
    group_of(m.cls[CLS_TGROUP + w])
}

/// Question-type group of a word.
pub open spec fn qgroup_of(m: ModelView, w: u8) -> Option<u8> {
    group_of(m.cls[CLS_QGROUP + w])
}

impl Model {
    pub fn topic_bias(&self, topic: Option<u8>, tok: u8) -> (b: u8)
        requires
            topic matches Some(t) ==> CLS_TOPIC_BIAS + t * 256 + tok < self.cls.len(),
        ensures
            b == topic_bias_of(self@, topic, tok),
    {
        match topic {
            Some(t) => self.cls[CLS_TOPIC_BIAS + t as usize * 256 + tok as usize],
            None => 0,
        }
    }

    pub fn qtype_bias(&self, qt: Option<u8>, tok: u8) -> (b: u8)
        requires
            qt matches Some(q) ==> CLS_QTYPE_BIAS + q * 256 + tok < self.cls.len(),
        ensures
            b == qtype_bias_of(self@, qt, tok),
    {
        match qt {
            Some(q) => self.cls[CLS_QTYPE_BIAS + q as usize * 256 + tok as usize],
            None => 0,
        }
    }

    pub fn is_end_tok(&self, tok: u8) -> (yes: bool)
        requires
            CLS_IS_END + tok < self.cls.len(),
        ensures
            yes == is_end_of(self@, tok),
    {
        self.cls[CLS_IS_END + tok as usize] != 0
    }

    pub fn tgroup(&self, wid: u8) -> (g: Option<u8>)
        requires
            CLS_TGROUP + wid < self.cls.len(),
        ensures
            g == tgroup_of(self@, wid),
    {
        let b = self.cls[CLS_TGROUP + wid as usize];
        if b == 0 {
            None
        } else {
            Some(b - 1)
        }
    }

    pub fn qgroup(&self, wid: u8) -> (g: Option<u8>)
        requires
            CLS_QGROUP + wid < self.cls.len(),
        ensures
            g == qgroup_of(self@, wid),
    {
        let b = self.cls[CLS_QGROUP + wid as usize];
        if b == 0 {
            None
        } else {
            Some(b - 1)
        }
    }

    pub fn topic_rec(&self, t: u8) -> (rec: &[u8])
        requires
            CLS_TOPIC_RECS + t * 16 + 16 <= self.cls.len(),
        ensures
            rec@ == topic_rec_of(self@, t),
    {
        let at: usize = CLS_TOPIC_RECS + t as usize * 16;
        &self.cls[at..at + 16]
    }

    pub fn qtype_rec(&self, q: u8) -> (rec: &[u8])
        requires
            CLS_QTYPE_RECS + q * 16 + 16 <= self.cls.len(),
        ensures
            rec@ == qtype_rec_of(self@, q),
    {
        let at: usize = CLS_QTYPE_RECS + q as usize * 16;
        &self.cls[at..at + 16]
    }

    pub fn global_rec(&self) -> (rec: &[u8])
        requires
            CLS_GLOBAL_REC + 16 <= self.cls.len(),
        ensures
            rec@ == global_rec_of(self@),
    {
        &self.cls[CLS_GLOBAL_REC..CLS_GLOBAL_REC + 16]
    }

    /// Transition record of a two-word context: exactly the bytes the 6502 sees
    /// at $8000 + (w1 & 1) * 4096 + w2 * 16 after its bank switch.
    pub fn tri_rec(&self, w1: u8, w2: u8) -> (rec: &[u8])
        requires
            w1 * 4096 + w2 * 16 + 16 <= self.tri.len(),
        ensures
            rec@ == tri_rec_of(self@, w1, w2),
    {
        let base: usize = w1 as usize * 4096 + w2 as usize * REC_LEN;
        &self.tri[base..base + REC_LEN]
    }

    pub fn bi_rec(&self, w: u8) -> (rec: &[u8])
        requires
            w * 16 + 16 <= self.bi.len(),
        ensures
            rec@ == bi_rec_of(self@, w),
    {
        let base: usize = w as usize * REC_LEN;
        &self.bi[base..base + REC_LEN]
    }
}

// ---------------------------------------------------------------------------
// Writing model.bin
// ---------------------------------------------------------------------------

/// A 32-bit number, low byte first.
pub open spec fn le32(n: int) -> Seq<u8> {
    seq![
        (n % 256) as u8,
        (n / 256 % 256) as u8,
        (n / 0x10000 % 256) as u8,
        (n / 0x1000000 % 256) as u8,
    ]
}

/// The route table: its length and five bytes per row.
pub open spec fn route_bytes(routes: Seq<RouteRow>) -> Seq<u8> {
    seq![(routes.len() % 256) as u8] + Seq::new(
        routes.len() * 5,
        |i: int|
            {
                let r = routes[i / 5];
                if i % 5 == 0 {
                    r.level
                } else if i % 5 == 1 {
                    r.qtype
                } else if i % 5 == 2 {
                    r.topic
                } else if i % 5 == 3 {
                    r.seed1
                } else {
                    r.seed2
                }
            },
    )
}

/// A name with a flag, as stored: a byte with the length (and the flag in bit
/// 7, where there are flags), then the name's bytes.
pub struct Entry {
    pub flag: bool,
    pub bytes: Seq<u8>,
}

pub open spec fn entry_bytes(e: Entry) -> Seq<u8> {
    let len = e.bytes.len() % 256;
    seq![
        if e.flag && len < 128 {
            (len + 128) as u8
        } else {
            len as u8
        },
    ] + e.bytes
}

pub open spec fn entries_bytes(list: Seq<Entry>) -> Seq<u8>
    decreases list.len(),
{
    if list.len() == 0 {
        seq![]
    } else {
        entries_bytes(list.drop_last()) + entry_bytes(list.last())
    }
}

/// Topic names with their technical flags.
pub open spec fn topic_entries(m: ModelView) -> Seq<Entry> {
    let n = if m.topic_names.len() < m.topic_tech.len() {
        m.topic_names.len()
    } else {
        m.topic_tech.len()
    };
    Seq::new(n, |i: int| Entry { flag: m.topic_tech[i], bytes: encode_utf8(m.topic_names[i]) })
}

/// Question-type names.
pub open spec fn qtype_entries(m: ModelView) -> Seq<Entry> {
    Seq::new(
        m.qtype_names.len(),
        |i: int| Entry { flag: false, bytes: encode_utf8(m.qtype_names[i]) },
    )
}

/// The name section: both lists with their lengths.
pub open spec fn name_bytes(m: ModelView) -> Seq<u8> {
    seq![(m.topic_names.len() % 256) as u8] + (entries_bytes(topic_entries(m)) + (seq![
        (m.qtype_names.len() % 256) as u8,
    ] + entries_bytes(qtype_entries(m))))
}

/// The 32-byte header.
pub open spec fn header_bytes(m: ModelView) -> Seq<u8> {
    seq![
        0x4Eu8,
        0x4Eu8,
        0x57u8,
        0x35u8,
        5u8,
        m.vocab_size,
        m.k,
        0u8,
        m.qmark_id,
        WORD_BUDGET as u8,
        MIN_WORDS_BEFORE_STOP as u8,
        m.emergency.0,
        m.emergency.1,
        0u8,
        0u8,
        0u8,
    ] + le32(m.tri.len() as int) + le32(m.bi.len() as int) + le32(
        vocab_bytes(m.words).len() as int,
    ) + seq![0u8, 0u8, 0u8, 0u8]
}

/// What follows the word table: attributes, routes, classifier bank, network
/// bank, names.
pub open spec fn tail_bytes(m: ModelView) -> Seq<u8> {
    m.attr + (route_bytes(m.routes) + (m.cls + (bank_of(m.neural) + name_bytes(m))))
}

/// The whole file.
pub open spec fn model_bytes(m: ModelView) -> Seq<u8> {
    header_bytes(m) + (m.tri + (m.bi + (vocab_bytes(m.words) + tail_bytes(m))))
}

fn push_le32(out: &mut Vec<u8>, n: usize)
    ensures
        final(out)@ == old(out)@ + le32(n as int),
{
    out.push((n % 256) as u8);
    out.push((n / 256 % 256) as u8);
    out.push((n / 0x10000 % 256) as u8);
    out.push((n / 0x1000000 % 256) as u8);
    assert(out@ =~= old(out)@ + le32(n as int));
}

fn push_entry(out: &mut Vec<u8>, name: &str, flag: bool)
    ensures
        final(out)@ == old(out)@ + entry_bytes(
            (Entry { flag, bytes: encode_utf8(name@) }),
        ),
{
    let bytes = name.as_bytes();
    let len: u8 = (bytes.len() % 256) as u8;
    out.push(
        if flag && len < 128 {
            len + 128
        } else {
            len
        },
    );
    out.extend_from_slice(bytes);
    assert(out@ =~= old(out)@ + entry_bytes((Entry { flag, bytes: encode_utf8(name@) })));
}

/// Nine pieces joined from the left are the same joined from the right.
proof fn lemma_regroup(
    a: Seq<u8>,
    b: Seq<u8>,
    c: Seq<u8>,
    d: Seq<u8>,
    e: Seq<u8>,
    f: Seq<u8>,
    g: Seq<u8>,
    h: Seq<u8>,
    i: Seq<u8>,
)
    ensures
        a + b + c + d + e + f + g + h + i == a + (b + (c + (d + (e + (f + (g + (h + i))))))),
{
    assert(g + h + i =~= g + (h + i));
    let r6 = g + (h + i);
    let s5 = a + b + c + d + e;
    assert(s5 + f + g + h + i =~= s5 + (f + r6));
    let r5 = f + r6;
    assert(a + b + c + d + e + r5 =~= a + b + c + (d + (e + r5)));
    let r3 = d + (e + r5);
    assert(a + b + c + r3 =~= a + (b + (c + r3)));
}

impl Model {
    /// The route table as stored.
    pub fn routes_bytes(&self) -> (out: Vec<u8>)
        ensures
            out@ == route_bytes(self.routes@),
    {
        let mut out: Vec<u8> = Vec::new();
        out.push((self.routes.len() % 256) as u8);
        let mut i: usize = 0;
        while i < self.routes.len()
            invariant
                i <= self.routes.len(),
                out@.len() == 1 + 5 * i,
                out@ == route_bytes(self.routes@).take(1 + 5 * i),
            decreases self.routes.len() - i,
        {
            let r = &self.routes[i];
            out.push(r.level);
            out.push(r.qtype);
            out.push(r.topic);
            out.push(r.seed1);
            out.push(r.seed2);
            assert(out@ =~= route_bytes(self.routes@).take(1 + 5 * (i + 1)));
            i = i + 1;
        }
        assert(out@ =~= route_bytes(self.routes@));
        out
    }

    fn push_names(&self, out: &mut Vec<u8>)
        ensures
            final(out)@ == old(out)@ + name_bytes(self@),
    {
        let ghost start = out@;
        let ghost topics = topic_entries(self@);
        let ghost qtypes = qtype_entries(self@);
        out.push((self.topic_names.len() % 256) as u8);
        let ghost head = out@;
        let mut i: usize = 0;
        while i < self.topic_names.len() && i < self.topic_tech.len()
            invariant
                i <= self.topic_names.len(),
                i <= self.topic_tech.len(),
                topics == topic_entries(self@),
                out@ == head + entries_bytes(topics.take(i as int)),
            decreases self.topic_names.len() - i,
        {
            push_entry(out, self.topic_names[i].as_str(), self.topic_tech[i]);
            assert(topics.take(i + 1).drop_last() == topics.take(i as int));
            i = i + 1;
        }
        assert(topics.take(i as int) == topics);
        out.push((self.qtype_names.len() % 256) as u8);
        let ghost mid = out@;
        let mut j: usize = 0;
        while j < self.qtype_names.len()
            invariant
                j <= self.qtype_names.len(),
                qtypes == qtype_entries(self@),
                out@ == mid + entries_bytes(qtypes.take(j as int)),
            decreases self.qtype_names.len() - j,
        {
            push_entry(out, self.qtype_names[j].as_str(), false);
            assert(qtypes.take(j + 1).drop_last() == qtypes.take(j as int));
            j = j + 1;
        }
        assert(qtypes.take(j as int) == qtypes);
        assert(out@ =~= start + name_bytes(self@));
    }

    fn header(&self, words_len: usize) -> (out: Vec<u8>)
        requires
            words_len == vocab_bytes(self@.words).len(),
        ensures
            out@ == header_bytes(self@),
    {
        let mut out: Vec<u8> = Vec::new();
        out.push(MAGIC[0]);
        out.push(MAGIC[1]);
        out.push(MAGIC[2]);
        out.push(MAGIC[3]);
        out.push(5);
        out.push(self.vocab_size);
        out.push(self.k);
        out.push(0);
        out.push(self.qmark_id);
        out.push(WORD_BUDGET as u8);
        out.push(MIN_WORDS_BEFORE_STOP as u8);
        out.push(self.emergency.0);
        out.push(self.emergency.1);
        out.push(0);
        out.push(0);
        out.push(0);
        push_le32(&mut out, self.tri.len());
        push_le32(&mut out, self.bi.len());
        push_le32(&mut out, words_len);
        out.push(0);
        out.push(0);
        out.push(0);
        out.push(0);
        assert(out@ =~= header_bytes(self@));
        out
    }

    /// The `model.bin` file.
    pub fn to_bytes(&self) -> (out: Vec<u8>)
        requires
            layers_fit(self.neural@),
        ensures
            out@ == model_bytes(self@),
    {
        let mut words = self.vocab.to_bytes();
        let mut routes = self.routes_bytes();
        let mut bank = self.neural.bank_image();
        let mut out = self.header(words.len());
        let ghost m = self@;
        let ghost s1 = header_bytes(m) + m.tri;
        let ghost s2 = s1 + m.bi;
        let ghost s3 = s2 + vocab_bytes(m.words);
        let ghost s4 = s3 + m.attr;
        let ghost s5 = s4 + route_bytes(m.routes);
        let ghost s6 = s5 + m.cls;
        out.extend_from_slice(&self.tri);
        assert(out@ =~= s1);
        out.extend_from_slice(&self.bi);
        assert(out@ =~= s2);
        out.append(&mut words);
        out.extend_from_slice(self.attr.as_slice());
        assert(out@ =~= s4);
        out.append(&mut routes);
        out.extend_from_slice(&self.cls);
        assert(out@ =~= s6);
        out.append(&mut bank);
        self.push_names(&mut out);
        proof {
            lemma_regroup(
                header_bytes(m),
                m.tri,
                m.bi,
                vocab_bytes(m.words),
                m.attr,
                route_bytes(m.routes),
                m.cls,
                bank_of(m.neural),
                name_bytes(m),
            );
        }
        out
    }
}

// ---------------------------------------------------------------------------
// Reading model.bin
// ---------------------------------------------------------------------------

/// Why bytes are not a model.
#[derive(Clone, Copy, Debug, PartialEq, Eq, Structural)]
pub enum ModelError {
    /// Not longer than a header.
    TooShort,
    /// The first four bytes are not `MAGIC`.
    BadMagic,
    /// The version byte is not 5.
    BadVersion,
    /// The header names other table sizes than `TRI_LEN` and `BI_LEN`.
    TableSize,
    /// The file ends before the attributes and the number of routes.
    MissingSections,
}

/// The text that `String::from_utf8_lossy` makes of bytes that are not UTF-8.
pub uninterp spec fn lossy_utf8(bytes: Seq<u8>) -> Seq<char>;

/// The text that stored bytes hold.
pub open spec fn text_from(bytes: Seq<u8>) -> Seq<char> {
    if valid_utf8(bytes) {
        decode_utf8(bytes)
    } else {
        lossy_utf8(bytes)
    }
}

/// Trusted: `String::from_utf8_lossy` decodes valid UTF-8 as it stands. Of other
/// bytes it makes the text named `lossy_utf8`, which puts replacement characters
/// for what is invalid; which ones is not stated.
#[verifier::external_body]
fn text_from_utf8(bytes: &[u8]) -> (text: String)
    ensures
        valid_utf8(bytes@) ==> text@ == decode_utf8(bytes@),
        !valid_utf8(bytes@) ==> text@ == lossy_utf8(bytes@),
{
    String::from_utf8_lossy(bytes).into_owned()
}

/// The 32-bit number at an offset, low byte first.
pub open spec fn le32_at(b: Seq<u8>, at: int) -> int {
    b[at] + 256 * b[at + 1] + 0x10000 * b[at + 2] + 0x1000000 * b[at + 3]
}

/// Word `k` of a word table; `None` where the table is cut short.
pub open spec fn word_at(table: Seq<u8>, k: int) -> Option<Seq<char>> {
    if table.len() < 2 * MAX_WORDS || MAX_WORDS + k >= table.len() {
        None
    } else {
        let data = table.skip(2 * MAX_WORDS);
        let off = table[k] + 256 * table[MAX_WORDS + k];
        if off >= data.len() || off + 1 + data[off] > data.len() {
            None
        } else {
            Some(text_of(data.subrange(off + 1, off + 1 + data[off])))
        }
    }
}

/// The first `n` words of a word table; `None` where it is cut short.
pub open spec fn words_at(table: Seq<u8>, n: int) -> Option<Seq<Seq<char>>>
    decreases n,
{
    if n <= 0 {
        if table.len() < 2 * MAX_WORDS {
            None
        } else {
            Some(seq![])
        }
    } else {
        match (words_at(table, n - 1), word_at(table, n - 1)) {
            (Some(words), Some(w)) => Some(words.push(w)),
            _ => None,
        }
    }
}

/// Rows of five bytes each.
pub open spec fn rows_of(b: Seq<u8>) -> Seq<RouteRow> {
    Seq::new(
        b.len() / 5,
        |i: int|
            RouteRow {
                level: b[i * 5],
                qtype: b[i * 5 + 1],
                topic: b[i * 5 + 2],
                seed1: b[i * 5 + 3],
                seed2: b[i * 5 + 4],
            },
    )
}

/// The first `n` stored names, with the number of bytes they take; `None` where
/// the bytes end before. With `flagged`, bit 7 of a length byte is the flag.
pub open spec fn entries_at(b: Seq<u8>, n: int, flagged: bool) -> Option<(Seq<Entry>, int)>
    decreases n,
{
    if n <= 0 {
        Some((seq![], 0))
    } else {
        match entries_at(b, n - 1, flagged) {
            None => None,
            Some((list, end)) => {
                let len: int = if flagged {
                    b[end] as int % 128
                } else {
                    b[end] as int
                };
                if end >= b.len() || end + 1 + len > b.len() {
                    None
                } else {
                    Some(
                        (
                            list.push(
                                Entry {
                                    flag: flagged && b[end] >= 128,
                                    bytes: b.subrange(end + 1, end + 1 + len),
                                },
                            ),
                            end + 1 + len,
                        ),
                    )
                }
            },
        }
    }
}

/// The names in a list of entries.
pub open spec fn names_in(list: Seq<Entry>) -> Seq<Seq<char>> {
    Seq::new(list.len(), |i: int| text_from(list[i].bytes))
}

/// The flags in a list of entries.
pub open spec fn flags_in(list: Seq<Entry>) -> Seq<bool> {
    Seq::new(list.len(), |i: int| list[i].flag)
}

/// A list of names behind its length byte, and where it ends.
pub open spec fn names_at(b: Seq<u8>, flagged: bool) -> Option<(Seq<Entry>, int)> {
    if b.len() == 0 {
        None
    } else {
        match entries_at(b.skip(1), b[0] as int, flagged) {
            None => None,
            Some((list, end)) => Some((list, end + 1)),
        }
    }
}

/// What the sections behind the word table hold, given the header and the words.
pub open spec fn parse_tail(bytes: Seq<u8>, words: Seq<Seq<char>>, tail: Seq<u8>) -> Option<
    Result<ModelView, ModelError>,
> {
    let n_routes = tail[256] as int;
    let behind = tail.skip(257);
    let banks = behind.skip(5 * n_routes);
    let names = banks.skip((CLS_LEN + NEURAL_LEN) as int);
    if tail.len() < 257 {
        Some(Err(ModelError::MissingSections))
    } else if behind.len() < 5 * n_routes + CLS_LEN + NEURAL_LEN {
        None
    } else {
        match names_at(names, true) {
            None => None,
            Some((topics, end)) => match names_at(names.skip(end), false) {
                None => None,
                Some((qtypes, _)) => Some(
                    Ok(
                        ModelView {
                            vocab_size: bytes[5],
                            k: bytes[6],
                            qmark_id: bytes[8],
                            emergency: (bytes[11], bytes[12]),
                            tri: bytes.subrange(HEADER_LEN as int, HEADER_LEN + TRI_LEN),
                            bi: bytes.subrange(
                                HEADER_LEN + TRI_LEN,
                                HEADER_LEN + TRI_LEN + BI_LEN,
                            ),
                            words,
                            attr: tail.take(256),
                            routes: rows_of(behind.take(5 * n_routes)),
                            cls: banks.take(CLS_LEN as int),
                            neural: network_of(
                                banks.subrange(CLS_LEN as int, CLS_LEN + NEURAL_LEN),
                                bytes[5] as int,
                            ),
                            topic_names: names_in(topics),
                            topic_tech: flags_in(topics),
                            qtype_names: names_in(qtypes),
                        },
                    ),
                ),
            },
        }
    }
}

/// The model that bytes hold, or the error they are refused with; `None` where
/// they are cut short inside a section.
pub open spec fn parse_of(bytes: Seq<u8>) -> Option<Result<ModelView, ModelError>> {
    let table_at = HEADER_LEN + TRI_LEN + BI_LEN;
    let words_len = le32_at(bytes, 24);
    if bytes.len() <= HEADER_LEN {
        Some(Err(ModelError::TooShort))
    } else if bytes.take(4) != MAGIC@ {
        Some(Err(ModelError::BadMagic))
    } else if bytes[4] != 5 {
        Some(Err(ModelError::BadVersion))
    } else if le32_at(bytes, 16) != TRI_LEN || le32_at(bytes, 20) != BI_LEN {
        Some(Err(ModelError::TableSize))
    } else if bytes.len() < table_at + words_len {
        None
    } else {
        match words_at(bytes.subrange(table_at, table_at + words_len), bytes[5] as int) {
            None => None,
            Some(words) => parse_tail(bytes, words, bytes.skip(table_at + words_len)),
        }
    }
}

fn read_le32(b: &[u8], at: usize) -> (n: u32)
    requires
        at + 4 <= b.len(),
    ensures
        n == le32_at(b@, at as int),
{
    b[at] as u32 + 256 * b[at + 1] as u32 + 0x10000 * b[at + 2] as u32 + 0x1000000 * b[at
        + 3] as u32
}

fn read_words(table: &[u8], n: usize) -> (words: Option<Vec<String>>)
    requires
        n <= 256,
    ensures
        match words {
            Some(list) => words_at(table@, n as int) == Some(texts(list@)),
            None => words_at(table@, n as int) is None,
        },
{
    if table.len() < 2 * MAX_WORDS {
        proof {
            lemma_words_at_fails(table@, 0, n as int);
        }
        return None;
    }
    let data = &table[2 * MAX_WORDS..table.len()];
    assert(data@ == table@.skip(2 * MAX_WORDS));
    let mut list: Vec<String> = Vec::new();
    assert(texts(list@) == Seq::<Seq<char>>::empty());
    let mut k: usize = 0;
    while k < n
        invariant
            k <= n <= 256,
            table.len() >= 2 * MAX_WORDS,
            data@ == table@.skip(2 * MAX_WORDS),
            words_at(table@, k as int) == Some(texts(list@)),
        decreases n - k,
    {
        let word = read_word(table, data, k);
        match word {
            Some(w) => {
                let ghost before = texts(list@);
                list.push(w);
                assert(texts(list@) == before.push(w@));
            },
            None => {
                proof {
                    lemma_words_at_fails(table@, k + 1, n as int);
                }
                return None;
            },
        }
        k = k + 1;
    }
    Some(list)
}

fn read_word(table: &[u8], data: &[u8], k: usize) -> (word: Option<String>)
    requires
        k < 256,
        table.len() >= 2 * MAX_WORDS,
        data@ == table@.skip(2 * MAX_WORDS),
    ensures
        match word {
            Some(w) => word_at(table@, k as int) == Some(w@),
            None => word_at(table@, k as int) is None,
        },
{
    if MAX_WORDS + k >= table.len() {
        return None;
    }
    let off: usize = table[k] as usize + 256 * table[MAX_WORDS + k] as usize;
    if off >= data.len() || data[off] as usize > data.len() - off - 1 {
        return None;
    }
    Some(chars_from_ids(&data[off + 1..off + 1 + data[off] as usize]))
}

proof fn lemma_words_at_fails(table: Seq<u8>, k: int, n: int)
    requires
        k <= n,
        words_at(table, k) is None,
    ensures
        words_at(table, n) is None,
    decreases n - k,
{
    if k < n && n > 0 {
        lemma_words_at_fails(table, k, n - 1);
    }
}

fn read_rows(b: &[u8]) -> (rows: Vec<RouteRow>)
    requires
        b.len() % 5 == 0,
    ensures
        rows@ == rows_of(b@),
{
    let n: usize = b.len() / 5;
    let mut rows: Vec<RouteRow> = Vec::new();
    let mut i: usize = 0;
    while i < n
        invariant
            i <= n,
            n == b.len() / 5,
            b.len() % 5 == 0,
            rows@ == rows_of(b@).take(i as int),
        decreases n - i,
    {
        rows.push(
            RouteRow {
                level: b[i * 5],
                qtype: b[i * 5 + 1],
                topic: b[i * 5 + 2],
                seed1: b[i * 5 + 3],
                seed2: b[i * 5 + 4],
            },
        );
        i = i + 1;
    }
    rows
}

proof fn lemma_entries_fail(b: Seq<u8>, k: int, n: int, flagged: bool)
    requires
        k <= n,
        entries_at(b, k, flagged) is None,
    ensures
        entries_at(b, n, flagged) is None,
    decreases n - k,
{
    if k < n && n > 0 {
        lemma_entries_fail(b, k, n - 1, flagged);
    }
}

fn read_names(b: &[u8], flagged: bool) -> (read: Option<(Vec<String>, Vec<bool>, usize)>)
    ensures
        match (read, names_at(b@, flagged)) {
            (Some((names, flags, end)), Some((list, stop))) => {
                &&& texts(names@) == names_in(list)
                &&& flags@ == flags_in(list)
                &&& end == stop
                &&& end <= b.len()
            },
            (None, None) => true,
            _ => false,
        },
{
    if b.len() == 0 {
        return None;
    }
    let n: usize = b[0] as usize;
    let body = &b[1..b.len()];
    assert(body@ == b@.skip(1));
    let mut names: Vec<String> = Vec::new();
    let mut flags: Vec<bool> = Vec::new();
    let mut end: usize = 0;
    let ghost mut list: Seq<Entry> = seq![];
    assert(texts(names@) =~= names_in(list));
    assert(flags@ =~= flags_in(list));
    let mut k: usize = 0;
    while k < n
        invariant
            k <= n,
            b.len() > 0,
            n == b@[0],
            body@ == b@.skip(1),
            end <= body.len(),
            entries_at(body@, k as int, flagged) == Some((list, end as int)),
            texts(names@) == names_in(list),
            flags@ == flags_in(list),
        decreases n - k,
    {
        if end >= body.len() {
            proof {
                lemma_entries_fail(body@, k + 1, n as int, flagged);
            }
            return None;
        }
        let len: usize = if flagged {
            (body[end] % 128) as usize
        } else {
            body[end] as usize
        };
        if len > body.len() - end - 1 {
            proof {
                lemma_entries_fail(body@, k + 1, n as int, flagged);
            }
            return None;
        }
        let name = text_from_utf8(&body[end + 1..end + 1 + len]);
        let ghost before = list;
        let ghost before_names = names@;
        proof {
            list = list.push(
                Entry {
                    flag: flagged && body@[end as int] >= 128,
                    bytes: body@.subrange(end + 1, end + 1 + len),
                },
            );
        }
        names.push(name);
        flags.push(flagged && body[end] >= 128);
        assert(texts(names@) =~= texts(before_names).push(name@));
        assert(names_in(list) =~= names_in(before).push(name@));
        assert(flags_in(list) =~= flags_in(before).push(flagged && body@[end as int] >= 128));
        end = end + 1 + len;
        k = k + 1;
    }
    Some((names, flags, end + 1))
}

fn read_attr(b: &[u8]) -> (attr: [u8; 256])
    requires
        b.len() >= 256,
    ensures
        attr@ == b@.take(256),
{
    let mut attr: [u8; 256] = [0;256];
    let mut i: usize = 0;
    while i < 256
        invariant
            i <= 256,
            b.len() >= 256,
            forall|j: int| 0 <= j < i ==> attr@[j] == b@[j],
        decreases 256 - i,
    {
        attr[i] = b[i];
        i = i + 1;
    }
    assert(attr@ =~= b@.take(256));
    attr
}

impl Model {
    /// Reads `model.bin`; `None` where the bytes are cut short inside a section.
    pub fn checked_from_bytes(bytes: &[u8]) -> (model: Option<Result<Model, ModelError>>)
        ensures
            match (model, parse_of(bytes@)) {
                (Some(Ok(m)), Some(Ok(v))) => m@ == v,
                (Some(Err(e)), Some(Err(d))) => e == d,
                (None, None) => true,
                _ => false,
            },
    {
        if bytes.len() <= HEADER_LEN {
            return Some(Err(ModelError::TooShort));
        }
        if bytes[0] != MAGIC[0] || bytes[1] != MAGIC[1] || bytes[2] != MAGIC[2] || bytes[3]
            != MAGIC[3] {
            proof {
                assert(bytes@.take(4)[0] == bytes@[0]);
                assert(bytes@.take(4)[1] == bytes@[1]);
                assert(bytes@.take(4)[2] == bytes@[2]);
                assert(bytes@.take(4)[3] == bytes@[3]);
            }
            return Some(Err(ModelError::BadMagic));
        }
        assert(bytes@.take(4) =~= MAGIC@);
        if bytes[4] != 5 {
            return Some(Err(ModelError::BadVersion));
        }
        if read_le32(bytes, 16) as usize != TRI_LEN || read_le32(bytes, 20) as usize != BI_LEN {
            return Some(Err(ModelError::TableSize));
        }
        let words_len: usize = read_le32(bytes, 24) as usize;
        let bi_at: usize = HEADER_LEN + TRI_LEN;
        let table_at: usize = bi_at + BI_LEN;
        if bytes.len() < table_at || bytes.len() - table_at < words_len {
            return None;
        }
        let tail_at: usize = table_at + words_len;
        let tail = &bytes[tail_at..bytes.len()];
        assert(tail@ == bytes@.skip(tail_at as int));
        match read_words(&bytes[table_at..tail_at], bytes[5] as usize) {
            None => None,
            Some(words) => Model::read_tail(bytes, words, tail),
        }
    }

    fn read_tail(bytes: &[u8], words: Vec<String>, tail: &[u8]) -> (model: Option<
        Result<Model, ModelError>,
    >)
        requires
            bytes.len() >= HEADER_LEN + TRI_LEN + BI_LEN,
        ensures
            match (model, parse_tail(bytes@, texts(words@), tail@)) {
                (Some(Ok(m)), Some(Ok(v))) => m@ == v,
                (Some(Err(e)), Some(Err(d))) => e == d,
                (None, None) => true,
                _ => false,
            },
    {
        if tail.len() < 257 {
            return Some(Err(ModelError::MissingSections));
        }
        let rows_len: usize = tail[256] as usize * 5;
        let need: usize = 257 + rows_len + CLS_LEN + NEURAL_LEN;
        let ghost behind = tail@.skip(257);
        if tail.len() < need {
            return None;
        }
        let names = &tail[need..tail.len()];
        let ghost banks = behind.skip(rows_len as int);
        assert(names@ =~= banks.skip((CLS_LEN + NEURAL_LEN) as int));
        let (topic_names, topic_tech, end) = match read_names(names, true) {
            None => return None,
            Some(read) => read,
        };
        let rest = &names[end..names.len()];
        assert(rest@ =~= names@.skip(end as int));
        let (qtype_names, _, _) = match read_names(rest, false) {
            None => return None,
            Some(read) => read,
        };
        let cls_at: usize = 257 + rows_len;
        let bank_at: usize = cls_at + CLS_LEN;
        let bi_at: usize = HEADER_LEN + TRI_LEN;
        let model = Model {
            vocab_size: bytes[5],
            k: bytes[6],
            qmark_id: bytes[8],
            emergency: (bytes[11], bytes[12]),
            tri: vstd::slice::slice_to_vec(&bytes[HEADER_LEN..bi_at]),
            bi: vstd::slice::slice_to_vec(&bytes[bi_at..bi_at + BI_LEN]),
            vocab: WordVocab { words },
            attr: read_attr(tail),
            routes: read_rows(&tail[257..cls_at]),
            cls: vstd::slice::slice_to_vec(&tail[cls_at..bank_at]),
            neural: NeuralInt::from_bank(&tail[bank_at..need], bytes[5] as usize),
            topic_names,
            topic_tech,
            qtype_names,
        };
        assert(behind.take(rows_len as int) =~= tail@.subrange(257, cls_at as int));
        assert(banks.take(CLS_LEN as int) =~= tail@.subrange(cls_at as int, bank_at as int));
        assert(banks.subrange(CLS_LEN as int, CLS_LEN + NEURAL_LEN) =~= tail@.subrange(
            bank_at as int,
            need as int,
        ));
        assert(Some(Ok::<ModelView, ModelError>(model@)) == parse_tail(bytes@, texts(words@), tail@));
        Some(Ok(model))
    }

    /// Reads `model.bin`.
    pub fn from_bytes(bytes: &[u8]) -> (model: Result<Model, ModelError>)
        requires
            parse_of(bytes@) is Some,
        ensures
            match (model, parse_of(bytes@)->Some_0) {
                (Ok(m), Ok(v)) => m@ == v,
                (Err(e), Err(d)) => e == d,
                _ => false,
            },
    {
        match Model::checked_from_bytes(bytes) {
            Some(model) => model,
            None => Err(ModelError::TooShort),
        }
    }
}

// ---------------------------------------------------------------------------
// What is read is what was written
// ---------------------------------------------------------------------------

/// Models that `model.bin` has room for: tables of the fixed sizes, a network
/// and a word list of the stated vocabulary size, lengths that fit their fields.
pub open spec fn storable(m: ModelView) -> bool {
    &&& m.tri.len() == TRI_LEN
    &&& m.bi.len() == BI_LEN
    &&& m.cls.len() == CLS_LEN
    &&& m.attr.len() == 256
    &&& m.words.len() == m.vocab_size
    &&& m.words.len() <= MAX_WORDS
    &&& forall|i: int|
        0 <= i < m.words.len() ==> displayable(#[trigger] m.words[i]) && m.words[i].len() <= 255
    &&& word_data(m.words).len() <= 0x10000
    &&& layers_fit(m.neural)
    &&& m.neural.v == m.vocab_size
    &&& m.routes.len() <= 255
    &&& m.topic_names.len() == m.topic_tech.len()
    &&& m.topic_names.len() <= 255
    &&& forall|i: int|
        0 <= i < m.topic_names.len() ==> encode_utf8(#[trigger] m.topic_names[i]).len() <= 127
    &&& m.qtype_names.len() <= 255
    &&& forall|i: int|
        0 <= i < m.qtype_names.len() ==> encode_utf8(#[trigger] m.qtype_names[i]).len() <= 255
}

/// Where word `k` stands in the character data.
pub proof fn lemma_word_data_at(words: Seq<Seq<char>>, k: int)
    requires
        0 <= k < words.len(),
        forall|i: int|
            0 <= i < words.len() ==> displayable(#[trigger] words[i]) && words[i].len() <= 255,
    ensures
        ({
            let data = word_data(words);
            let off = word_data(words.take(k)).len() as int;
            let ids = ids_of(words[k]);
            &&& off + 1 + ids.len() <= data.len()
            &&& data[off] == ids.len()
            &&& data.subrange(off + 1, off + 1 + ids.len()) == ids
        }),
    decreases words.len(),
{
    let last = words.len() - 1;
    let rest = words.drop_last();
    law_display_roundtrip(words[last]);
    if k == last {
        assert(words.take(k) =~= rest);
        let off = word_data(rest).len() as int;
        assert(word_data(words).subrange(off + 1, off + 1 + ids_of(words[k]).len()) =~= ids_of(
            words[k],
        ));
    } else {
        assert forall|i: int| 0 <= i < rest.len() implies displayable(#[trigger] rest[i])
            && rest[i].len() <= 255 by {
            assert(rest[i] == words[i]);
        }
        lemma_word_data_at(rest, k);
        assert(rest.take(k) =~= words.take(k));
        assert(rest[k] == words[k]);
        let off = word_data(words.take(k)).len() as int;
        let ids = ids_of(words[k]);
        assert(word_data(words).subrange(off + 1, off + 1 + ids.len()) =~= word_data(
            rest,
        ).subrange(off + 1, off + 1 + ids.len()));
    }
}

/// The words of a serialized vocabulary are the vocabulary's.
proof fn lemma_words_roundtrip(words: Seq<Seq<char>>, n: int)
    requires
        0 <= n <= words.len(),
        words.len() <= MAX_WORDS,
        forall|i: int|
            0 <= i < words.len() ==> displayable(#[trigger] words[i]) && words[i].len() <= 255,
        word_data(words).len() <= 0x10000,
    ensures
        words_at(vocab_bytes(words), n) == Some(words.take(n)),
    decreases n,
{
    let table = vocab_bytes(words);
    if n > 0 {
        lemma_words_roundtrip(words, n - 1);
        let k = n - 1;
        lemma_word_data_at(words, k);
        law_display_roundtrip(words[k]);
        let data = table.skip(2 * MAX_WORDS);
        assert(data =~= word_data(words));
        let off = word_data(words.take(k)).len() as int;
        assert(table[k] == (word_offset(words, k) % 256) as u8);
        assert(table[MAX_WORDS + k] == (word_offset(words, k) / 256) as u8);
        assert(table[k] + 256 * table[MAX_WORDS + k] == off);
        assert(word_at(table, k) == Some(words[k]));
        assert(words.take(n - 1).push(words[k]) =~= words.take(n));
    } else {
        assert(words.take(0) =~= Seq::<Seq<char>>::empty());
    }
}

/// Entries read are the entries written, whatever follows them.
proof fn lemma_entries_roundtrip(list: Seq<Entry>, suffix: Seq<u8>, flagged: bool)
    requires
        forall|i: int|
            0 <= i < list.len() ==> (#[trigger] list[i]).bytes.len() <= (if flagged {
                127int
            } else {
                255
            }) && (list[i].flag ==> flagged),
    ensures
        entries_at(entries_bytes(list) + suffix, list.len() as int, flagged) == Some(
            (list, entries_bytes(list).len() as int),
        ),
    decreases list.len(),
{
    let b = entries_bytes(list) + suffix;
    if list.len() > 0 {
        let rest = list.drop_last();
        let e = list.last();
        assert forall|i: int| 0 <= i < rest.len() implies (#[trigger] rest[i]).bytes.len() <= (
        if flagged {
            127int
        } else {
            255
        }) && (rest[i].flag ==> flagged) by {
            assert(rest[i] == list[i]);
        }
        assert(list[list.len() - 1] == e);
        lemma_entries_roundtrip(rest, entry_bytes(e) + suffix, flagged);
        assert(entries_bytes(rest) + (entry_bytes(e) + suffix) =~= b);
        let end = entries_bytes(rest).len() as int;
        assert(b[end] == entry_bytes(e)[0]);
        let len = e.bytes.len() as int;
        assert(b.subrange(end + 1, end + 1 + len) =~= e.bytes);
        assert(rest.push(e) =~= list);
    } else {
        assert(list =~= Seq::<Entry>::empty());
    }
}

/// The name section read is the name section written.
proof fn lemma_names_roundtrip(m: ModelView)
    requires
        storable(m),
    ensures
        ({
            let topics = topic_entries(m);
            let qtypes = qtype_entries(m);
            let end = 1 + entries_bytes(topics).len() as int;
            &&& names_at(name_bytes(m), true) == Some((topics, end))
            &&& names_at(name_bytes(m).skip(end), false) == Some(
                (qtypes, 1 + entries_bytes(qtypes).len() as int),
            )
            &&& names_in(topics) == m.topic_names
            &&& flags_in(topics) == m.topic_tech
            &&& names_in(qtypes) == m.qtype_names
        }),
{
    let topics = topic_entries(m);
    let qtypes = qtype_entries(m);
    let b = name_bytes(m);
    let end = 1 + entries_bytes(topics).len() as int;
    let second = seq![(m.qtype_names.len() % 256) as u8] + entries_bytes(qtypes);
    assert forall|i: int| 0 <= i < topics.len() implies (#[trigger] topics[i]).bytes.len() <= 127
        && text_from(topics[i].bytes) == m.topic_names[i] by {
        assert(encode_utf8(m.topic_names[i]).len() <= 127);
        encode_utf8_valid_utf8(m.topic_names[i]);
        encode_utf8_decode_utf8(m.topic_names[i]);
    }
    assert forall|i: int| 0 <= i < qtypes.len() implies (#[trigger] qtypes[i]).bytes.len() <= 255
        && text_from(qtypes[i].bytes) == m.qtype_names[i] by {
        assert(encode_utf8(m.qtype_names[i]).len() <= 255);
        encode_utf8_valid_utf8(m.qtype_names[i]);
        encode_utf8_decode_utf8(m.qtype_names[i]);
    }
    lemma_entries_roundtrip(topics, second, true);
    assert(b.skip(1) =~= entries_bytes(topics) + second);
    lemma_entries_roundtrip(qtypes, seq![], false);
    assert(b.skip(end) =~= second);
    assert(second.skip(1) =~= entries_bytes(qtypes) + Seq::<u8>::empty());
    assert(names_in(topics) =~= m.topic_names);
    assert(flags_in(topics) =~= m.topic_tech);
    assert(names_in(qtypes) =~= m.qtype_names);
}

/// The sections behind the word table read as written.
proof fn lemma_tail_roundtrip(bytes: Seq<u8>, m: ModelView)
    requires
        storable(m),
        bytes.len() > HEADER_LEN,
        bytes[5] == m.vocab_size,
        bytes[6] == m.k,
        bytes[8] == m.qmark_id,
        bytes[11] == m.emergency.0,
        bytes[12] == m.emergency.1,
        bytes.subrange(HEADER_LEN as int, HEADER_LEN + TRI_LEN) == m.tri,
        bytes.subrange(HEADER_LEN + TRI_LEN, HEADER_LEN + TRI_LEN + BI_LEN) == m.bi,
    ensures
        parse_tail(bytes, m.words, tail_bytes(m)) == Some(Ok::<ModelView, ModelError>(m)),
{
    let tail = tail_bytes(m);
    let n = m.routes.len() as int;
    let rows = route_bytes(m.routes).skip(1);
    let after = m.cls + (bank_of(m.neural) + name_bytes(m));
    assert(tail[256] == m.routes.len());
    assert(tail.take(256) =~= m.attr);
    let behind = tail.skip(257);
    assert(behind =~= rows + after);
    assert(behind.take(5 * n) =~= rows);
    assert forall|i: int| 0 <= i < n implies #[trigger] rows_of(rows)[i] == m.routes[i] by {}
    assert(rows_of(rows) =~= m.routes);
    let banks = behind.skip(5 * n);
    assert(banks =~= after);
    assert(banks.take(CLS_LEN as int) =~= m.cls);
    assert(banks.subrange(CLS_LEN as int, CLS_LEN + NEURAL_LEN) =~= bank_of(m.neural));
    assert(banks.skip((CLS_LEN + NEURAL_LEN) as int) =~= name_bytes(m));
    law_bank_roundtrip(m.neural);
    lemma_names_roundtrip(m);
}

proof fn lemma_le32(n: int, b: Seq<u8>, at: int)
    requires
        0 <= n < 0x1_0000_0000,
        0 <= at,
        at + 4 <= b.len(),
        b.subrange(at, at + 4) == le32(n),
    ensures
        le32_at(b, at) == n,
{
    assert forall|i: int| 0 <= i < 4 implies b[at + i] == #[trigger] le32(n)[i] by {
        assert(b.subrange(at, at + 4)[i] == b[at + i]);
    }
    assert(b[at + 0] == le32(n)[0]);
    assert(b[at + 1] == le32(n)[1]);
    assert(b[at + 2] == le32(n)[2]);
    assert(b[at + 3] == le32(n)[3]);
}

/// A storable model written to bytes reads back as the same model.
pub proof fn law_model_roundtrip(m: ModelView)
    requires
        storable(m),
    ensures
        parse_of(model_bytes(m)) == Some(Ok::<ModelView, ModelError>(m)),
{
    let bytes = model_bytes(m);
    let header = header_bytes(m);
    let table = vocab_bytes(m.words);
    let table_at = HEADER_LEN + TRI_LEN + BI_LEN;
    assert(header.len() == 32);
    assert forall|i: int| 0 <= i < 32 implies #[trigger] bytes[i] == header[i] by {}
    assert(bytes.take(4) =~= MAGIC@);
    assert(bytes.subrange(16, 20) =~= le32(m.tri.len() as int));
    assert(bytes.subrange(20, 24) =~= le32(m.bi.len() as int));
    assert(bytes.subrange(24, 28) =~= le32(table.len() as int));
    lemma_le32(m.tri.len() as int, bytes, 16);
    lemma_le32(m.bi.len() as int, bytes, 20);
    lemma_le32(table.len() as int, bytes, 24);
    assert(bytes.subrange(HEADER_LEN as int, HEADER_LEN + TRI_LEN) =~= m.tri);
    assert(bytes.subrange(HEADER_LEN + TRI_LEN, table_at) =~= m.bi);
    assert(bytes.subrange(table_at, table_at + table.len()) =~= table);
    assert(bytes.skip(table_at + table.len()) =~= tail_bytes(m));
    lemma_words_roundtrip(m.words, m.words.len() as int);
    assert(m.words.take(m.words.len() as int) =~= m.words);
    lemma_tail_roundtrip(bytes, m);
}

} // verus!
