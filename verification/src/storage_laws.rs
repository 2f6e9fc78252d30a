//! What stored models, networks, word tables and pattern memory look like, byte by
//! byte.

use vstd::prelude::*;
use vstd::utf8::encode_utf8;
use crate::font::{chr_byte, chr_of, GLYPHS, LLAMA, SELECTOR};
use crate::hash::hex_of;
use crate::model::{
    entries_at, entries_bytes, header_bytes, le32, le32_at, lemma_word_data_at, model_bytes,
    name_bytes, parse_of, parse_tail, qtype_entries, route_bytes, rows_of, storable, tail_bytes,
    topic_entries, word_at, words_at, Entry, ModelError, ModelView, MAGIC,
};
use crate::neural::{bank_byte, bank_of, layers_fit, network_of, NeuralView};
use crate::text::{ids_of, law_display_roundtrip, text_of};
use crate::vocab::{vocab_bytes, word_data, word_offset};

verus! {

// ---------------------------------------------------------------------------
// Networks
// ---------------------------------------------------------------------------

/// A byte that stores a signed number.
pub open spec fn stores(b: u8, x: i8) -> bool {
    b as int == x || b as int == x + 256
}

/// Two bytes, low and high, that store a signed number.
pub open spec fn stores_wide(lo: u8, hi: u8, x: i16) -> bool {
    lo + 256 * hi == x || lo + 256 * hi == x + 65536
}

/// The bank of a network: embeddings from $0000, hidden weights from $0800 and biases
/// from $0900, output biases from $0A00 and weights from $0C00, both shifts and the
/// vocabulary size from $1FF0; nothing else is set.
pub proof fn law_bank_layout(n: NeuralView, i: int)
    requires
        layers_fit(n),
        n.v <= 248,
        0 <= i < 8192,
    ensures
        ({
            let b = bank_of(n);
            &&& b.len() == 8192
            &&& i < 8 * n.v ==> stores(b[i], n.emb[i])
            &&& i < 256 ==> stores(b[0x0800 + i], n.w1[i])
            &&& i < 16 ==> stores_wide(b[0x0900 + 2 * i], b[0x0901 + 2 * i], n.b1[i])
            &&& i < n.v ==> stores_wide(b[0x0A00 + 2 * i], b[0x0A01 + 2 * i], n.b2[i])
            &&& i < 16 * n.v ==> stores(b[0x0C00 + i], n.w2[i])
            &&& b[0x1FF0] == n.sh_h && b[0x1FF1] == n.sh_out && b[0x1FF2] == n.v
            &&& 8 * n.v <= i < 0x0800 || 0x0920 <= i < 0x0A00 || 0x0A00 + 2 * n.v <= i < 0x0C00
                || 0x0C00 + 16 * n.v <= i < 0x1FF0 || i >= 0x1FF3 ==> b[i] == 0
        }),
{
    let b = bank_of(n);
    assert(b[i] == bank_byte(n, i));
    if i < 16 {
        assert((2 * i) / 2 == i && (2 * i + 1) / 2 == i);
        assert(b[0x0900 + 2 * i] == bank_byte(n, 0x0900 + 2 * i));
        assert(b[0x0901 + 2 * i] == bank_byte(n, 0x0901 + 2 * i));
    }
    if i < n.v {
        assert((2 * i) / 2 == i && (2 * i + 1) / 2 == i);
        assert(b[0x0A00 + 2 * i] == bank_byte(n, 0x0A00 + 2 * i));
        assert(b[0x0A01 + 2 * i] == bank_byte(n, 0x0A01 + 2 * i));
    }
    if i < 256 {
        assert(b[0x0800 + i] == bank_byte(n, 0x0800 + i));
    }
    if i < 16 * n.v {
        assert(b[0x0C00 + i] == bank_byte(n, 0x0C00 + i));
    }
}

/// The network in any bank: the numbers that its bytes store.
pub proof fn law_bank_read(b: Seq<u8>, v: int, i: int)
    requires
        b.len() == 8192,
        0 <= v <= 248,
        0 <= i,
    ensures
        ({
            let n = network_of(b, v);
            &&& layers_fit(n) && n.v == v
            &&& i < 8 * v ==> stores(b[i], n.emb[i])
            &&& i < 256 ==> stores(b[0x0800 + i], n.w1[i])
            &&& i < 16 ==> stores_wide(b[0x0900 + 2 * i], b[0x0901 + 2 * i], n.b1[i])
            &&& i < v ==> stores_wide(b[0x0A00 + 2 * i], b[0x0A01 + 2 * i], n.b2[i])
            &&& i < 16 * v ==> stores(b[0x0C00 + i], n.w2[i])
            &&& n.sh_h == b[0x1FF0] && n.sh_out == b[0x1FF1]
        }),
{
}

// ---------------------------------------------------------------------------
// Word tables
// ---------------------------------------------------------------------------

/// The word table: 248 low offset bytes, 248 high ones, then the words, each with its
/// length and its tiles at its offset, one behind the other. Ids without a word have
/// offset 0.
pub proof fn law_word_table(words: Seq<Seq<char>>, k: int)
    requires
        words.len() <= 248,
        forall|i: int|
            0 <= i < words.len() ==> crate::text::displayable(#[trigger] words[i]) && words[i].len()
                <= 255,
        word_data(words).len() <= 0x10000,
        0 <= k < 248,
    ensures
        ({
            let b = vocab_bytes(words);
            let off = b[k] + 256 * b[248 + k];
            &&& b.len() >= 496
            &&& k < words.len() ==> {
                &&& 496 + off + 1 + words[k].len() <= b.len()
                &&& b[496 + off] == words[k].len()
                &&& forall|j: int|
                    0 <= j < words[k].len() ==> #[trigger] b[496 + off + 1 + j] == ids_of(words[k])[j]
            }
            &&& k == 0 || k >= words.len() ==> off == 0
            &&& k + 1 < words.len() ==> b[k + 1] + 256 * b[248 + k + 1] == off + 1 + words[k].len()
            &&& k + 1 == words.len() ==> b.len() == 496 + off + 1 + words[k].len()
            &&& words.len() == 0 ==> b.len() == 496
        }),
{
    let b = vocab_bytes(words);
    let data = word_data(words);
    let off = b[k] + 256 * b[248 + k];
    lemma_offset(words, k);
    if k < words.len() {
        lemma_word_data_at(words, k);
        law_display_roundtrip(words[k]);
        let ids = ids_of(words[k]);
        let at = word_data(words.take(k)).len() as int;
        lemma_data_step(words, k);
        assert(at < data.len());
        assert(off == at);
        assert(b[496 + off] == data[off]);
        assert forall|j: int| 0 <= j < words[k].len() implies #[trigger] b[496 + off + 1 + j]
            == ids_of(words[k])[j] by {
            assert(b[496 + off + 1 + j] == data[off + 1 + j]);
            assert(data.subrange(off + 1, off + 1 + ids.len())[j] == ids[j]);
        }
        if k + 1 < words.len() {
            lemma_offset(words, k + 1);
            lemma_word_data_at(words, k + 1);
        } else {
            assert(words.take(k + 1) =~= words);
        }
        if k == 0 {
            assert(words.take(0) =~= Seq::<Seq<char>>::empty());
        }
    }
    if words.len() == 0 {
        assert(data.len() == 0);
    }
}

proof fn lemma_offset(words: Seq<Seq<char>>, k: int)
    requires
        0 <= k < 248,
        words.len() <= 248,
    ensures
        vocab_bytes(words)[k] + 256 * vocab_bytes(words)[248 + k] == word_offset(words, k),
        vocab_bytes(words).len() == 496 + word_data(words).len(),
        forall|i: int|
            0 <= i < word_data(words).len() ==> #[trigger] vocab_bytes(words)[496 + i] == word_data(
                words,
            )[i],
{
    let off = word_offset(words, k);
    assert(0 <= off < 0x10000);
    assert(off % 256 + 256 * (off / 256) == off);
}

proof fn lemma_data_step(words: Seq<Seq<char>>, k: int)
    requires
        0 <= k < words.len(),
    ensures
        word_data(words.take(k + 1)).len() == word_data(words.take(k)).len() + 1 + ids_of(
            words[k],
        ).len(),
{
    assert(words.take(k + 1).drop_last() =~= words.take(k));
    assert(words.take(k + 1).last() == words[k]);
}

// ---------------------------------------------------------------------------
// Model files
// ---------------------------------------------------------------------------

/// Two joined lists, item by item.
proof fn lemma_joined_at(x: Seq<u8>, y: Seq<u8>)
    ensures
        (x + y).len() == x.len() + y.len(),
        forall|i: int| 0 <= i < x.len() ==> #[trigger] (x + y)[i] == x[i],
        forall|i: int| 0 <= i < y.len() ==> (x + y)[x.len() + i] == #[trigger] y[i],
{
}

/// The header of a model file: mark, version, sizes and limits.
#[verifier::rlimit(60)]
pub proof fn law_model_header(m: ModelView)
    requires
        storable(m),
    ensures
        ({
            let b = model_bytes(m);
            &&& b.len() > 32
            &&& b[0] == 0x4E && b[1] == 0x4E && b[2] == 0x57 && b[3] == 0x35 && b[4] == 5
            &&& b[5] == m.vocab_size && b[6] == m.k && b[7] == 0 && b[8] == m.qmark_id
            &&& b[9] == 32 && b[10] == 6 && b[11] == m.emergency.0 && b[12] == m.emergency.1
            &&& b[13] == 0 && b[14] == 0 && b[15] == 0
            &&& b[16] + 256 * b[17] + 65536 * b[18] + 16777216 * b[19] == 1_015_808
            &&& b[20] + 256 * b[21] + 65536 * b[22] + 16777216 * b[23] == 3968
            &&& b[24] + 256 * b[25] + 65536 * b[26] + 16777216 * b[27] == vocab_bytes(m.words).len()
            &&& b[28] == 0 && b[29] == 0 && b[30] == 0 && b[31] == 0
        }),
{
    let b = model_bytes(m);
    let h = header_bytes(m);
    let wl = vocab_bytes(m.words).len() as int;
    lemma_offset(m.words, 0);
    assert(h.len() == 32);
    let rest = m.tri + (m.bi + (vocab_bytes(m.words) + tail_bytes(m)));
    assert(b == h + rest);
    assert(rest.len() > 0);
    assert forall|j: int| 0 <= j < 32 implies #[trigger] b[j] == h[j] by {}
    lemma_le32(1_015_808);
    lemma_le32(3968);
    lemma_le32(wl);
    assert(h[16] == le32(1_015_808)[0] && h[17] == le32(1_015_808)[1] && h[18] == le32(
        1_015_808,
    )[2] && h[19] == le32(1_015_808)[3]);
    assert(h[20] == le32(3968)[0] && h[21] == le32(3968)[1] && h[22] == le32(3968)[2] && h[23]
        == le32(3968)[3]);
    assert(h[24] == le32(wl)[0] && h[25] == le32(wl)[1] && h[26] == le32(wl)[2] && h[27] == le32(
        wl,
    )[3]);
}

/// Where the tables stand in a model file: trigrams, bigrams and words behind the
/// header.
#[verifier::rlimit(60)]
pub proof fn law_model_tables(m: ModelView, i: int)
    requires
        storable(m),
        0 <= i,
    ensures
        ({
            let b = model_bytes(m);
            let w = vocab_bytes(m.words);
            let t = tail_bytes(m);
            &&& b.len() == 32 + 1_015_808 + 3968 + w.len() + t.len()
            &&& i < 1_015_808 ==> b[32 + i] == m.tri[i]
            &&& i < 3968 ==> b[32 + 1_015_808 + i] == m.bi[i]
            &&& i < w.len() ==> b[32 + 1_015_808 + 3968 + i] == w[i]
            &&& i < t.len() ==> b[32 + 1_015_808 + 3968 + w.len() + i] == t[i]
        }),
{
    let h = header_bytes(m);
    let w = vocab_bytes(m.words);
    let t = tail_bytes(m);
    assert(h.len() == 32);
    lemma_joined_at(w, t);
    lemma_joined_at(m.bi, w + t);
    lemma_joined_at(m.tri, m.bi + (w + t));
    lemma_joined_at(h, m.tri + (m.bi + (w + t)));
    let p1 = w + t;
    let p2 = m.bi + p1;
    let p3 = m.tri + p2;
    let b = h + p3;
    if i < 1_015_808 {
        assert(p3[i] == m.tri[i]);
        assert(b[h.len() + i] == p3[i]);
    }
    if i < 3968 {
        assert(p2[i] == m.bi[i]);
        assert(p3[m.tri.len() + i] == p2[i]);
        assert(b[h.len() + (m.tri.len() + i)] == p3[m.tri.len() + i]);
    }
    if i < w.len() {
        assert(p1[i] == w[i]);
        assert(p2[m.bi.len() + i] == p1[i]);
        assert(p3[m.tri.len() + (m.bi.len() + i)] == p2[m.bi.len() + i]);
        assert(b[h.len() + (m.tri.len() + (m.bi.len() + i))] == p3[m.tri.len() + (m.bi.len() + i)]);
    }
    if i < t.len() {
        let j = w.len() + i;
        assert(p1[j] == t[i]);
        assert(p2[m.bi.len() + j] == p1[j]);
        assert(p3[m.tri.len() + (m.bi.len() + j)] == p2[m.bi.len() + j]);
        assert(b[h.len() + (m.tri.len() + (m.bi.len() + j))] == p3[m.tri.len() + (m.bi.len() + j)]);
    }
}

/// What stands behind the tables: attributes, the number of routes, five bytes per
/// route, the classifier bank, the network bank and the names.
#[verifier::rlimit(60)]
pub proof fn law_model_sections(m: ModelView, i: int)
    requires
        storable(m),
        0 <= i,
    ensures
        ({
            let t = tail_bytes(m);
            let c = 257 + 5 * m.routes.len() as int;
            &&& t.len() == c + 16384 + name_bytes(m).len()
            &&& i < 256 ==> t[i] == m.attr[i]
            &&& t[256] == m.routes.len()
            &&& i < m.routes.len() ==> t[257 + 5 * i] == m.routes[i].level && t[258 + 5 * i]
                == m.routes[i].qtype && t[259 + 5 * i] == m.routes[i].topic && t[260 + 5 * i]
                == m.routes[i].seed1 && t[261 + 5 * i] == m.routes[i].seed2
            &&& i < 8192 ==> t[c + i] == m.cls[i]
            &&& i < 8192 ==> t[c + 8192 + i] == bank_of(m.neural)[i]
            &&& i < name_bytes(m).len() ==> t[c + 16384 + i] == name_bytes(m)[i]
        }),
{
    let r = route_bytes(m.routes);
    let n = bank_of(m.neural);
    let names = name_bytes(m);
    assert(r.len() == 1 + 5 * m.routes.len());
    lemma_joined_at(n, names);
    lemma_joined_at(m.cls, n + names);
    lemma_joined_at(r, m.cls + (n + names));
    lemma_joined_at(m.attr, r + (m.cls + (n + names)));
    let p1 = n + names;
    let p2 = m.cls + p1;
    let p3 = r + p2;
    let t = m.attr + p3;
    assert(p3[0] == r[0]);
    assert(t[m.attr.len() as int] == p3[0]);
    if i < m.routes.len() {
        lemma_route_row(m.routes, i);
        let at = 1 + 5 * i;
        assert(p3[at] == r[at] && p3[at + 1] == r[at + 1] && p3[at + 2] == r[at + 2] && p3[at + 3]
            == r[at + 3] && p3[at + 4] == r[at + 4]);
        assert(t[m.attr.len() + at] == p3[at]);
        assert(t[m.attr.len() + (at + 1)] == p3[at + 1]);
        assert(t[m.attr.len() + (at + 2)] == p3[at + 2]);
        assert(t[m.attr.len() + (at + 3)] == p3[at + 3]);
        assert(t[m.attr.len() + (at + 4)] == p3[at + 4]);
    }
    if i < 8192 {
        assert(p2[i] == m.cls[i]);
        assert(p3[r.len() + i] == p2[i]);
        assert(t[m.attr.len() + (r.len() + i)] == p3[r.len() + i]);
        assert(p1[i] == n[i]);
        assert(p2[m.cls.len() + i] == p1[i]);
        assert(p3[r.len() + (m.cls.len() + i)] == p2[m.cls.len() + i]);
        assert(t[m.attr.len() + (r.len() + (m.cls.len() + i))] == p3[r.len() + (m.cls.len() + i)]);
    }
    if i < names.len() {
        let j = n.len() + i;
        assert(p1[j] == names[i]);
        assert(p2[m.cls.len() + j] == p1[j]);
        assert(p3[r.len() + (m.cls.len() + j)] == p2[m.cls.len() + j]);
        assert(t[m.attr.len() + (r.len() + (m.cls.len() + j))] == p3[r.len() + (m.cls.len() + j)]);
    }
}

/// The names: how many topics, their entries, how many question types, their entries.
pub proof fn law_model_names(m: ModelView)
    requires
        storable(m),
    ensures
        ({
            let b = name_bytes(m);
            let topics = entries_bytes(topic_entries(m));
            &&& b[0] == m.topic_names.len()
            &&& b.subrange(1, 1 + topics.len() as int) == topics
            &&& b[1 + topics.len() as int] == m.qtype_names.len()
            &&& b.skip(2 + topics.len() as int) == entries_bytes(qtype_entries(m))
        }),
{
    let b = name_bytes(m);
    let topics = entries_bytes(topic_entries(m));
    assert(b.subrange(1, 1 + topics.len() as int) =~= topics);
    assert(b.skip(2 + topics.len() as int) =~= entries_bytes(qtype_entries(m)));
}

proof fn lemma_le32(n: int)
    requires
        0 <= n < 0x1_0000_0000,
    ensures
        le32(n)[0] + 256 * le32(n)[1] + 65536 * le32(n)[2] + 16777216 * le32(n)[3] == n,
{
    assert(n / 256 / 256 == n / 65536 && n / 65536 / 256 == n / 16777216);
    assert(n / 16777216 < 256);
}

proof fn lemma_route_row(routes: Seq<crate::model::RouteRow>, i: int)
    requires
        0 <= i < routes.len(),
    ensures
        ({
            let r = route_bytes(routes);
            &&& r[1 + 5 * i] == routes[i].level
            &&& r[2 + 5 * i] == routes[i].qtype
            &&& r[3 + 5 * i] == routes[i].topic
            &&& r[4 + 5 * i] == routes[i].seed1
            &&& r[5 + 5 * i] == routes[i].seed2
        }),
{
    assert((5 * i) / 5 == i && (5 * i + 1) / 5 == i && (5 * i + 2) / 5 == i && (5 * i + 3) / 5 == i
        && (5 * i + 4) / 5 == i);
    assert((5 * i) % 5 == 0 && (5 * i + 1) % 5 == 1 && (5 * i + 2) % 5 == 2 && (5 * i + 3) % 5 == 3
        && (5 * i + 4) % 5 == 4);
}

/// Names are stored one behind the other, each with its length before it; bit 7 of
/// the length flags a technical topic.
pub proof fn law_names_stored(list: Seq<Entry>, e: Entry, k: int)
    requires
        e.bytes.len() < 128,
        0 <= k < e.bytes.len(),
    ensures
        ({
            let before = entries_bytes(list);
            let after = entries_bytes(list.push(e));
            &&& after.len() == before.len() + 1 + e.bytes.len()
            &&& after.take(before.len() as int) == before
            &&& after[before.len() as int] == e.bytes.len() + (if e.flag {
                128int
            } else {
                0int
            })
            &&& after[before.len() + 1 + k] == e.bytes[k]
        }),
        entries_bytes(seq![]).len() == 0,
{
    let all = list.push(e);
    assert(all.drop_last() =~= list);
    assert(entries_bytes(all).take(entries_bytes(list).len() as int) =~= entries_bytes(list));
}

/// The names of a model as entries.
pub proof fn law_name_entries(m: ModelView, i: int)
    requires
        m.topic_names.len() == m.topic_tech.len(),
    ensures
        topic_entries(m).len() == m.topic_names.len(),
        qtype_entries(m).len() == m.qtype_names.len(),
        0 <= i < m.topic_names.len() ==> topic_entries(m)[i].bytes == encode_utf8(m.topic_names[i])
            && topic_entries(m)[i].flag == m.topic_tech[i],
        0 <= i < m.qtype_names.len() ==> qtype_entries(m)[i].bytes == encode_utf8(m.qtype_names[i])
            && !qtype_entries(m)[i].flag,
{
}

/// When a file is no model: with no more than 32 bytes, with another mark or version,
/// or with tables of another size, in that order.
pub proof fn law_model_refused(b: Seq<u8>)
    ensures
        ({
            let marked = b[0] == 0x4E && b[1] == 0x4E && b[2] == 0x57 && b[3] == 0x35;
            let tri = b[16] + 256 * b[17] + 65536 * b[18] + 16777216 * b[19];
            let bi = b[20] + 256 * b[21] + 65536 * b[22] + 16777216 * b[23];
            let sized = tri == 1_015_808 && bi == 3968;
            &&& b.len() <= 32 <==> parse_of(b) == Some(Err::<ModelView, ModelError>(ModelError::TooShort))
            &&& b.len() > 32 && !marked <==> parse_of(b) == Some(
                Err::<ModelView, ModelError>(ModelError::BadMagic),
            )
            &&& b.len() > 32 && marked && b[4] != 5 <==> parse_of(b) == Some(
                Err::<ModelView, ModelError>(ModelError::BadVersion),
            )
            &&& b.len() > 32 && marked && b[4] == 5 && !sized <==> parse_of(b) == Some(
                Err::<ModelView, ModelError>(ModelError::TableSize),
            )
        }),
{
    if b.len() > 32 {
        lemma_magic(b);
        lemma_parse_end(b);
    }
}

proof fn lemma_magic(b: Seq<u8>)
    requires
        b.len() > 32,
    ensures
        b.take(4) == MAGIC@ <==> b[0] == 0x4E && b[1] == 0x4E && b[2] == 0x57 && b[3] == 0x35,
{
    let t = b.take(4);
    assert(t[0] == b[0] && t[1] == b[1] && t[2] == b[2] && t[3] == b[3]);
    if b[0] == 0x4E && b[1] == 0x4E && b[2] == 0x57 && b[3] == 0x35 {
        assert(t =~= MAGIC@);
    }
}

/// What is behind the tables is missing or is a model.
proof fn lemma_parse_end(b: Seq<u8>)
    ensures
        forall|words: Seq<Seq<char>>, tail: Seq<u8>|
            #[trigger] parse_tail(b, words, tail) matches Some(Err(e)) ==> e
                == ModelError::MissingSections,
{
}

/// What a file says that is a model: each part of the model from its place.
#[verifier::rlimit(60)]
pub proof fn law_model_read(b: Seq<u8>, m: ModelView, i: int)
    requires
        parse_of(b) == Some(Ok::<ModelView, ModelError>(m)),
        0 <= i,
    ensures
        ({
            let w = b[24] + 256 * b[25] + 65536 * b[26] + 16777216 * b[27];
            let tail = 32 + 1_015_808 + 3968 + w;
            let n = b[tail + 256] as int;
            let banks = tail + 257 + 5 * n;
            &&& b.len() >= banks + 16384
            &&& m.vocab_size == b[5] && m.k == b[6] && m.qmark_id == b[8] && m.emergency.0 == b[11]
                && m.emergency.1 == b[12]
            &&& m.tri.len() == 1_015_808 && m.bi.len() == 3968 && m.attr.len() == 256 && m.cls.len()
                == 8192
            &&& i < 1_015_808 ==> m.tri[i] == b[32 + i]
            &&& i < 3968 ==> m.bi[i] == b[32 + 1_015_808 + i]
            &&& i < 256 ==> m.attr[i] == b[tail + i]
            &&& m.routes.len() == n
            &&& i < n ==> m.routes[i].level == b[tail + 257 + 5 * i] && m.routes[i].qtype == b[tail
                + 258 + 5 * i] && m.routes[i].topic == b[tail + 259 + 5 * i] && m.routes[i].seed1
                == b[tail + 260 + 5 * i] && m.routes[i].seed2 == b[tail + 261 + 5 * i]
            &&& i < 8192 ==> m.cls[i] == b[banks + i]
            &&& m.neural == network_of(b.subrange(banks + 8192, banks + 16384), b[5] as int)
            &&& m.words.len() == b[5]
            &&& m.topic_names.len() == m.topic_tech.len() && m.topic_names.len() == b[banks + 16384]
        }),
{
    let w = le32_at(b, 24);
    let at: int = 1_019_808;
    let table = b.subrange(at, at + w);
    let tail = b.skip(at + w);
    let words = words_at(table, b[5] as int)->Some_0;
    lemma_words_count(table, b[5] as int);
    assert(parse_tail(b, words, tail) == Some(Ok::<ModelView, ModelError>(m)));
    let n = tail[256] as int;
    let behind = tail.skip(257);
    let banks = behind.skip(5 * n);
    let names = banks.skip(16384);
    assert(tail[256] == b[at + w + 256]);
    assert(m.routes == rows_of(behind.take(5 * n)));
    let net = banks.subrange(8192, 16384);
    let p = at + w + 257 + 5 * n;
    assert(net =~= b.subrange(p + 8192, p + 16384));
    lemma_entries_count(names.skip(1), names[0] as int, true);
    if i < n {
        let rows = behind.take(5 * n);
        assert(rows[i * 5] == b[at + w + 257 + 5 * i]);
        assert(rows[i * 5 + 1] == b[at + w + 258 + 5 * i]);
        assert(rows[i * 5 + 2] == b[at + w + 259 + 5 * i]);
        assert(rows[i * 5 + 3] == b[at + w + 260 + 5 * i]);
        assert(rows[i * 5 + 4] == b[at + w + 261 + 5 * i]);
    }
}

proof fn lemma_words_count(table: Seq<u8>, n: int)
    requires
        n >= 0,
    ensures
        words_at(table, n) matches Some(words) ==> words.len() == n,
    decreases n,
{
    if n > 0 {
        lemma_words_count(table, n - 1);
    }
}

proof fn lemma_entries_count(b: Seq<u8>, n: int, flagged: bool)
    requires
        n >= 0,
    ensures
        entries_at(b, n, flagged) matches Some((list, _)) ==> list.len() == n,
    decreases n,
{
    if n > 0 {
        lemma_entries_count(b, n - 1, flagged);
    }
}

/// Word `k` of a word table: the text of the tiles at its offset, as many as the
/// length there says.
pub proof fn law_word_read(table: Seq<u8>, n: int, k: int)
    requires
        0 <= k < n <= 248,
        words_at(table, n) is Some,
    ensures
        ({
            let off = table[k] + 256 * table[248 + k];
            let len = table[496 + off] as int;
            &&& 496 + off + 1 + len <= table.len()
            &&& words_at(table, n)->Some_0.len() == n
            &&& words_at(table, n)->Some_0[k] == text_of(
                table.subrange(496 + off + 1, 496 + off + 1 + len),
            )
        }),
    decreases n,
{
    lemma_words_count(table, n);
    if k < n - 1 {
        law_word_read(table, n - 1, k);
    } else {
        let off = table[k] + 256 * table[248 + k];
        let data = table.skip(496);
        let len = data[off] as int;
        assert(word_at(table, k) is Some);
        assert(data[off] == table[496 + off]);
        assert(data.subrange(off + 1, off + 1 + len) =~= table.subrange(
            496 + off + 1,
            496 + off + 1 + len,
        ));
    }
}

/// A word table can be read where it has both rows of offsets and every word lies
/// within it.
pub proof fn law_words_readable(table: Seq<u8>, n: int)
    requires
        0 <= n <= 248,
    ensures
        words_at(table, n) is Some <==> table.len() >= 496 && forall|k: int|
            0 <= k < n ==> word_lies_within(table, #[trigger] table[k], k),
    decreases n,
{
    if n > 0 {
        law_words_readable(table, n - 1);
        let data = table.skip(496);
        let k = n - 1;
        if table.len() >= 496 {
            let off = table[k] + 256 * table[248 + k];
            if off < data.len() {
                assert(data[off] == table[496 + off]);
            }
            assert(word_at(table, k) is Some <==> word_lies_within(table, table[k], k));
        }
    }
}

/// Word `k`, whose low offset byte is `lo`, lies within the table.
pub open spec fn word_lies_within(table: Seq<u8>, lo: u8, k: int) -> bool {
    let at = 496 + lo + 256 * table[248 + k];
    at < table.len() && at + 1 + table[at] <= table.len()
}

/// Where stored names start: each behind the one before, its length byte first.
pub open spec fn names_lie(b: Seq<u8>, n: int, flagged: bool, starts: Seq<int>) -> bool {
    &&& starts.len() == n + 1
    &&& starts[0] == 0
    &&& forall|i: int, j: int|
        0 <= i && j == i + 1 && j <= n ==> name_lies(
            b,
            flagged,
            #[trigger] starts[i],
            #[trigger] starts[j],
        )
}

/// A name from its length byte to the next name.
pub open spec fn name_lies(b: Seq<u8>, flagged: bool, from: int, to: int) -> bool {
    &&& 0 <= from < b.len()
    &&& to <= b.len()
    &&& to == from + 1 + (if flagged && b[from] >= 128 {
        b[from] - 128
    } else {
        b[from] as int
    })
}

/// The names that bytes hold: of each the bytes behind its length, and the flag.
pub open spec fn names_are(b: Seq<u8>, flagged: bool, starts: Seq<int>, list: Seq<Entry>) -> bool {
    &&& list.len() == starts.len() - 1
    &&& forall|i: int|
        0 <= i < list.len() ==> (#[trigger] list[i]).bytes == b.subrange(
            starts[i] + 1,
            starts[i + 1],
        ) && list[i].flag == (flagged && b[starts[i]] >= 128)
}

/// Stored names are read one behind the other, and can be read where all of them lie
/// within the bytes.
pub proof fn law_names_read(b: Seq<u8>, n: int, flagged: bool)
    requires
        n >= 0,
    ensures
        entries_at(b, n, flagged) is Some <==> exists|starts: Seq<int>| #[trigger]
            names_lie(b, n, flagged, starts),
        forall|starts: Seq<int>| #[trigger]
            names_lie(b, n, flagged, starts) ==> (entries_at(b, n, flagged) matches Some((list, end))
                && names_are(b, flagged, starts, list) && end == starts[n]),
    decreases n,
{
    if n == 0 {
        let starts: Seq<int> = seq![0int];
        assert(names_lie(b, 0, flagged, starts));
    } else {
        law_names_read(b, n - 1, flagged);
        assert forall|starts: Seq<int>| #[trigger] names_lie(b, n, flagged, starts) implies (
        entries_at(b, n, flagged) matches Some((list, end)) && names_are(b, flagged, starts, list)
            && end == starts[n]) by {
            let front = starts.drop_last();
            assert(names_lie(b, n - 1, flagged, front)) by {
                assert forall|i: int, j: int| 0 <= i && j == i + 1 && j <= n - 1 implies name_lies(
                    b,
                    flagged,
                    #[trigger] front[i],
                    #[trigger] front[j],
                ) by {
                    assert(front[i] == starts[i] && front[j] == starts[j]);
                }
            }
            let (list0, end0) = entries_at(b, n - 1, flagged)->Some_0;
            assert(end0 == starts[n - 1]);
            assert(name_lies(b, flagged, starts[n - 1], starts[n]));
            let (list, end) = entries_at(b, n, flagged)->Some_0;
            assert forall|i: int| 0 <= i < list.len() implies (#[trigger] list[i]).bytes
                == b.subrange(starts[i] + 1, starts[i + 1]) && list[i].flag == (flagged
                && b[starts[i]] >= 128) by {
                if i < list0.len() {
                    assert(list[i] == list0[i]);
                    assert(front[i] == starts[i] && front[i + 1] == starts[i + 1]);
                }
            }
        }
        if entries_at(b, n, flagged) is Some {
            let front = choose|starts: Seq<int>| #[trigger] names_lie(b, n - 1, flagged, starts);
            let (list0, end0) = entries_at(b, n - 1, flagged)->Some_0;
            let (list, end) = entries_at(b, n, flagged)->Some_0;
            let starts = front.push(end);
            lemma_entries_end(b, n - 1, flagged);
            assert forall|i: int, j: int| 0 <= i && j == i + 1 && j <= n implies name_lies(
                b,
                flagged,
                #[trigger] starts[i],
                #[trigger] starts[j],
            ) by {
                if j < n {
                    assert(starts[i] == front[i] && starts[j] == front[j]);
                } else {
                    assert(starts[i] == front[n - 1] && end0 == front[n - 1]);
                }
            }
            assert(names_lie(b, n, flagged, starts));
        }
    }
}

/// A file of a model is cut short in its tables, lacks the sections behind them, is
/// cut short in these, or is a model: it takes the attributes, five bytes for each
/// route, two banks and both lists of names.
pub proof fn law_model_accepted(b: Seq<u8>)
    requires
        b.len() > 32,
        b[0] == 0x4E && b[1] == 0x4E && b[2] == 0x57 && b[3] == 0x35 && b[4] == 5,
        b[16] + 256 * b[17] + 65536 * b[18] + 16777216 * b[19] == 1_015_808,
        b[20] + 256 * b[21] + 65536 * b[22] + 16777216 * b[23] == 3968,
    ensures
        ({
            let w = b[24] + 256 * b[25] + 65536 * b[26] + 16777216 * b[27];
            let tail = 32 + 1_015_808 + 3968 + w;
            let table = b.subrange(1_019_808, tail);
            let readable = b.len() >= tail && words_at(table, b[5] as int) is Some;
            let names = tail + 257 + 5 * b[tail + 256] + 16384;
            &&& !readable ==> parse_of(b) is None
            &&& readable && b.len() < tail + 257 ==> parse_of(b) == Some(
                Err::<ModelView, ModelError>(ModelError::MissingSections),
            )
            &&& readable && tail + 257 <= b.len() <= names ==> parse_of(b) is None
            &&& readable && b.len() > names ==> (parse_of(b) is Some <==> ({
                let topics = entries_at(b.skip(names + 1), b[names] as int, true);
                let at = names + 1 + topics->Some_0.1;
                topics is Some && at < b.len() && entries_at(
                    b.skip(at + 1),
                    b[at] as int,
                    false,
                ) is Some
            }))
            &&& readable && b.len() >= tail + 257 ==> (parse_of(b) is Some ==> parse_of(b)->Some_0 is Ok)
        }),
{
    lemma_magic(b);
    let w = le32_at(b, 24);
    let at: int = 1_019_808;
    let table = b.subrange(at, at + w);
    let t = b.skip(at + w);
    if b.len() >= at + w && words_at(table, b[5] as int) is Some {
        let words = words_at(table, b[5] as int)->Some_0;
        assert(parse_of(b) == parse_tail(b, words, t));
        if b.len() >= at + w + 257 {
            assert(t[256] == b[at + w + 256]);
            let n = t[256] as int;
            let behind = t.skip(257);
            let banks = behind.skip(5 * n);
            let names = banks.skip(16384);
            let p = at + w + 257 + 5 * n + 16384;
            if b.len() > p {
                assert(names =~= b.skip(p));
                assert(names[0] == b[p]);
                assert(names.skip(1) =~= b.skip(p + 1));
                if let Some((list, end)) = entries_at(names.skip(1), names[0] as int, true) {
                    lemma_entries_end(names.skip(1), names[0] as int, true);
                    let second = names.skip(end + 1);
                    assert(second =~= b.skip(p + 1 + end));
                    if p + 1 + end < b.len() {
                        assert(second[0] == b[p + 1 + end]);
                        assert(second.skip(1) =~= b.skip(p + 1 + end + 1));
                    }
                }
            }
        }
    }
}

proof fn lemma_entries_end(b: Seq<u8>, n: int, flagged: bool)
    requires
        n >= 0,
    ensures
        entries_at(b, n, flagged) matches Some((_, end)) ==> 0 <= end <= b.len(),
    decreases n,
{
    if n > 0 {
        lemma_entries_end(b, n - 1, flagged);
    }
}

// ---------------------------------------------------------------------------
// Digests and pattern memory
// ---------------------------------------------------------------------------

/// The number that a hex digit stands for, -1 for another character.
pub open spec fn digit_value(c: char) -> int {
    if 48 <= c as int <= 57 {
        c as int - 48
    } else if 97 <= c as int <= 102 {
        c as int - 87
    } else {
        -1
    }
}

/// Bytes can be read back from their hex digits.
pub proof fn law_hex_reads_back(bytes: Seq<u8>, i: int)
    requires
        0 <= i < bytes.len(),
    ensures
        hex_of(bytes).len() == 2 * bytes.len(),
        0 <= digit_value(hex_of(bytes)[2 * i]) < 16,
        0 <= digit_value(hex_of(bytes)[2 * i + 1]) < 16,
        16 * digit_value(hex_of(bytes)[2 * i]) + digit_value(hex_of(bytes)[2 * i + 1]) == bytes[i],
{
    assert((2 * i) / 2 == i && (2 * i + 1) / 2 == i);
    assert((2 * i) % 2 == 0 && (2 * i + 1) % 2 == 1);
}

/// A tile takes 16 bytes, and only the first eight can be set: seven rows of a glyph,
/// with two free columns to the right and one to the left; eight rows of the block
/// and of the llama, three by three tiles.
pub proof fn law_tiles(t: int, r: int)
    requires
        0 <= t < 512,
        0 <= r < 16,
    ensures
        ({
            let b = chr_of()[16 * t + r];
            &&& chr_of().len() == 8192
            &&& r >= 8 ==> b == 0
            &&& t < 43 && r < 7 ==> b == 4 * GLYPHS@[t]@[r]
            &&& t < 43 && r == 7 ==> b == 0
            &&& t == 62 && r < 7 ==> b == 4 * SELECTOR@[r]
            &&& t == 62 && r == 7 ==> b == 0
            &&& t == 63 && r < 8 ==> b == 0xFF
            &&& 48 <= t < 57 && r < 8 ==> b == LLAMA@[8 * ((t - 48) / 3) + r]@[(t - 48) % 3]
            &&& 43 <= t < 48 || 57 <= t < 62 || t >= 64 ==> b == 0
        }),
{
    let i = 16 * t + r;
    assert(i / 16 == t && i % 16 == r);
    assert(chr_of()[i] == chr_byte(i));
    if t < 43 && r < 7 {
        crate::font::lemma_glyph_rows(t, r);
    }
    if r < 7 {
        assert(r == 0 || r == 1 || r == 2 || r == 3 || r == 4 || r == 5 || r == 6);
        assert(SELECTOR@[r] < 32);
    }
}

/// The seven rows of a glyph as one number, five bits a row, the top row first.
pub open spec fn packed(g: Seq<u8>) -> int {
    ((((((g[0] * 32 + g[1]) * 32 + g[2]) * 32 + g[3]) * 32 + g[4]) * 32 + g[5]) * 32 + g[6])
}

/// The shapes of the glyphs: blank, letters, digits, marks, and the selector.
pub proof fn law_glyph_shapes()
    ensures
        packed(GLYPHS@[0]@) == 0x0,
        packed(GLYPHS@[1]@) == 0x3a31fc631,
        packed(GLYPHS@[2]@) == 0x7a31f463e,
        packed(GLYPHS@[3]@) == 0x3a308422e,
        packed(GLYPHS@[4]@) == 0x72518c65c,
        packed(GLYPHS@[5]@) == 0x7e10f421f,
        packed(GLYPHS@[6]@) == 0x7e10f4210,
        packed(GLYPHS@[7]@) == 0x3a30bc62f,
        packed(GLYPHS@[8]@) == 0x4631fc631,
        packed(GLYPHS@[9]@) == 0x38842108e,
        packed(GLYPHS@[10]@) == 0x1c4210a4c,
        packed(GLYPHS@[11]@) == 0x4654c5251,
        packed(GLYPHS@[12]@) == 0x42108421f,
        packed(GLYPHS@[13]@) == 0x4775ac631,
        packed(GLYPHS@[14]@) == 0x47359c631,
        packed(GLYPHS@[15]@) == 0x3a318c62e,
        packed(GLYPHS@[16]@) == 0x7a31f4210,
        packed(GLYPHS@[17]@) == 0x3a318d64d,
        packed(GLYPHS@[18]@) == 0x7a31f5251,
        packed(GLYPHS@[19]@) == 0x3e107043e,
        packed(GLYPHS@[20]@) == 0x7c8421084,
        packed(GLYPHS@[21]@) == 0x46318c62e,
        packed(GLYPHS@[22]@) == 0x46318c544,
        packed(GLYPHS@[23]@) == 0x4631ad771,
        packed(GLYPHS@[24]@) == 0x462a22a31,
        packed(GLYPHS@[25]@) == 0x462a21084,
        packed(GLYPHS@[26]@) == 0x7c222221f,
        packed(GLYPHS@[27]@) == 0x3a33ae62e,
        packed(GLYPHS@[28]@) == 0x11842108e,
        packed(GLYPHS@[29]@) == 0x3a211111f,
        packed(GLYPHS@[30]@) == 0x7c441062e,
        packed(GLYPHS@[31]@) == 0x8ca97c42,
        packed(GLYPHS@[32]@) == 0x7e1e0862e,
        packed(GLYPHS@[33]@) == 0x1910f462e,
        packed(GLYPHS@[34]@) == 0x7c2222108,
        packed(GLYPHS@[35]@) == 0x3a317462e,
        packed(GLYPHS@[36]@) == 0x3a317844c,
        packed(GLYPHS@[37]@) == 0x18c,
        packed(GLYPHS@[38]@) == 0x3088,
        packed(GLYPHS@[39]@) == 0x308800000,
        packed(GLYPHS@[40]@) == 0xf8000,
        packed(GLYPHS@[41]@) == 0x108421004,
        packed(GLYPHS@[42]@) == 0x3a2111004,
        packed(SELECTOR@) == 0x208208888,
{
}

/// The shape of the llama: 24 rows of 24 pixels.
pub proof fn law_llama_shape()
    ensures
        LLAMA@[0]@[0] * 65536 + LLAMA@[0]@[1] * 256 + LLAMA@[0]@[2] == 0x300000,
        LLAMA@[1]@[0] * 65536 + LLAMA@[1]@[1] * 256 + LLAMA@[1]@[2] == 0x740000,
        LLAMA@[2]@[0] * 65536 + LLAMA@[2]@[1] * 256 + LLAMA@[2]@[2] == 0x7c0000,
        LLAMA@[3]@[0] * 65536 + LLAMA@[3]@[1] * 256 + LLAMA@[3]@[2] == 0x3c0000,
        LLAMA@[4]@[0] * 65536 + LLAMA@[4]@[1] * 256 + LLAMA@[4]@[2] == 0x380000,
        LLAMA@[5]@[0] * 65536 + LLAMA@[5]@[1] * 256 + LLAMA@[5]@[2] == 0x380000,
        LLAMA@[6]@[0] * 65536 + LLAMA@[6]@[1] * 256 + LLAMA@[6]@[2] == 0x380000,
        LLAMA@[7]@[0] * 65536 + LLAMA@[7]@[1] * 256 + LLAMA@[7]@[2] == 0x380000,
        LLAMA@[8]@[0] * 65536 + LLAMA@[8]@[1] * 256 + LLAMA@[8]@[2] == 0x380001,
        LLAMA@[9]@[0] * 65536 + LLAMA@[9]@[1] * 256 + LLAMA@[9]@[2] == 0x3ffffd,
        LLAMA@[10]@[0] * 65536 + LLAMA@[10]@[1] * 256 + LLAMA@[10]@[2] == 0x3fffff,
        LLAMA@[11]@[0] * 65536 + LLAMA@[11]@[1] * 256 + LLAMA@[11]@[2] == 0x7fffff,
        LLAMA@[12]@[0] * 65536 + LLAMA@[12]@[1] * 256 + LLAMA@[12]@[2] == 0x7fffff,
        LLAMA@[13]@[0] * 65536 + LLAMA@[13]@[1] * 256 + LLAMA@[13]@[2] == 0x7fffff,
        LLAMA@[14]@[0] * 65536 + LLAMA@[14]@[1] * 256 + LLAMA@[14]@[2] == 0x7fffff,
        LLAMA@[15]@[0] * 65536 + LLAMA@[15]@[1] * 256 + LLAMA@[15]@[2] == 0x7ffffe,
        LLAMA@[16]@[0] * 65536 + LLAMA@[16]@[1] * 256 + LLAMA@[16]@[2] == 0x39c0e7,
        LLAMA@[17]@[0] * 65536 + LLAMA@[17]@[1] * 256 + LLAMA@[17]@[2] == 0x39c0e7,
        LLAMA@[18]@[0] * 65536 + LLAMA@[18]@[1] * 256 + LLAMA@[18]@[2] == 0x39c0e7,
        LLAMA@[19]@[0] * 65536 + LLAMA@[19]@[1] * 256 + LLAMA@[19]@[2] == 0x39c0e7,
        LLAMA@[20]@[0] * 65536 + LLAMA@[20]@[1] * 256 + LLAMA@[20]@[2] == 0x39c0e7,
        LLAMA@[21]@[0] * 65536 + LLAMA@[21]@[1] * 256 + LLAMA@[21]@[2] == 0x30c0c6,
        LLAMA@[22]@[0] * 65536 + LLAMA@[22]@[1] * 256 + LLAMA@[22]@[2] == 0x000000,
        LLAMA@[23]@[0] * 65536 + LLAMA@[23]@[1] * 256 + LLAMA@[23]@[2] == 0x000000,
{
}

} // verus!
