//! Building the model from a corpus, a route file and a topic file: everything
//! but the network, which is trained on the examples of the plan and added last.

use vstd::prelude::*;
use vstd::utf8::{encode_utf8, is_ascii_chars, is_ascii_chars_encode_utf8};
use crate::classifier::{
    classifier_bank, cls_byte, cls_of, lemma_group_bytes, qtype_list, qtype_words, BankInput,
};
use crate::corpus::{
    bi_contexts, bi_counts, bi_table, bigram_table, collect_vocabulary, ids_of_tokens,
    is_vocabulary, lemma_bi_record, lemma_ids_countable, lemma_token_ids, lemma_tri_record,
    lemma_vocabulary_grows,
    marks_of, punctuation_marks, token_ids, tri_contexts, tri_counts, tri_table, trigram_table,
    triples_of, vocabulary,
};
use crate::lines::lines_of;
use crate::model::{
    bi_rec_of, law_model_roundtrip, model_bytes, parse_of, storable, tri_rec_of, Model, ModelError,
    ModelView, RouteRow, ATTR_QTYPE, ATTR_TOPIC, CLS_QGROUP, CLS_TGROUP, MIN_ANSWER_WORDS, NO_WORD,
    R_EMERGENCY, TOP_K, WORD_BUDGET,
};
use crate::neural::{context_ok, contexts_ok, neural_sound, NeuralInt, NeuralView};
use crate::pipeline::{
    answer_from, answer_of, first_with, last_with, law_always_answers, law_answer_shape,
    lemma_first_row_before, model_sound, seed_ok,
};
use crate::records::{countable, record_of};
use crate::routes::{
    all_rows, attr_of, attributes, fault_of, field_id, law_routes_ordered, read_routes, read_topics,
    route_lines, routes_of, topic_lines, topics_of, BuildError, Fault, TopicState,
};
use crate::sentences::{examples_of, training_examples};
use crate::text::{
    chars_of, displayable, is_mark, is_word_char, law_display_roundtrip, lemma_alphabet, lemma_run_end,
    run_end, same_text, split_words, texts, tile_char, tokens_from, uppered, words_of, VOCAB,
};
use crate::vocab::{
    is_single, joined, known_ids, law_words_roundtrip, lemma_word_id_place, sorted, word_data,
    word_id, WordVocab, MAX_WORDS, MAX_WORD_LEN,
};

verus! {

// ---------------------------------------------------------------------------
// The plan
// ---------------------------------------------------------------------------

/// A model without its network, the examples to train the network on, and the
/// numbers of trigram and bigram contexts.
pub struct ModelPlan {
    pub vocab: WordVocab,
    pub qmark_id: u8,
    pub emergency: (u8, u8),
    pub tri: Vec<u8>,
    pub bi: Vec<u8>,
    pub attr: [u8; 256],
    pub routes: Vec<RouteRow>,
    pub cls: Vec<u8>,
    pub topic_names: Vec<String>,
    pub topic_tech: Vec<bool>,
    pub qtype_names: Vec<String>,
    pub examples: Vec<(u8, u8, u8)>,
    pub n_tri: usize,
    pub n_bi: usize,
}

/// The plan as contracts see it.
#[verifier::ext_equal]
pub struct PlanView {
    pub words: Seq<Seq<char>>,
    pub qmark_id: u8,
    pub emergency: (u8, u8),
    pub tri: Seq<u8>,
    pub bi: Seq<u8>,
    pub attr: Seq<u8>,
    pub routes: Seq<RouteRow>,
    pub cls: Seq<u8>,
    pub topic_names: Seq<Seq<char>>,
    pub topic_tech: Seq<bool>,
    pub qtype_names: Seq<Seq<char>>,
    pub examples: Seq<(u8, u8, u8)>,
    pub n_tri: int,
    pub n_bi: int,
}

impl View for ModelPlan {
    type V = PlanView;

    open spec fn view(&self) -> PlanView {
        PlanView {
            words: self.vocab@,
            qmark_id: self.qmark_id,
            emergency: self.emergency,
            tri: self.tri@,
            bi: self.bi@,
            attr: self.attr@,
            routes: self.routes@,
            cls: self.cls@,
            topic_names: texts(self.topic_names@),
            topic_tech: self.topic_tech@,
            qtype_names: texts(self.qtype_names@),
            examples: self.examples@,
            n_tri: self.n_tri as int,
            n_bi: self.n_bi as int,
        }
    }
}

/// The first of the first `n` words that the display has no room for.
pub open spec fn first_long(words: Seq<Seq<char>>, n: int) -> Option<Seq<char>>
    decreases n,
{
    if n <= 0 {
        None
    } else {
        match first_long(words, n - 1) {
            Some(w) => Some(w),
            None => if words[n - 1].len() > MAX_WORD_LEN {
                Some(words[n - 1])
            } else {
                None
            },
        }
    }
}

/// What is wrong with a corpus of these tokens.
pub open spec fn corpus_fault(toks: Seq<Seq<char>>) -> Option<Fault<Seq<char>>> {
    let words = vocabulary(toks);
    if toks.len() < 3 {
        Some(Fault::CorpusTooSmall)
    } else if words.len() > MAX_WORDS {
        Some(Fault::TooManyWords(words.len() as usize))
    } else if first_long(words, words.len() as int) is Some {
        Some(Fault::WordTooLong(first_long(words, words.len() as int)->Some_0))
    } else if !toks.contains("?"@) {
        Some(Fault::NoQuestionMark)
    } else if !toks.drop_last().contains(toks.last()) {
        Some(Fault::NoSuccessor(toks.last()))
    } else {
        None
    }
}

/// The plan of a corpus without faults, given the routes and the topics.
pub open spec fn assembled(
    toks: Seq<Seq<char>>,
    routes: Seq<RouteRow>,
    emergency: (u8, u8),
    topics: TopicState,
) -> PlanView {
    let words = vocabulary(toks);
    let ids = token_ids(words, toks);
    let marks = marks_of(words);
    let qmark = word_id(words, "?"@)->Some_0;
    PlanView {
        words,
        qmark_id: qmark,
        emergency,
        tri: tri_table(ids, marks),
        bi: bi_table(ids, marks),
        attr: attr_of(routes),
        routes,
        cls: cls_of(BankInput { words, ids, qmark, topics }),
        topic_names: topics.names,
        topic_tech: topics.tech,
        qtype_names: qtype_words(),
        examples: examples_of(ids),
        n_tri: tri_contexts(ids).to_set().len() as int,
        n_bi: bi_contexts(ids).to_set().len() as int,
    }
}

/// The plan, or the first fault: of the corpus, of the route file, of the topic
/// file, or an emergency seed that is not a context of the corpus.
pub open spec fn plan_of(corpus: Seq<char>, routes_src: Seq<char>, topics_src: Seq<char>) -> Result<
    PlanView,
    Fault<Seq<char>>,
> {
    let toks = words_of(corpus);
    let words = vocabulary(toks);
    match corpus_fault(toks) {
        Some(f) => Err(f),
        None => match routes_of(words, routes_src) {
            Err(f) => Err(f),
            Ok((rows, emergency)) => match topics_of(words, topics_src) {
                Err(f) => Err(f),
                Ok(topics) => if !tri_contexts(token_ids(words, toks)).contains(emergency) {
                    Err(Fault::EmergencyMiss)
                } else {
                    Ok(assembled(toks, rows, emergency, topics))
                },
            },
        },
    }
}

/// Every group of the topic file has a name, a flag and a member list.
pub proof fn lemma_topic_shape(words: Seq<Seq<char>>, lines: Seq<Seq<char>>, n: int)
    ensures
        topic_lines(words, lines, n) matches Ok(st) ==> st.names.len() == st.members.len()
            && st.tech.len() == st.members.len(),
    decreases n,
{
    if n > 0 {
        lemma_topic_shape(words, lines, n - 1);
    }
}

fn find_long(words: &Vec<String>) -> (long: Option<String>)
    ensures
        match (long, first_long(texts(words@), words@.len() as int)) {
            (Some(w), Some(v)) => w@ == v,
            (None, None) => true,
            _ => false,
        },
{
    let ghost all = texts(words@);
    let mut i: usize = 0;
    while i < words.len()
        invariant
            i <= words.len(),
            all == texts(words@),
            first_long(all, i as int) is None,
        decreases words.len() - i,
    {
        if chars_of(words[i].as_str()).len() > MAX_WORD_LEN {
            proof {
                lemma_first_long_stays(all, i + 1, all.len() as int);
            }
            return Some(words[i].clone());
        }
        i = i + 1;
    }
    None
}

proof fn lemma_first_long_stays(words: Seq<Seq<char>>, k: int, n: int)
    requires
        k <= n,
        first_long(words, k) is Some,
    ensures
        first_long(words, n) == first_long(words, k),
    decreases n - k,
{
    if k < n && n > 0 {
        lemma_first_long_stays(words, k, n - 1);
    }
}

/// Whether the last token occurs before.
fn last_recurs(toks: &Vec<String>) -> (yes: bool)
    requires
        toks@.len() > 0,
    ensures
        yes == texts(toks@).drop_last().contains(texts(toks@).last()),
{
    let last: usize = toks.len() - 1;
    let ghost all = texts(toks@);
    let mut i: usize = 0;
    while i < last
        invariant
            i <= last,
            last == toks@.len() - 1,
            all == texts(toks@),
            forall|k: int| 0 <= k < i ==> #[trigger] all.drop_last()[k] != all.last(),
        decreases last - i,
    {
        if same_text(toks[i].as_str(), toks[last].as_str()) {
            assert(all.drop_last()[i as int] == all.last());
            return true;
        }
        i = i + 1;
    }
    false
}

/// Reads the corpus: its vocabulary and its words as ids.
fn read_corpus(toks: &Vec<String>) -> (out: Result<(WordVocab, u8, Vec<u8>), BuildError>)
    ensures
        match (out, corpus_fault(texts(toks@))) {
            (Ok((vocab, qmark, ids)), None) => {
                &&& vocab@ == vocabulary(texts(toks@))
                &&& is_vocabulary(vocab@, texts(toks@))
                &&& vocab@.len() <= MAX_WORDS
                &&& Some(qmark) == word_id(vocab@, "?"@)
                &&& ids@ == token_ids(vocab@, texts(toks@))
            },
            (Err(f), Some(g)) => fault_of(f) == g,
            _ => false,
        },
{
    if toks.len() < 3 {
        return Err(Fault::CorpusTooSmall);
    }
    let vocab = collect_vocabulary(toks);
    if vocab.words.len() > MAX_WORDS {
        return Err(Fault::TooManyWords(vocab.words.len()));
    }
    if let Some(w) = find_long(&vocab.words) {
        return Err(Fault::WordTooLong(w));
    }
    let qmark = match vocab.id("?") {
        None => {
            assert(!vocab@.contains("?"@));
            return Err(Fault::NoQuestionMark);
        },
        Some(id) => id,
    };
    assert(vocab@.contains("?"@));
    if !last_recurs(toks) {
        return Err(Fault::NoSuccessor(toks[toks.len() - 1].clone()));
    }
    let ids = ids_of_tokens(&vocab, toks);
    Ok((vocab, qmark, ids))
}

/// Plans the model of a corpus, a route file and a topic file.
pub fn plan_model(corpus: &str, routes_src: &str, topics_src: &str) -> (out: Result<
    ModelPlan,
    BuildError,
>)
    requires
        corpus_fault(words_of(corpus@)) is None ==> countable(words_of(corpus@)),
    ensures
        match (out, plan_of(corpus@, routes_src@, topics_src@)) {
            (Ok(plan), Ok(view)) => plan@ == view,
            (Err(f), Err(g)) => fault_of(f) == g,
            _ => false,
        },
{
    let toks = split_words(corpus);
    let ghost all = words_of(corpus@);
    let (vocab, qmark_id, ids) = match read_corpus(&toks) {
        Err(f) => return Err(f),
        Ok(read) => read,
    };
    let (routes, emergency) = match read_routes(&vocab, routes_src) {
        Err(f) => return Err(f),
        Ok(read) => read,
    };
    let topics = match read_topics(&vocab, topics_src) {
        Err(f) => return Err(f),
        Ok(read) => read,
    };
    proof {
        let lines = lines_of(topics_src@);
        lemma_topic_shape(vocab@, lines, lines.len() as int);
        lemma_token_ids(vocab@, all);
        lemma_ids_countable(vocab@, all);
        lemma_routes(vocab@, routes_src@);
    }
    let marks = punctuation_marks(&vocab);
    let (tri, n_tri) = trigram_table(&ids, &marks);
    let at: usize = emergency.0 as usize * 4096 + emergency.1 as usize * 16;
    proof {
        lemma_tri_at(ids@, marks@, emergency.0, emergency.1);
        lemma_tri_record(ids@, marks@, emergency.0, emergency.1);
    }
    if tri[at] == NO_WORD {
        return Err(Fault::EmergencyMiss);
    }
    let (bi, n_bi) = bigram_table(&ids, &marks);
    let qtype_names = qtype_list();
    let cls = classifier_bank(&vocab, &ids, qmark_id, &topics, &marks, &qtype_names);
    let attr = attributes(&routes);
    let examples = training_examples(&ids);
    let plan = ModelPlan {
        vocab,
        qmark_id,
        emergency,
        tri,
        bi,
        attr,
        routes,
        cls,
        topic_names: topics.names,
        topic_tech: topics.tech,
        qtype_names,
        examples,
        n_tri,
        n_bi,
    };
    Ok(plan)
}

proof fn lemma_place(a: int, b: int, k: int)
    requires
        0 <= a,
        0 <= b < 256,
        0 <= k < 16,
    ensures
        (a * 4096 + b * 16 + k) / 4096 == a,
        (a * 4096 + b * 16 + k) / 16 % 256 == b,
        (a * 4096 + b * 16 + k) % 16 == k,
{
    assert((a * 4096 + b * 16 + k) / 16 == a * 256 + b);
}

/// Where a context's record stands in the trigram table.
proof fn lemma_tri_at(ids: Seq<u8>, marks: Seq<bool>, a: u8, b: u8)
    requires
        a < MAX_WORDS,
    ensures
        tri_table(ids, marks).subrange(a * 4096 + b * 16, a * 4096 + b * 16 + 16) == record_of(
            tri_counts(ids, a, b),
            marks,
        ),
        tri_table(ids, marks)[a * 4096 + b * 16] == record_of(tri_counts(ids, a, b), marks)[0],
{
    let at = a * 4096 + b * 16;
    let rec = record_of(tri_counts(ids, a, b), marks);
    assert forall|k: int| 0 <= k < 16 implies tri_table(ids, marks)[at + k] == #[trigger] rec[k] by {
        lemma_place(a as int, b as int, k);
    }
    let part = tri_table(ids, marks).subrange(at, at + 16);
    assert(part =~= rec);
    assert(part[0] == tri_table(ids, marks)[at]);
}

/// Where a word's record stands in the bigram table.
proof fn lemma_bi_at(ids: Seq<u8>, marks: Seq<bool>, a: u8)
    requires
        a < MAX_WORDS,
    ensures
        bi_table(ids, marks).subrange(a * 16, a * 16 + 16) == record_of(
            bi_counts(ids, a),
            marks,
        ),
{
    let rec = record_of(bi_counts(ids, a), marks);
    assert forall|k: int| 0 <= k < 16 implies bi_table(ids, marks)[a * 16 + k] == #[trigger] rec[k] by {
        assert((a * 16 + k) / 16 == a && (a * 16 + k) % 16 == k);
    }
    assert(bi_table(ids, marks).subrange(a * 16, a * 16 + 16) =~= rec);
}

/// Seeds of rows are words.
pub open spec fn rows_ok(rows: Seq<RouteRow>, n: int) -> bool {
    forall|i: int| 0 <= i < rows.len() ==> (#[trigger] rows[i]).seed1 < n && rows[i].seed2 < n
}

proof fn lemma_route_rows(words: Seq<Seq<char>>, lines: Seq<Seq<char>>, n: int)
    requires
        words.len() <= 256,
    ensures
        route_lines(words, lines, n) matches Ok(st) ==> {
            &&& rows_ok(st.by_both, words.len() as int)
            &&& rows_ok(st.by_topic, words.len() as int)
            &&& rows_ok(st.by_qtype, words.len() as int)
            &&& st.emergency matches Some((a, b)) ==> a < words.len() && b < words.len()
        },
    decreases n,
{
    if n > 0 {
        lemma_route_rows(words, lines, n - 1);
        assert forall|field: Seq<char>| #[trigger] field_id(words, field) matches Some(i) ==> i
            < words.len() by {
            lemma_word_id_place(words, uppered(field));
        }
    }
}

/// The seeds of a route file are words.
proof fn lemma_routes(words: Seq<Seq<char>>, src: Seq<char>)
    requires
        words.len() <= 256,
    ensures
        routes_of(words, src) matches Ok((rows, seed)) ==> {
            &&& rows_ok(rows, words.len() as int)
            &&& rows.len() <= 255
            &&& seed.0 < words.len()
            &&& seed.1 < words.len()
        },
{
    let lines = lines_of(src);
    lemma_route_rows(words, lines, lines.len() as int);
    if let Ok(st) = route_lines(words, lines, lines.len() as int) {
        let rows = all_rows(st);
        let k = st.by_both.len() as int;
        let l = k + st.by_topic.len();
        assert forall|i: int| 0 <= i < rows.len() implies (#[trigger] rows[i]).seed1 < words.len()
            && rows[i].seed2 < words.len() by {
            if i < k {
                assert(rows[i] == st.by_both[i]);
            } else if i < l {
                assert(rows[i] == st.by_topic[i - k]);
            } else {
                assert(rows[i] == st.by_qtype[i - l]);
            }
        }
    }
}

// ---------------------------------------------------------------------------
// The model
// ---------------------------------------------------------------------------

/// The model of a plan and a network.
pub open spec fn model_of(p: PlanView, n: NeuralView) -> ModelView {
    ModelView {
        vocab_size: p.words.len() as u8,
        k: TOP_K as u8,
        qmark_id: p.qmark_id,
        emergency: p.emergency,
        tri: p.tri,
        bi: p.bi,
        words: p.words,
        attr: p.attr,
        routes: p.routes,
        cls: p.cls,
        neural: n,
        topic_names: p.topic_names,
        topic_tech: p.topic_tech,
        qtype_names: p.qtype_names,
    }
}

/// The model of a plan and the network trained for it, with the numbers of
/// trigram and bigram contexts.
pub fn build_model(plan: ModelPlan, neural: NeuralInt) -> (out: (Model, usize, usize))
    requires
        plan@.words.len() <= 255,
    ensures
        out.0@ == model_of(plan@, neural@),
        out.1 == plan@.n_tri,
        out.2 == plan@.n_bi,
{
    let model = Model {
        vocab_size: plan.vocab.words.len() as u8,
        k: TOP_K as u8,
        qmark_id: plan.qmark_id,
        emergency: plan.emergency,
        tri: plan.tri,
        bi: plan.bi,
        vocab: plan.vocab,
        attr: plan.attr,
        routes: plan.routes,
        cls: plan.cls,
        neural,
        topic_names: plan.topic_names,
        topic_tech: plan.topic_tech,
        qtype_names: plan.qtype_names,
    };
    (model, plan.n_tri, plan.n_bi)
}

// ---------------------------------------------------------------------------
// What holds of every model built
// ---------------------------------------------------------------------------

/// A single word that can be displayed.
spec fn is_token(w: Seq<char>) -> bool {
    is_single(w) && displayable(w)
}

/// The tokens of a text are single words and can be displayed.
proof fn lemma_tokens(u: Seq<char>, i: int)
    ensures
        forall|k: int|
            0 <= k < tokens_from(u, i).len() ==> is_token(#[trigger] tokens_from(u, i)[k]),
    decreases u.len() - i,
{
    let all = tokens_from(u, i);
    if 0 <= i < u.len() {
        if is_word_char(u[i]) {
            let j = run_end(u, i + 1);
            lemma_run_end(u, i + 1);
            lemma_tokens(u, j);
            let part = u.subrange(i, j);
            let rest = tokens_from(u, j);
            assert(displayable(part)) by {
                assert forall|k: int| 0 <= k < part.len() implies VOCAB@.contains(
                    #[trigger] part[k],
                ) by {
                    assert(part[k] == u[i + k]);
                    lemma_in_alphabet(u[i + k]);
                }
            }
            assert forall|k: int| 0 <= k < part.len() implies is_word_char(#[trigger] part[k]) by {
                assert(part[k] == u[i + k]);
            }
            assert(all == seq![part] + rest);
            lemma_token_before(part, rest);
        } else if is_mark(u[i]) {
            lemma_tokens(u, i + 1);
            let part = seq![u[i]];
            let rest = tokens_from(u, i + 1);
            lemma_in_alphabet(u[i]);
            assert(displayable(part));
            assert(all == seq![part] + rest);
            lemma_token_before(part, rest);
        } else {
            lemma_tokens(u, i + 1);
            assert(all == tokens_from(u, i + 1));
        }
    } else {
        assert(all.len() == 0);
    }
}

proof fn lemma_token_before(part: Seq<char>, rest: Seq<Seq<char>>)
    requires
        is_token(part),
        forall|k: int| 0 <= k < rest.len() ==> is_token(#[trigger] rest[k]),
    ensures
        forall|k: int|
            0 <= k < (seq![part] + rest).len() ==> is_token(#[trigger] (seq![part] + rest)[k]),
{
    assert forall|k: int| 0 <= k < (seq![part] + rest).len() implies is_token(
        #[trigger] (seq![part] + rest)[k],
    ) by {
        if k > 0 {
            assert((seq![part] + rest)[k] == rest[k - 1]);
        }
    }
}

proof fn lemma_in_alphabet(c: char)
    requires
        is_word_char(c) || is_mark(c),
    ensures
        VOCAB@.contains(c),
{
    lemma_alphabet();
    let n = c as int;
    let i: int = if 'A' <= c <= 'Z' {
        n - 64
    } else if '0' <= c <= '9' {
        n - 21
    } else if c == '.' {
        37
    } else if c == ',' {
        38
    } else if c == '\'' {
        39
    } else if c == '!' {
        41
    } else {
        42
    };
    assert(VOCAB@[i] == tile_char(i));
}

/// What a corpus without faults gives.
pub proof fn lemma_corpus(toks: Seq<Seq<char>>)
    requires
        corpus_fault(toks) is None,
    ensures
        ({
            let words = vocabulary(toks);
            &&& is_vocabulary(words, toks)
            &&& words.len() <= MAX_WORDS
            &&& word_id(words, "?"@) matches Some(q) && q < words.len()
            &&& forall|w: int|
                0 <= w < words.len() ==> (#[trigger] words[w]).len() <= MAX_WORD_LEN
            &&& forall|w: u8|
                w < words.len() ==> #[trigger] bi_contexts(token_ids(words, toks)).contains(w)
        }),
{
    let words = vocabulary(toks);
    lemma_vocabulary_exists(toks);
    let ids = token_ids(words, toks);
    lemma_token_ids(words, toks);
    assert(words.contains("?"@));
    lemma_word_id_place(words, "?"@);
    assert forall|w: int| 0 <= w < words.len() implies (#[trigger] words[w]).len()
        <= MAX_WORD_LEN by {
        lemma_none_long(words, w, words.len() as int);
    }
    assert forall|w: u8| w < words.len() implies #[trigger] bi_contexts(ids).contains(w) by {
        assert(ids.contains(w as int as u8));
        let i = ids.index_of(w);
        if i < ids.len() - 1 {
            assert(bi_contexts(ids)[i] == w);
        } else {
            let j = toks.drop_last().index_of(toks.last());
            assert(toks.drop_last()[j] == toks[j]);
            assert(ids[j] == ids[i]);
            assert(bi_contexts(ids)[j] == w);
        }
    }
}

pub proof fn lemma_none_long(words: Seq<Seq<char>>, w: int, n: int)
    requires
        0 <= w < n,
        first_long(words, n) is None,
    ensures
        words[w].len() <= MAX_WORD_LEN,
    decreases n,
{
    if w < n - 1 {
        lemma_none_long(words, w, n - 1);
    }
}

/// The words of a corpus without faults are single words and can be displayed.
proof fn lemma_corpus_words(corpus: Seq<char>)
    requires
        corpus_fault(words_of(corpus)) is None,
    ensures
        forall|i: int|
            0 <= i < vocabulary(words_of(corpus)).len() ==> is_token(
                #[trigger] vocabulary(words_of(corpus))[i],
            ),
{
    let toks = words_of(corpus);
    let words = vocabulary(toks);
    lemma_corpus(toks);
    lemma_tokens(uppered(corpus), 0);
    assert forall|i: int| 0 <= i < words.len() implies is_token(#[trigger] words[i]) by {
        assert(words.contains(words[i]));
        let k = toks.index_of(words[i]);
        assert(toks[k] == words[i]);
    }
}

/// Every list of tokens has a vocabulary.
pub proof fn lemma_vocabulary_exists(toks: Seq<Seq<char>>)
    ensures
        is_vocabulary(vocabulary(toks), toks),
    decreases toks.len(),
{
    if toks.len() == 0 {
        let none: Seq<Seq<char>> = seq![];
        assert(is_vocabulary(none, toks));
    } else {
        lemma_vocabulary_exists(toks.drop_last());
        lemma_vocabulary_grows(vocabulary(toks.drop_last()), toks.drop_last(), toks.last());
        assert(toks.drop_last().push(toks.last()) =~= toks);
    }
}

/// A model built from a plan and a network that fits it can answer: its tables
/// are sound and its vocabulary is sorted. No word lacks a bigram successor,
/// the emergency seed has a trigram record, and every route seed and the
/// emergency seed generate at least `MIN_ANSWER_WORDS` words.
pub proof fn law_built_model_answers(
    corpus: Seq<char>,
    routes_src: Seq<char>,
    topics_src: Seq<char>,
    p: PlanView,
    n: NeuralView,
)
    requires
        countable(words_of(corpus)),
        plan_of(corpus, routes_src, topics_src) == Ok::<PlanView, Fault<Seq<char>>>(p),
        neural_sound(n),
        n.v == p.words.len(),
    ensures
        ({
            let m = model_of(p, n);
            &&& model_sound(m)
            &&& sorted(m.words)
            &&& m.vocab_size == m.words.len()
            &&& forall|w: u8| w < m.words.len() ==> #[trigger] bi_rec_of(m, w)[0] != NO_WORD
            &&& seed_ok(m, m.emergency)
            &&& tri_rec_of(m, m.emergency.0, m.emergency.1)[0] != NO_WORD
            &&& answer_from(m, m.emergency, None, None).0.len() >= MIN_ANSWER_WORDS
            &&& forall|i: int|
                0 <= i < m.routes.len() ==> answer_from(
                    m,
                    ((#[trigger] m.routes[i]).seed1, m.routes[i].seed2),
                    None,
                    None,
                ).0.len() >= MIN_ANSWER_WORDS
        }),
{
    let m = model_of(p, n);
    let toks = words_of(corpus);
    let words = vocabulary(toks);
    let ids = token_ids(words, toks);
    let marks = marks_of(words);
    lemma_corpus(toks);
    lemma_token_ids(words, toks);
    lemma_ids_countable(words, toks);
    lemma_routes(words, routes_src);
    let topics = topics_of(words, topics_src)->Ok_0;
    let b = BankInput { words, ids, qmark: p.qmark_id, topics };
    assert(p == assembled(toks, p.routes, p.emergency, topics));
    assert forall|w: int| 0 <= w < m.words.len() implies #[trigger] m.cls[CLS_TGROUP + w] <= 32 by {
        assert(m.cls[CLS_TGROUP + w] == cls_byte(b, CLS_TGROUP + w));
        lemma_group_bytes(words, topics.members, topics.members.len() as int, 11, w as u8);
    }
    assert forall|w: int| 0 <= w < m.words.len() implies #[trigger] m.cls[CLS_QGROUP + w] <= 16 by {
        assert(m.cls[CLS_QGROUP + w] == cls_byte(b, CLS_QGROUP + w));
        lemma_group_bytes(words, topics.members, 0, 11, w as u8);
    }
    assert forall|w: u8| w < m.words.len() implies #[trigger] bi_rec_of(m, w)[0] != NO_WORD by {
        lemma_bi_at(ids, marks, w);
        lemma_bi_record(ids, marks, w);
        assert(bi_contexts(ids).contains(w));
    }
    lemma_tri_at(ids, marks, p.emergency.0, p.emergency.1);
    lemma_tri_record(ids, marks, p.emergency.0, p.emergency.1);
    law_answer_shape(m, m.emergency, None, None);
    assert forall|i: int| 0 <= i < m.routes.len() implies answer_from(
        m,
        ((#[trigger] m.routes[i]).seed1, m.routes[i].seed2),
        None,
        None,
    ).0.len() >= MIN_ANSWER_WORDS by {
        law_answer_shape(m, (m.routes[i].seed1, m.routes[i].seed2), None, None);
    }
}

/// Every question to a built model gets a visible answer: 6 to 32 words of its
/// vocabulary, whose text is not blank and reads back as these words, and without
/// a reseed.
pub proof fn law_built_model_always_answers(
    corpus: Seq<char>,
    routes_src: Seq<char>,
    topics_src: Seq<char>,
    p: PlanView,
    n: NeuralView,
    question: Seq<char>,
)
    requires
        countable(words_of(corpus)),
        plan_of(corpus, routes_src, topics_src) == Ok::<PlanView, Fault<Seq<char>>>(p),
        neural_sound(n),
        n.v == p.words.len(),
    ensures
        ({
            let t = answer_of(model_of(p, n), question);
            &&& MIN_ANSWER_WORDS <= t.words.len() <= WORD_BUDGET
            &&& forall|i: int| 0 <= i < t.words.len() ==> #[trigger] t.words[i] < p.words.len()
            &&& joined(p.words, t.words).len() > 0
            &&& known_ids(p.words, words_of(joined(p.words, t.words))) == t.words
            &&& t.reason < R_EMERGENCY
        }),
{
    let m = model_of(p, n);
    let t = answer_of(m, question);
    law_built_model_answers(corpus, routes_src, topics_src, p, n);
    law_always_answers(m, question);
    lemma_corpus_words(corpus);
    let last = t.words[t.words.len() - 1];
    assert(is_token(p.words[last as int]));
    assert forall|i: int| 0 <= i < p.words.len() implies is_single(#[trigger] p.words[i]) by {
        assert(is_token(p.words[i]));
    }
    law_words_roundtrip(p.words, t.words);
    law_routes_ordered(p.words, routes_src);
    lemma_first_row_before(
        m.routes,
        first_with(m.attr, t.known_word_ids, ATTR_QTYPE),
        last_with(m.attr, t.known_word_ids, ATTR_TOPIC),
        m.routes.len() as int,
    );
}

/// Building is reproducible: two plans of the same files are the same, so with any
/// training that depends on the vocabulary size and the examples alone the two
/// model files are equal byte for byte, and so are the context counts.
pub proof fn law_build_reproducible(
    corpus: Seq<char>,
    routes_src: Seq<char>,
    topics_src: Seq<char>,
    p1: PlanView,
    p2: PlanView,
    training: spec_fn(int, Seq<(u8, u8, u8)>) -> NeuralView,
)
    requires
        plan_of(corpus, routes_src, topics_src) == Ok::<PlanView, Fault<Seq<char>>>(p1),
        plan_of(corpus, routes_src, topics_src) == Ok::<PlanView, Fault<Seq<char>>>(p2),
    ensures
        ({
            let m1 = model_of(p1, training(p1.words.len() as int, p1.examples));
            let m2 = model_of(p2, training(p2.words.len() as int, p2.examples));
            &&& model_bytes(m1) == model_bytes(m2)
            &&& p1.n_tri == p2.n_tri
            &&& p1.n_bi == p2.n_bi
        }),
{
}

/// The examples of a plan are contexts and words of its vocabulary, so a network
/// of that many words has embeddings for all of them.
pub proof fn law_examples_in_vocabulary(
    corpus: Seq<char>,
    routes_src: Seq<char>,
    topics_src: Seq<char>,
    p: PlanView,
    n: NeuralView,
)
    requires
        plan_of(corpus, routes_src, topics_src) == Ok::<PlanView, Fault<Seq<char>>>(p),
        n.v == p.words.len(),
    ensures
        contexts_ok(n, p.examples),
        forall|i: int| 0 <= i < p.examples.len() ==> (#[trigger] p.examples[i]).2 < p.words.len(),
{
    let toks = words_of(corpus);
    let words = vocabulary(toks);
    let ids = token_ids(words, toks);
    lemma_corpus(toks);
    lemma_token_ids(words, toks);
    let first = triples_of(ids).len() as int;
    assert forall|i: int| 0 <= i < p.examples.len() implies context_ok(
        n,
        (#[trigger] p.examples[i]).0,
        p.examples[i].1,
    ) && p.examples[i].2 < words.len() by {
        if i < first {
            assert(p.examples[i] == (ids[i], ids[i + 1], ids[i + 2]));
            assert(ids[i] < words.len() && ids[i + 1] < words.len() && ids[i + 2] < words.len());
        } else {
            let k = i - first;
            assert(p.examples[i] == (NO_WORD, ids[k], ids[k + 1]));
            assert(ids[k] < words.len() && ids[k + 1] < words.len());
        }
    }
}

proof fn lemma_data_len(words: Seq<Seq<char>>)
    requires
        forall|i: int|
            0 <= i < words.len() ==> displayable(#[trigger] words[i]) && words[i].len()
                <= MAX_WORD_LEN,
    ensures
        word_data(words).len() <= 12 * words.len(),
    decreases words.len(),
{
    if words.len() > 0 {
        let rest = words.drop_last();
        assert forall|i: int| 0 <= i < rest.len() implies displayable(#[trigger] rest[i])
            && rest[i].len() <= MAX_WORD_LEN by {
            assert(rest[i] == words[i]);
        }
        lemma_data_len(rest);
        let w = words[words.len() - 1];
        law_display_roundtrip(w);
    }
}

proof fn lemma_qtype_names_short()
    ensures
        qtype_words().len() == 11,
        forall|i: int|
            0 <= i < 11 ==> encode_utf8(#[trigger] qtype_words()[i]).len() <= 255,
{
    reveal_strlit("WHY");
    reveal_strlit("HOW");
    reveal_strlit("WHAT");
    reveal_strlit("WHO");
    reveal_strlit("WHERE");
    reveal_strlit("WHEN");
    reveal_strlit("CAN");
    reveal_strlit("DO");
    reveal_strlit("DOES");
    reveal_strlit("ARE");
    reveal_strlit("IS");
    assert forall|i: int| 0 <= i < 11 implies encode_utf8(#[trigger] qtype_words()[i]).len()
        <= 255 by {
        let w = qtype_words()[i];
        assert(w.len() <= 5 && is_ascii_chars(w));
        is_ascii_chars_encode_utf8(w);
    }
}

/// A model built from a plan can be stored and reads back as it was, as long as
/// no topic name takes more than 127 bytes.
pub proof fn law_built_model_roundtrip(
    corpus: Seq<char>,
    routes_src: Seq<char>,
    topics_src: Seq<char>,
    p: PlanView,
    n: NeuralView,
)
    requires
        plan_of(corpus, routes_src, topics_src) == Ok::<PlanView, Fault<Seq<char>>>(p),
        neural_sound(n),
        n.v == p.words.len(),
        forall|i: int|
            0 <= i < p.topic_names.len() ==> encode_utf8(#[trigger] p.topic_names[i]).len() <= 127,
    ensures
        storable(model_of(p, n)),
        parse_of(model_bytes(model_of(p, n))) == Some(
            Ok::<ModelView, ModelError>(model_of(p, n)),
        ),
{
    let m = model_of(p, n);
    let toks = words_of(corpus);
    let words = vocabulary(toks);
    lemma_corpus(toks);
    lemma_routes(words, routes_src);
    let lines = lines_of(topics_src);
    lemma_topic_shape(words, lines, lines.len() as int);
    lemma_corpus_words(corpus);
    assert forall|i: int| 0 <= i < words.len() implies displayable(#[trigger] words[i])
        && words[i].len() <= MAX_WORD_LEN by {
        assert(is_token(words[i]));
    }
    lemma_data_len(words);
    lemma_qtype_names_short();
    law_model_roundtrip(m);
}

} // verus!
