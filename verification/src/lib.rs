//! NanoCamelid NES: a word-level chat model small enough for a NES ROM.
//!
//! A corpus becomes a model: a trigram table with a bigram fallback, a
//! classifier bank, a quantized network and a word table. A typed question is
//! parsed and routed to a seed, and the answer is generated word by word from
//! the network's scores, the tables and the conditioning. A headless console
//! (6502, banked ROM, controller) runs the ROM that does the same, so that the
//! two can be compared.

use vstd::prelude::*;

pub mod answer_laws;
pub mod bank_laws;
pub mod builder;
pub mod bytes;
pub mod classifier;
pub mod console_laws;
pub mod corpus;
pub mod count_laws;
pub mod cpu6502;
pub mod driver;
pub mod font;
pub mod hash;
pub mod instruction_laws;
pub mod laws;
pub mod lines;
pub mod model;
pub mod nes;
pub mod neural;
pub mod neural_laws;
pub mod parse;
pub mod pipeline;
pub mod plan_laws;
pub mod records;
pub mod report;
pub mod route_laws;
pub mod routes;
pub mod sentences;
pub mod session_laws;
pub mod storage_laws;
pub mod terminal;
pub mod text;
pub mod text_laws;
pub mod view_laws;
pub mod vocab;

pub use builder::{build_model, plan_model, ModelPlan};
pub use corpus::is_countable;
pub use font::{font_chr, TILE_BLOCK, TILE_LLAMA, TILE_SELECTOR};
pub use hash::sha256_hex;
pub use model::{
    Model, ModelError, RouteRow, ATTR_QTYPE, ATTR_TOPIC, BASE_MAX, BIAS_MAX, BI_LEN,
    CLS_GLOBAL_REC, CLS_IS_END, CLS_LEN, CLS_QGROUP, CLS_QTYPE_BIAS, CLS_QTYPE_RECS, CLS_TGROUP,
    CLS_TONE, CLS_TOPIC_BIAS, CLS_TOPIC_RECS, HEADER_LEN, LEN_BONUS, L_BI, L_GLOBAL, L_NEURAL,
    L_QTYPE, L_TOPIC, L_TRI, MAGIC, MIN_ANSWER_WORDS, MIN_WORDS_BEFORE_STOP, MODEL_FORMAT_VERSION,
    NO_WORD, N_QTYPES_MAX, N_TOPICS_MAX, REC_LEN, REP_PEN, REP_WINDOW, R_EMERGENCY, R_EXACT,
    R_FALLBACK, R_QTYPE, R_QT_TOPIC, R_TOPIC, SOFT_LEN, TOKENIZER_VERSION, TONE_EMPTY,
    TONE_GREETING, TONE_NONSENSE, TONE_NORMAL, TONE_TECHNICAL, TOP_K, TRI_LEN, WILDCARD,
    WORD_BUDGET,
};
pub use parse::{parse_typed, stem_lookup};
pub use pipeline::{
    answer_pipeline, gen_from, is_sentence_end, level_name, reason_name, resolve_seed, tone_name,
    Trace,
};
pub use routes::{BuildError, Fault};
pub use text::{char_ids, chars_from_ids, normalize_chars, split_words, MAX_TYPED_CHARS, VOCAB};
pub use vocab::{word_ids, words_to_text, WordVocab, MAX_WORDS, MAX_WORD_LEN};

verus! {

} // verus!
