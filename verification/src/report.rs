//! What the program reports in RAM, and what is checked about it: parity with
//! the reference answer, and the model's tables in the ROM.

use vstd::prelude::*;
use crate::bytes::same_bytes;
use crate::driver::{ask_strokes, play_of, still, tap, taps, with_buttons, Driver};
use crate::model::{Model, ModelView, BI_LEN, MIN_ANSWER_WORDS, TRI_LEN, WORD_BUDGET};
use crate::nes::{frame_of, lemma_frame_counted, NesState, BTN_B};
use crate::pipeline::{
    answer_of, answer_pipeline, model_sound, tone_name, tone_text, Trace, TraceView,
};
use crate::text::same_text;

verus! {

/// Where the generated word ids start.
pub const WORDS_ADDR: usize = 0x0300;

/// Status: 0 = chat input, 1 = generating, 2 = done.
pub const STATUS_ADDR: usize = 0x07F0;

/// Number of generated words.
pub const COUNT_ADDR: usize = 0x07F1;

/// Word budget.
pub const BUDGET_ADDR: usize = 0x07F3;

/// Route reason.
pub const REASON_ADDR: usize = 0x07F4;

/// Worst ladder level.
pub const LEVEL_ADDR: usize = 0x07F5;

/// Tone.
pub const TONE_ADDR: usize = 0x07F6;

/// Model bank switches, modulo 256.
pub const BANKSW_ADDR: usize = 0x07F7;

/// Build mode.
pub const MODE_ADDR: usize = 0x07F8;

pub const STATUS_CHAT: u8 = 0;

pub const STATUS_DONE: u8 = 2;

/// Frames after which a question counts as hung.
pub const FRAME_LIMIT: u64 = 8000;

/// PRG size of a complete ROM.
pub const ROM_PRG_LEN: usize = 1_048_576;

/// Where the bigram table stands in PRG: at the start of bank 126.
pub const ROM_BI_AT: usize = 1_032_192;

// ---------------------------------------------------------------------------
// The report
// ---------------------------------------------------------------------------

/// What the program reports.
pub struct Report {
    pub status: u8,
    pub count: u8,
    pub budget: u8,
    pub reason: u8,
    pub level: u8,
    pub tone: u8,
    pub bank_switches: u8,
    pub mode: u8,
    pub words: Vec<u8>,
}

/// The report as contracts see it.
#[verifier::ext_equal]
pub struct ReportView {
    pub status: u8,
    pub count: u8,
    pub budget: u8,
    pub reason: u8,
    pub level: u8,
    pub tone: u8,
    pub bank_switches: u8,
    pub mode: u8,
    pub words: Seq<u8>,
}

impl View for Report {
    type V = ReportView;

    open spec fn view(&self) -> ReportView {
        ReportView {
            status: self.status,
            count: self.count,
            budget: self.budget,
            reason: self.reason,
            level: self.level,
            tone: self.tone,
            bank_switches: self.bank_switches,
            mode: self.mode,
            words: self.words@,
        }
    }
}

/// The report in RAM.
pub open spec fn report_of(ram: Seq<u8>) -> ReportView {
    ReportView {
        status: ram[STATUS_ADDR as int],
        count: ram[COUNT_ADDR as int],
        budget: ram[BUDGET_ADDR as int],
        reason: ram[REASON_ADDR as int],
        level: ram[LEVEL_ADDR as int],
        tone: ram[TONE_ADDR as int],
        bank_switches: ram[BANKSW_ADDR as int],
        mode: ram[MODE_ADDR as int],
        words: ram.subrange(WORDS_ADDR as int, WORDS_ADDR + ram[COUNT_ADDR as int]),
    }
}

/// Reads the report.
pub fn read_report(ram: &[u8; 0x800]) -> (report: Report)
    ensures
        report@ == report_of(ram@),
{
    let count = ram[COUNT_ADDR];
    let bytes = ram.as_slice();
    Report {
        status: ram[STATUS_ADDR],
        count,
        budget: ram[BUDGET_ADDR],
        reason: ram[REASON_ADDR],
        level: ram[LEVEL_ADDR],
        tone: ram[TONE_ADDR],
        bank_switches: ram[BANKSW_ADDR],
        mode: ram[MODE_ADDR],
        words: vstd::slice::slice_to_vec(&bytes[WORDS_ADDR..WORDS_ADDR + count as usize]),
    }
}

/// The name of a build mode.
pub open spec fn mode_text(mode: u8) -> Seq<char> {
    if mode == 1 {
        "MMC5_MAX"@
    } else {
        "PURE_6502"@
    }
}

/// The name of a build mode.
pub fn mode_name(mode: u8) -> (name: &'static str)
    ensures
        name@ == mode_text(mode),
{
    if mode == 1 {
        "MMC5_MAX"
    } else {
        "PURE_6502"
    }
}

// ---------------------------------------------------------------------------
// Parity
// ---------------------------------------------------------------------------

/// A finished answer of admissible length, all of whose words are words.
pub open spec fn well_answered(r: ReportView, n_words: int) -> bool {
    &&& r.status == STATUS_DONE
    &&& MIN_ANSWER_WORDS <= r.count <= WORD_BUDGET
    &&& forall|i: int| 0 <= i < r.words.len() ==> #[trigger] r.words[i] < n_words
}

/// A good answer with the expected words, reason and level.
pub open spec fn answers_as(
    r: ReportView,
    words: Seq<u8>,
    reason: u8,
    level: u8,
    n_words: int,
) -> bool {
    well_answered(r, n_words) && r.words == words && r.reason == reason && r.level == level
}

/// Parity with a reference: words, reason, level, and the tone by its name.
pub open spec fn parity_of(
    r: ReportView,
    words: Seq<u8>,
    reason: u8,
    level: u8,
    tone: Seq<char>,
    n_words: int,
) -> bool {
    answers_as(r, words, reason, level, n_words) && tone_text(r.tone) == tone
}

/// Parity with the whole trace of the reference.
pub open spec fn trace_parity_of(r: ReportView, t: TraceView, n_words: int) -> bool {
    answers_as(r, t.words, t.reason, t.gen_level_max, n_words) && r.tone == t.tone
}

/// Whether all words of a report are words of a vocabulary of `n_words`.
pub fn words_valid(report: &Report, n_words: usize) -> (valid: bool)
    ensures
        valid == (forall|i: int|
            0 <= i < report@.words.len() ==> #[trigger] report@.words[i] < n_words),
{
    let mut i: usize = 0;
    while i < report.words.len()
        invariant
            i <= report.words.len(),
            forall|k: int| 0 <= k < i ==> #[trigger] report@.words[k] < n_words,
        decreases report.words.len() - i,
    {
        if report.words[i] as usize >= n_words {
            assert(report@.words[i as int] >= n_words);
            return false;
        }
        i = i + 1;
    }
    true
}

fn answer_matches(
    report: &Report,
    words: &[u8],
    reason: u8,
    level: u8,
    n_words: usize,
) -> (ok: bool)
    ensures
        ok == answers_as(report@, words@, reason, level, n_words as int),
{
    report.status == STATUS_DONE && report.count as usize >= MIN_ANSWER_WORDS
        && report.count as usize <= WORD_BUDGET && words_valid(report, n_words) && same_bytes(
        &report.words,
        words,
    ) && report.reason == reason && report.level == level
}

/// Whether a report matches a reference: words, reason, level and tone name.
pub fn parity(
    report: &Report,
    words: &[u8],
    reason: u8,
    level: u8,
    tone: &str,
    n_words: usize,
) -> (ok: bool)
    ensures
        ok == parity_of(report@, words@, reason, level, tone@, n_words as int),
{
    answer_matches(report, words, reason, level, n_words) && same_text(
        tone_name(report.tone),
        tone,
    )
}

/// Whether a report matches the reference trace.
pub fn trace_parity(report: &Report, trace: &Trace, n_words: usize) -> (ok: bool)
    ensures
        ok == trace_parity_of(report@, trace@, n_words as int),
{
    answer_matches(report, &trace.words, trace.reason, trace.gen_level_max, n_words)
        && report.tone == trace.tone
}

// ---------------------------------------------------------------------------
// Reference files
// ---------------------------------------------------------------------------

/// The code that stands in for one that a reference file lacks.
pub const MISSING_CODE: u8 = 99;

/// What a reference file was not made for.
#[derive(Clone, Copy, Debug, PartialEq, Eq, Structural)]
pub enum RefMismatch {
    /// Another model.
    Model,
    /// Another corpus.
    Corpus,
    /// Another question.
    Question,
}

/// The first of model digest, corpus digest and question in which a reference
/// differs from a run.
pub open spec fn reference_mismatch_of(
    model_ref: Seq<char>,
    corpus_ref: Seq<char>,
    question_ref: Seq<char>,
    model: Seq<char>,
    corpus: Seq<char>,
    question: Seq<char>,
) -> Option<RefMismatch> {
    if model_ref != model {
        Some(RefMismatch::Model)
    } else if corpus_ref != corpus {
        Some(RefMismatch::Corpus)
    } else if question_ref != question {
        Some(RefMismatch::Question)
    } else {
        None
    }
}

/// Whether a reference was made for this model, corpus and question; names the
/// first one that differs.
pub fn reference_fits(
    model_ref: &str,
    corpus_ref: &str,
    question_ref: &str,
    model: &str,
    corpus: &str,
    question: &str,
) -> (out: Option<RefMismatch>)
    ensures
        out == reference_mismatch_of(
            model_ref@,
            corpus_ref@,
            question_ref@,
            model@,
            corpus@,
            question@,
        ),
{
    if !same_text(model_ref, model) {
        Some(RefMismatch::Model)
    } else if !same_text(corpus_ref, corpus) {
        Some(RefMismatch::Corpus)
    } else if !same_text(question_ref, question) {
        Some(RefMismatch::Question)
    } else {
        None
    }
}

/// A code of a reference file as the byte it is compared as: its low byte, or
/// `MISSING_CODE`.
pub open spec fn reference_byte(code: Option<u64>) -> u8 {
    match code {
        Some(n) => (n % 256) as u8,
        None => MISSING_CODE,
    }
}

/// A code of a reference file as the byte it is compared as.
pub fn reference_code(code: Option<u64>) -> (byte: u8)
    ensures
        byte == reference_byte(code),
{
    match code {
        Some(n) => (n % 256) as u8,
        None => MISSING_CODE,
    }
}

// ---------------------------------------------------------------------------
// Tables in the ROM
// ---------------------------------------------------------------------------

/// How a ROM differs from the model it should hold.
#[derive(Clone, Copy, Debug, PartialEq, Eq, Structural)]
pub enum RomMismatch {
    /// PRG is not 1 MiB.
    Size,
    /// Another trigram table.
    Trigram,
    /// Another bigram table.
    Bigram,
}

/// The first way in which PRG differs from the model.
pub open spec fn rom_mismatch_of(prg: Seq<u8>, m: ModelView) -> Option<RomMismatch> {
    if prg.len() != ROM_PRG_LEN {
        Some(RomMismatch::Size)
    } else if prg.take(TRI_LEN as int) != m.tri {
        Some(RomMismatch::Trigram)
    } else if prg.subrange(ROM_BI_AT as int, ROM_BI_AT + BI_LEN) != m.bi {
        Some(RomMismatch::Bigram)
    } else {
        None
    }
}

/// The first way in which PRG differs from the model.
pub fn rom_mismatch(prg: &[u8], model: &Model) -> (mismatch: Option<RomMismatch>)
    ensures
        mismatch == rom_mismatch_of(prg@, model@),
{
    if prg.len() != ROM_PRG_LEN {
        return Some(RomMismatch::Size);
    }
    assert(prg@.subrange(0, TRI_LEN as int) == prg@.take(TRI_LEN as int));
    if !same_bytes(&prg[0..TRI_LEN], &model.tri) {
        return Some(RomMismatch::Trigram);
    }
    if !same_bytes(&prg[ROM_BI_AT..ROM_BI_AT + BI_LEN], &model.bi) {
        return Some(RomMismatch::Bigram);
    }
    None
}

// ---------------------------------------------------------------------------
// One question in a session
// ---------------------------------------------------------------------------

/// Runs frames until the answer is done or the frame counter reaches `until`:
/// the console then, and whether every frame ran to its end.
pub open spec fn wait_of(s: NesState, until: int) -> (NesState, bool)
    decreases until - s.frame,
{
    if s.frame >= until || s.bus.ram[STATUS_ADDR as int] == STATUS_DONE {
        (s, true)
    } else {
        proof {
            lemma_frame_counted(s);
        }
        if frame_of(s).1 {
            wait_of(frame_of(s).0, until)
        } else {
            frame_of(s)
        }
    }
}

/// A question asked and answered: the reference trace, the program's report, the
/// frames it took, and whether they match.
pub struct Outcome {
    pub trace: Trace,
    pub report: Report,
    pub frames: u64,
    pub pass: bool,
}

/// The outcome as contracts see it.
#[verifier::ext_equal]
pub struct OutcomeView {
    pub trace: TraceView,
    pub report: ReportView,
    pub frames: int,
    pub pass: bool,
}

impl View for Outcome {
    type V = OutcomeView;

    open spec fn view(&self) -> OutcomeView {
        OutcomeView {
            trace: self.trace@,
            report: self.report@,
            frames: self.frames as int,
            pass: self.pass,
        }
    }
}

/// One question on a running console with the cursor on a cell: typed, asked and
/// waited for, then B leads back to the chat screen. `None` where a frame did
/// not run to its end.
pub open spec fn question_of(
    m: ModelView,
    s: NesState,
    row: int,
    col: int,
    text: Seq<char>,
) -> Option<(NesState, OutcomeView)> {
    let (asked, ok1) = play_of(s, taps(ask_strokes(text, row, col)));
    let (answered, ok2) = wait_of(asked, s.frame + FRAME_LIMIT);
    let (left, ok3) = play_of(answered, tap(BTN_B));
    let (back, ok4) = play_of(with_buttons(left, 0), still(8));
    let trace = answer_of(m, text);
    let report = report_of(answered.bus.ram);
    if ok1 && ok2 && ok3 && ok4 {
        Some(
            (
                back,
                OutcomeView {
                    trace,
                    report,
                    frames: answered.frame - s.frame,
                    pass: trace_parity_of(report, trace, m.words.len() as int),
                },
            ),
        )
    } else {
        None
    }
}

impl Driver {
    /// Runs frames until the answer is done or the frame counter reaches `until`;
    /// says whether every frame ran to its end.
    pub fn try_wait(&mut self, until: u64) -> (ok: bool)
        requires
            old(self).sound(),
        ensures
            final(self).sound(),
            final(self).cursor() == old(self).cursor(),
            (final(self).nes@, ok) == wait_of(old(self).nes@, until as int),
            old(self).nes.frame <= final(self).nes.frame,
            final(self).nes.frame <= until || final(self).nes.frame == old(self).nes.frame,
    {
        while self.nes.frame < until && self.nes.bus.ram[STATUS_ADDR] != STATUS_DONE
            invariant
                self.sound(),
                self.cursor() == old(self).cursor(),
                wait_of(self.nes@, until as int) == wait_of(old(self).nes@, until as int),
                old(self).nes.frame <= self.nes.frame,
                self.nes.frame <= until || self.nes.frame == old(self).nes.frame,
            decreases until - self.nes.frame,
        {
            if !self.nes.try_run_frame() {
                return false;
            }
        }
        true
    }

    /// Asks one question and compares the answer with the model's; `None` where
    /// a frame did not run to its end.
    pub fn try_question(&mut self, model: &Model, text: &str) -> (outcome: Option<Outcome>)
        requires
            old(self).sound(),
            model_sound(model@),
            old(self).nes.frame + 4 * ask_strokes(
                text@,
                old(self).kb_row as int,
                old(self).kb_col as int,
            ).len() + FRAME_LIMIT + 12 <= u64::MAX,
        ensures
            final(self).sound(),
            match (
                outcome,
                question_of(
                    model@,
                    old(self).nes@,
                    old(self).kb_row as int,
                    old(self).kb_col as int,
                    text@,
                ),
            ) {
                (Some(o), Some((s, view))) => {
                    &&& o@ == view
                    &&& final(self).nes@ == s
                    &&& final(self).cursor() == (0int, 0int)
                },
                (None, None) => true,
                _ => false,
            },
    {
        let trace = answer_pipeline(model, text);
        let start = self.nes.frame;
        if !self.try_type_and_ask(text) {
            return None;
        }
        if !self.try_wait(start + FRAME_LIMIT) {
            return None;
        }
        let report = read_report(&self.nes.bus.ram);
        let frames = self.nes.frame - start;
        let pass = trace_parity(&report, &trace, model.vocab.words.len());
        if !self.try_press(BTN_B) || !self.try_idle(8) {
            return None;
        }
        self.reset_kb();
        Some(Outcome { trace, report, frames, pass })
    }
}

} // verus!
