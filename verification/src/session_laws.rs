//! What a session has to satisfy: typing, frames, waiting, reports and the terminal.

use vstd::prelude::*;
use crate::driver::{
    ask_strokes, cursor_after, key_path, key_strokes, moves, play_of, still, tap, taps,
    with_buttons,
};
use crate::lines::lines_of;
use crate::model::ModelView;
use crate::nes::{frame_of, lemma_frame_counted, NesState};
use crate::pipeline::{answer_of, level_text, reason_text, tone_text, TraceView};
use crate::report::{
    mode_text, parity_of, question_of, reference_byte, reference_mismatch_of, report_of,
    rom_mismatch_of, trace_parity_of, wait_of, RefMismatch, ReportView, RomMismatch,
};
use crate::terminal::{
    border, boxed_line, boxed_lines, boxed_screen, hint_text, key_of, keys_of, session_over,
    KeypadView,
};
use crate::text::{char_id, ids_of, lemma_alphabet, lemma_char_id, tile_char, upper, VOCAB};
use crate::text_laws::has_tile;

verus! {

// ---------------------------------------------------------------------------
// Typing
// ---------------------------------------------------------------------------

/// The on-screen keyboard: the cursor's cell, what was typed, and whether it was
/// asked.
pub struct Board {
    pub row: int,
    pub col: int,
    pub typed: Seq<u8>,
    pub asked: bool,
}

/// What a button does on the keyboard: down, up, right and left move the cursor, A
/// types the cell of its row of eleven, Start asks.
pub open spec fn pressed(b: Board, button: u8) -> Board {
    if button == 0x20 {
        Board { row: b.row + 1, ..b }
    } else if button == 0x10 {
        Board { row: b.row - 1, ..b }
    } else if button == 0x80 {
        Board { col: b.col + 1, ..b }
    } else if button == 0x40 {
        Board { col: b.col - 1, ..b }
    } else if button == 0x01 {
        Board { typed: b.typed.push((b.row * 11 + b.col) as u8), ..b }
    } else if button == 0x08 {
        Board { asked: true, ..b }
    } else {
        b
    }
}

/// The keyboard after some buttons.
pub open spec fn walked(b: Board, buttons: Seq<u8>) -> Board
    decreases buttons.len(),
{
    if buttons.len() == 0 {
        b
    } else {
        pressed(walked(b, buttons.drop_last()), buttons.last())
    }
}

proof fn lemma_walked_joined(b: Board, x: Seq<u8>, y: Seq<u8>)
    ensures
        walked(b, x + y) == walked(walked(b, x), y),
    decreases y.len(),
{
    if y.len() == 0 {
        assert(x + y =~= x);
    } else {
        lemma_walked_joined(b, x, y.drop_last());
        assert((x + y).drop_last() =~= x + y.drop_last());
        assert((x + y).last() == y.last());
    }
}

proof fn lemma_walked_times(b: Board, n: nat, button: u8)
    ensures
        walked(b, Seq::new(n, |i: int| button)) == (if button == 0x20 {
            Board { row: b.row + n, ..b }
        } else if button == 0x10 {
            Board { row: b.row - n, ..b }
        } else if button == 0x80 {
            Board { col: b.col + n, ..b }
        } else if button == 0x40 {
            Board { col: b.col - n, ..b }
        } else {
            walked(b, Seq::new(n, |i: int| button))
        }),
    decreases n,
{
    let s = Seq::new(n, |i: int| button);
    if n > 0 {
        let m = (n - 1) as nat;
        lemma_walked_times(b, m, button);
        assert(s.drop_last() =~= Seq::new(m, |i: int| button));
    }
}

proof fn lemma_walked_path(b: Board, id: u8)
    ensures
        walked(b, key_path(b.row, b.col, id)) == (Board {
            row: id as int / 11,
            col: id as int % 11,
            typed: b.typed.push(id),
            ..b
        }),
{
    let (r, c) = (id as int / 11, id as int % 11);
    let v = moves(b.row, r, 0x20, 0x10);
    let h = moves(b.col, c, 0x80, 0x40);
    let a = seq![0x01u8];
    lemma_walked_joined(b, v + h, a);
    lemma_walked_joined(b, v, h);
    if b.row <= r {
        lemma_walked_times(b, (r - b.row) as nat, 0x20);
    } else {
        lemma_walked_times(b, (b.row - r) as nat, 0x10);
    }
    let b1 = walked(b, v);
    assert(b1 == (Board { row: r, ..b }));
    if b.col <= c {
        lemma_walked_times(b1, (c - b.col) as nat, 0x80);
    } else {
        lemma_walked_times(b1, (b.col - c) as nat, 0x40);
    }
    let b2 = walked(b1, h);
    assert(b2 == (Board { row: r, col: c, ..b }));
    assert(a.drop_last() =~= Seq::<u8>::empty());
    assert(walked(b2, a) == pressed(b2, 0x01)) by {
        reveal_with_fuel(walked, 2);
    }
    assert(r * 11 + c == id);
}

/// The presses that type some characters do type them, and leave the cursor on the
/// last one.
pub proof fn law_strokes_type(b: Board, ids: Seq<u8>)
    ensures
        walked(b, key_strokes(ids, b.row, b.col)) == (Board {
            row: cursor_after(ids, b.row, b.col).0,
            col: cursor_after(ids, b.row, b.col).1,
            typed: b.typed + ids,
            ..b
        }),
        ids.len() > 0 ==> cursor_after(ids, b.row, b.col).0 * 11 + cursor_after(
            ids,
            b.row,
            b.col,
        ).1 == ids.last() && 0 <= cursor_after(ids, b.row, b.col).1 < 11,
        ids.len() == 0 ==> cursor_after(ids, b.row, b.col) == (b.row, b.col),
    decreases ids.len(),
{
    if ids.len() == 0 {
        assert(b.typed + ids =~= b.typed);
    } else {
        let rest = ids.drop_last();
        law_strokes_type(b, rest);
        let (r, c) = cursor_after(rest, b.row, b.col);
        let before = key_strokes(rest, b.row, b.col);
        let path = key_path(r, c, ids.last());
        lemma_walked_joined(b, before, path);
        lemma_walked_path(walked(b, before), ids.last());
        assert((b.typed + rest).push(ids.last()) =~= b.typed + ids);
    }
}

/// Asking a text types its ids and then presses Start, which it does nowhere else.
pub proof fn law_ask_types(b: Board, text: Seq<char>)
    requires
        !b.asked,
    ensures
        ({
            let strokes = ask_strokes(text, b.row, b.col);
            let done = walked(b, strokes);
            &&& done.typed == b.typed + ids_of(text)
            &&& done.asked
            &&& !walked(b, strokes.drop_last()).asked
            &&& strokes.last() == 0x08
        }),
{
    let keys = key_strokes(ids_of(text), b.row, b.col);
    law_strokes_type(b, ids_of(text));
    assert(keys.push(0x08).drop_last() =~= keys);
}

/// The way to a character: as many presses down or up as there are rows between, then
/// as many to the right or left as there are columns, then A.
pub proof fn law_key_path(row: int, col: int, id: u8, i: int)
    ensures
        ({
            let (r, c) = (id as int / 11, id as int % 11);
            let down = if r >= row { r - row } else { row - r };
            let across = if c >= col { c - col } else { col - c };
            let path = key_path(row, col, id);
            &&& path.len() == down + across + 1
            &&& 0 <= i < down ==> path[i] == (if r >= row { 0x20u8 } else { 0x10u8 })
            &&& down <= i < down + across ==> path[i] == (if c >= col { 0x80u8 } else { 0x40u8 })
            &&& path.last() == 0x01
        }),
{
}

/// A button is held for two frames and released for two, one button behind the other.
pub proof fn law_taps(buttons: Seq<u8>, i: int)
    ensures
        taps(buttons).len() == 4 * buttons.len(),
        0 <= i < buttons.len() ==> taps(buttons)[4 * i] == buttons[i] && taps(buttons)[4 * i + 1]
            == buttons[i] && taps(buttons)[4 * i + 2] == 0 && taps(buttons)[4 * i + 3] == 0,
        taps(seq![]).len() == 0,
    decreases buttons.len(),
{
    if buttons.len() > 0 {
        let rest = buttons.drop_last();
        law_taps(rest, i);
        let t = taps(buttons);
        if 0 <= i < rest.len() {
            assert(t[4 * i] == taps(rest)[4 * i] && t[4 * i + 1] == taps(rest)[4 * i + 1]);
            assert(t[4 * i + 2] == taps(rest)[4 * i + 2] && t[4 * i + 3] == taps(rest)[4 * i + 3]);
        }
    }
}

// ---------------------------------------------------------------------------
// Frames
// ---------------------------------------------------------------------------

/// A console with other buttons held and nothing else changed.
pub open spec fn holds(s: NesState, t: NesState, buttons: u8) -> bool {
    &&& t.cpu == s.cpu && t.frame == s.frame && t.cycle == s.cycle
    &&& t.bus.buttons == buttons
    &&& t.bus.ram == s.bus.ram && t.bus.prg == s.bus.prg && t.bus.prg_bank == s.bus.prg_bank
    &&& t.bus.vram == s.bus.vram && t.bus.palette == s.bus.palette && t.bus.exram == s.bus.exram
    &&& t.bus.ppu_ctrl == s.bus.ppu_ctrl && t.bus.ppu_status == s.bus.ppu_status
    &&& t.bus.ppu_addr == s.bus.ppu_addr && t.bus.ppu_latch_hi == s.bus.ppu_latch_hi
    &&& t.bus.strobe == s.bus.strobe && t.bus.shift == s.bus.shift
}

/// One frame with these buttons held, from a console to another.
pub open spec fn frame_held(s: NesState, buttons: u8, end: NesState, ok: bool) -> bool {
    exists|t: NesState| #[trigger] holds(s, t, buttons) && frame_of(t) == (end, ok)
}

/// Frames run one behind the other, each with the buttons of the tape.
pub open spec fn plays(states: Seq<NesState>, tape: Seq<u8>, n: int) -> bool {
    &&& states.len() == n + 1
    &&& forall|i: int|
        0 <= i < n ==> frame_held(#[trigger] states[i], tape[i], states[i + 1], true)
}

#[verifier::rlimit(60)]
proof fn lemma_plays(s: NesState, tape: Seq<u8>) -> (states: Seq<NesState>)
    ensures
        states.len() > 0,
        states[0] == s,
        states.len() <= tape.len() + 1,
        plays(states, tape, states.len() - 1),
        play_of(s, tape).1 ==> states.len() == tape.len() + 1 && states.last() == play_of(s, tape).0,
        !play_of(s, tape).1 ==> states.len() <= tape.len() && frame_held(
            states.last(),
            tape[states.len() - 1],
            play_of(s, tape).0,
            false,
        ),
    decreases tape.len(),
{
    if tape.len() == 0 {
        seq![s]
    } else {
        let rest = tape.drop_last();
        let states = lemma_plays(s, rest);
        assert forall|i: int| 0 <= i < states.len() - 1 implies frame_held(
            #[trigger] states[i],
            tape[i],
            states[i + 1],
            true,
        ) by {
            assert(rest[i] == tape[i]);
        }
        let (before, ok) = play_of(s, rest);
        if ok {
            let t = with_buttons(before, tape.last());
            assert(holds(before, t, tape.last()));
            let (end, fine) = frame_of(t);
            assert(frame_held(before, tape.last(), end, fine));
            if fine {
                let all = states.push(end);
                assert forall|i: int| 0 <= i < all.len() - 1 implies frame_held(
                    #[trigger] all[i],
                    tape[i],
                    all[i + 1],
                    true,
                ) by {
                    assert(all[i] == states[i]);
                    if i < states.len() - 1 {
                        assert(all[i + 1] == states[i + 1]);
                    } else {
                        assert(states[i] == before);
                    }
                }
                all
            } else {
                states
            }
        } else {
            assert(rest[states.len() - 1] == tape[states.len() - 1]);
            states
        }
    }
}

/// A tape is played frame by frame, each with its buttons held, up to its end or to
/// the first frame that stops.
pub proof fn law_tape_played(s: NesState, tape: Seq<u8>)
    ensures
        exists|states: Seq<NesState>|
            #![trigger states.last()]
            states.len() > 0 && states[0] == s && plays(states, tape, states.len() - 1) && (
            if play_of(s, tape).1 {
                states.len() == tape.len() + 1 && states.last() == play_of(s, tape).0
            } else {
                states.len() <= tape.len() && frame_held(
                    states.last(),
                    tape[states.len() - 1],
                    play_of(s, tape).0,
                    false,
                )
            }),
{
    let states = lemma_plays(s, tape);
    let last = states.last();
}

/// A tape without buttons.
pub proof fn law_still(frames: nat, i: int)
    ensures
        still(frames).len() == frames,
        0 <= i < frames ==> still(frames)[i] == 0,
{
}

/// Frames run one behind the other while the answer is not done and the frame counter
/// has not reached a limit.
pub open spec fn waits(states: Seq<NesState>, until: int) -> bool {
    &&& states.len() > 0
    &&& forall|i: int, j: int|
        0 <= i && j == i + 1 && j < states.len() ==> goes_on_waiting(
            #[trigger] states[i],
            #[trigger] states[j],
            until,
        )
}

/// A frame run because the answer is not done and there is time left.
pub open spec fn goes_on_waiting(a: NesState, b: NesState, until: int) -> bool {
    a.frame < until && a.bus.ram[2032] != 2 && frame_of(a) == (b, true)
}

/// A frame before others.
proof fn lemma_waits_longer(s: NesState, rest: Seq<NesState>, until: int)
    requires
        waits(rest, until),
        s.frame < until,
        s.bus.ram[2032] != 2,
        frame_of(s) == (rest[0], true),
    ensures
        waits(seq![s] + rest, until),
        (seq![s] + rest).last() == rest.last(),
{
    let all = seq![s] + rest;
    assert forall|i: int, j: int| 0 <= i && j == i + 1 && j < all.len() implies goes_on_waiting(
        #[trigger] all[i],
        #[trigger] all[j],
        until,
    ) by {
        if i > 0 {
            assert(all[i] == rest[i - 1] && all[j] == rest[j - 1]);
        } else {
            assert(all[i] == s && all[j] == rest[0]);
        }
    }
    assert(all.last() == rest[rest.len() - 1]);
}

#[verifier::rlimit(60)]
proof fn lemma_waits(s: NesState, until: int) -> (states: Seq<NesState>)
    ensures
        waits(states, until),
        states[0] == s,
        wait_of(s, until).1 ==> states.last() == wait_of(s, until).0 && (states.last().frame >= until
            || states.last().bus.ram[2032] == 2),
        !wait_of(s, until).1 ==> states.last().frame < until && states.last().bus.ram[2032] != 2
            && frame_of(states.last()) == (wait_of(s, until).0, false),
    decreases until - s.frame,
{
    if s.frame >= until || s.bus.ram[2032] == 2 {
        seq![s]
    } else {
        lemma_frame_counted(s);
        let (next, ok) = frame_of(s);
        if ok {
            let rest = lemma_waits(next, until);
            lemma_waits_longer(s, rest, until);
            seq![s] + rest
        } else {
            seq![s]
        }
    }
}

/// Waiting runs frames until the status byte at $07F0 says done or the frame counter
/// reaches the limit, whichever comes first, or a frame stops.
pub proof fn law_waits(s: NesState, until: int)
    ensures
        exists|states: Seq<NesState>|
            #![trigger waits(states, until)]
            waits(states, until) && states[0] == s && (if wait_of(s, until).1 {
                states.last() == wait_of(s, until).0 && (states.last().frame >= until
                    || states.last().bus.ram[2032] == 2)
            } else {
                states.last().frame < until && states.last().bus.ram[2032] != 2 && frame_of(
                    states.last(),
                ) == (wait_of(s, until).0, false)
            }),
{
    let states = lemma_waits(s, until);
}

// ---------------------------------------------------------------------------
// Reports
// ---------------------------------------------------------------------------

/// Where the report stands in RAM: the words from $0300 on, as many as the byte at
/// $07F1 says, and the rest from $07F0 to $07F8.
pub proof fn law_report_places(ram: Seq<u8>, i: int)
    requires
        ram.len() == 2048,
    ensures
        report_of(ram).status == ram[0x07F0],
        report_of(ram).count == ram[0x07F1],
        report_of(ram).budget == ram[0x07F3],
        report_of(ram).reason == ram[0x07F4],
        report_of(ram).level == ram[0x07F5],
        report_of(ram).tone == ram[0x07F6],
        report_of(ram).bank_switches == ram[0x07F7],
        report_of(ram).mode == ram[0x07F8],
        report_of(ram).words.len() == ram[0x07F1],
        0 <= i < ram[0x07F1] ==> report_of(ram).words[i] == ram[0x0300 + i],
{
}

/// A report matches an answer only if it is done, has 6 to 32 words, all of the
/// vocabulary, and is the same in every word, in reason, level and tone.
pub proof fn law_parity(r: ReportView, t: TraceView, n_words: int)
    requires
        r.words.len() == r.count,
    ensures
        trace_parity_of(r, t, n_words) <==> {
            &&& r.status == 2
            &&& 6 <= r.count <= 32
            &&& r.count == t.words.len()
            &&& forall|i: int|
                0 <= i < t.words.len() ==> r.words[i] == #[trigger] t.words[i] && t.words[i] < n_words
            &&& r.reason == t.reason
            &&& r.level == t.gen_level_max
            &&& r.tone == t.tone
        },
        parity_of(r, t.words, t.reason, t.gen_level_max, tone_text(t.tone), n_words) <==> {
            &&& r.status == 2
            &&& 6 <= r.count <= 32
            &&& r.count == t.words.len()
            &&& forall|i: int|
                0 <= i < t.words.len() ==> r.words[i] == #[trigger] t.words[i] && t.words[i] < n_words
            &&& r.reason == t.reason
            &&& r.level == t.gen_level_max
            &&& tone_text(r.tone) == tone_text(t.tone)
        },
{
    if r.count == t.words.len() && (forall|i: int|
        0 <= i < t.words.len() ==> r.words[i] == #[trigger] t.words[i] && t.words[i] < n_words) {
        assert(r.words =~= t.words);
    }
}

/// A reference fits only the model, the corpus and the question it was made for; the
/// first that differs is named.
pub proof fn law_reference(
    a: (Seq<char>, Seq<char>, Seq<char>),
    b: (Seq<char>, Seq<char>, Seq<char>),
)
    ensures
        ({
            let out = reference_mismatch_of(a.0, a.1, a.2, b.0, b.1, b.2);
            &&& out is None <==> a == b
            &&& out == Some(RefMismatch::Model) <==> a.0 != b.0
            &&& out == Some(RefMismatch::Corpus) <==> a.0 == b.0 && a.1 != b.1
            &&& out == Some(RefMismatch::Question) <==> a.0 == b.0 && a.1 == b.1 && a.2 != b.2
        }),
{
}

/// A code counts by its low byte; a missing one is 99.
pub proof fn law_reference_byte(n: u64)
    ensures
        reference_byte(Some(n)) as int == n as int % 256,
        reference_byte(None) == 99,
{
}

/// A ROM holds a model only if it is a mebibyte that starts with the trigram table and
/// has the bigram table 126 banks of 8 KiB into it.
pub proof fn law_rom_holds_model(prg: Seq<u8>, m: ModelView)
    requires
        m.tri.len() == 1_015_808,
        m.bi.len() == 3968,
    ensures
        prg.len() != 1_048_576 <==> rom_mismatch_of(prg, m) == Some(RomMismatch::Size),
        prg.len() == 1_048_576 ==> (rom_mismatch_of(prg, m) == Some(RomMismatch::Trigram) <==> exists|
            i: int,
        | 0 <= i < 1_015_808 && prg[i] != #[trigger] m.tri[i]),
        rom_mismatch_of(prg, m) is None <==> prg.len() == 1_048_576 && (forall|i: int|
            0 <= i < 1_015_808 ==> prg[i] == #[trigger] m.tri[i]) && (forall|i: int|
            0 <= i < 3968 ==> prg[126 * 8192 + i] == #[trigger] m.bi[i]),
{
    if prg.len() == 1_048_576 {
        let t = prg.take(1_015_808);
        let b = prg.subrange(1_032_192, 1_036_160);
        assert forall|i: int| 0 <= i < 1_015_808 implies #[trigger] t[i] == prg[i] by {}
        assert forall|i: int| 0 <= i < 3968 implies #[trigger] b[i] == prg[126 * 8192 + i] by {}
        if t != m.tri {
            assert(!(t =~= m.tri));
            let i = choose|i: int| 0 <= i < 1_015_808 && t[i] != m.tri[i];
            assert(prg[i] != m.tri[i]);
        }
        if b != m.bi {
            assert(!(b =~= m.bi));
            let i = choose|i: int| 0 <= i < 3968 && b[i] != m.bi[i];
            assert(prg[126 * 8192 + i] != m.bi[i]);
        }
    }
}

/// A question on a running console: typed and asked, waited for at most 8000 frames
/// from its start, the report read, then B and eight frames without a button. It
/// passes if the report matches the answer to the text.
#[verifier::rlimit(60)]
pub proof fn law_question(m: ModelView, s: NesState, row: int, col: int, text: Seq<char>)
    ensures
        match question_of(m, s, row, col, text) {
            Some((back, out)) => {
                let asked = play_of(s, taps(ask_strokes(text, row, col)));
                let waited = wait_of(asked.0, s.frame + 8000);
                let left = play_of(waited.0, seq![0x02u8, 0x02u8, 0u8, 0u8]);
                &&& asked.1 && waited.1 && left.1
                &&& out.trace == answer_of(m, text)
                &&& out.report == report_of(waited.0.bus.ram)
                &&& out.frames == waited.0.frame - s.frame
                &&& out.pass == trace_parity_of(out.report, out.trace, m.words.len() as int)
                &&& exists|rest: NesState, tape: Seq<u8>|
                    #![trigger holds(left.0, rest, 0), tape.len()]
                    holds(left.0, rest, 0) && tape.len() == 8 && (forall|i: int|
                        0 <= i < 8 ==> #[trigger] tape[i] == 0) && play_of(rest, tape) == (back, true)
            },
            None => true,
        },
{
    assert(tap(0x02u8) =~= seq![0x02u8, 0x02u8, 0u8, 0u8]);
    let asked = play_of(s, taps(ask_strokes(text, row, col)));
    let waited = wait_of(asked.0, s.frame + 8000);
    let left = play_of(waited.0, tap(0x02));
    let rest = with_buttons(left.0, 0);
    assert(holds(left.0, rest, 0));
    assert(still(8).len() == 8);
}

/// The names that reports are told by.
pub proof fn law_mode_names(mode: u8)
    ensures
        mode == 1 ==> mode_text(mode) == "MMC5_MAX"@,
        mode != 1 ==> mode_text(mode) == "PURE_6502"@,
{
}

/// The names of tones, ladder levels and route reasons, by their codes.
pub proof fn law_code_names(c: u8)
    ensures
        c == 0 ==> tone_text(c) == "NORMAL"@ && level_text(c) == "TRIGRAM"@ && reason_text(c)
            == "EXACT"@,
        c == 1 ==> tone_text(c) == "EMPTY"@ && level_text(c) == "BIGRAM"@ && reason_text(c)
            == "ROUTED_QTYPE_TOPIC"@,
        c == 2 ==> tone_text(c) == "NONSENSE"@ && level_text(c) == "TOPIC_PRIOR"@ && reason_text(c)
            == "ROUTED_TOPIC"@,
        c == 3 ==> tone_text(c) == "GREETING"@ && level_text(c) == "QTYPE_PRIOR"@ && reason_text(c)
            == "ROUTED_QTYPE"@,
        c == 4 ==> tone_text(c) == "TECHNICAL"@ && level_text(c) == "GLOBAL_PRIOR"@ && reason_text(c)
            == "FALLBACK"@,
        c == 5 ==> tone_text(c) == "?"@ && level_text(c) == "NEURAL"@ && reason_text(c)
            == "EMERGENCY"@,
        c > 5 ==> tone_text(c) == "?"@ && level_text(c) == "?"@ && reason_text(c) == "?"@,
{
}

// ---------------------------------------------------------------------------
// The terminal
// ---------------------------------------------------------------------------

/// Keys at the terminal: Return and line feed press Start, Backspace and Delete press
/// B, Ctrl-C and Esc quit and press nothing.
pub proof fn law_control_keys(k: KeypadView, key: u8, status: u8)
    ensures
        ({
            let (n, quit) = key_of(k, key, status);
            &&& key == 13 || key == 10 ==> n.presses == k.presses + seq![8u8, 8u8, 0u8, 0u8] && n.row
                == k.row && n.col == k.col && !quit
            &&& key == 127 || key == 8 ==> n.presses == k.presses + seq![2u8, 2u8, 0u8, 0u8] && !quit
            &&& (key == 127 || key == 8) && status == 2 ==> n.row == 0 && n.col == 0
            &&& (key == 127 || key == 8) && status != 2 ==> n.row == k.row && n.col == k.col
            &&& key == 3 || key == 27 ==> n == k
            &&& quit <==> key == 3 || key == 27
        }),
{
}

/// A key with a tile is typed while the chat screen takes input, and does nothing at
/// other times; a key without one does nothing.
pub proof fn law_typing_keys(k: KeypadView, key: u8, status: u8, id: u8, b: Board)
    requires
        key != 13 && key != 10 && key != 127 && key != 8 && key != 3 && key != 27,
        b.row == k.row && b.col == k.col,
    ensures
        status != 0 ==> key_of(k, key, status) == (k, false),
        id > 0 && has_tile(key as char, id as int) && status == 0 ==> ({
            let (n, quit) = key_of(k, key, status);
            &&& !quit
            &&& exists|strokes: Seq<u8>|
                #![trigger taps(strokes)]
                n.presses == k.presses + taps(strokes) && walked(b, strokes) == (Board {
                    row: n.row,
                    col: n.col,
                    typed: b.typed.push(id),
                    ..b
                })
        }),
        key > 32 && (forall|i: int| 0 <= i < 43 ==> !#[trigger] has_tile(key as char, i)) ==> key_of(
            k,
            key,
            status,
        ) == (k, false),
{
    let c = upper(key as char);
    lemma_alphabet();
    lemma_char_id(c);
    if id > 0 && has_tile(key as char, id as int) {
        assert(tile_char(id as int) == c);
        assert(VOCAB@[id as int] == c);
        assert(char_id(c) == Some(id));
        lemma_walked_path(b, id);
        let strokes = key_path(k.row, k.col, id);
        if status == 0 {
            assert(key_of(k, key, status).0.presses == k.presses + taps(strokes));
        }
    }
    if key > 32 && (forall|i: int| 0 <= i < 43 ==> !#[trigger] has_tile(key as char, i)) {
        if let Some(i) = char_id(c) {
            assert(VOCAB@[i as int] == tile_char(i as int));
            if i == 0 {
                assert(c == ' ');
            }
            assert(has_tile(key as char, i as int));
        }
    }
}

/// Keys in a row do what each does in turn, and quit if one of them quits.
pub proof fn law_keys_in_turn(k: KeypadView, a: Seq<u8>, b: Seq<u8>, status: u8)
    ensures
        keys_of(k, seq![], status) == (k, false),
        a.len() == 1 ==> keys_of(k, a, status) == key_of(k, a[0], status),
        keys_of(k, a + b, status).0 == keys_of(keys_of(k, a, status).0, b, status).0,
        keys_of(k, a + b, status).1 == (keys_of(k, a, status).1 || keys_of(
            keys_of(k, a, status).0,
            b,
            status,
        ).1),
    decreases b.len(),
{
    if a.len() == 1 {
        assert(a.drop_last() =~= Seq::<u8>::empty());
        reveal_with_fuel(keys_of, 2);
    }
    if b.len() == 0 {
        assert(a + b =~= a);
    } else {
        law_keys_in_turn(k, a, b.drop_last(), status);
        assert((a + b).drop_last() =~= a + b.drop_last());
        assert((a + b).last() == b.last());
    }
}

/// A piped session is over when all input was read and all buttons were pressed, and
/// the answer is done or more than 20000 frames have passed; one at a terminal never.
pub proof fn law_session_over(is_tty: bool, eof: bool, k: KeypadView, status: u8, frame: u64)
    ensures
        is_tty ==> !session_over(is_tty, eof, k, status, frame),
        !eof ==> !session_over(is_tty, eof, k, status, frame),
        k.presses.len() > 0 ==> !session_over(is_tty, eof, k, status, frame),
        !is_tty && eof && k.presses.len() == 0 && status == 2 ==> session_over(
            is_tty,
            eof,
            k,
            status,
            frame,
        ),
        !is_tty && eof && k.presses.len() == 0 && status != 2 ==> (session_over(
            is_tty,
            eof,
            k,
            status,
            frame,
        ) <==> frame > 20000),
{
}

/// A boxed line has a side at each end, and is filled up to the width of the box.
pub proof fn law_boxed_line(line: Seq<char>, i: int)
    ensures
        ({
            let width = if line.len() < 32 {
                32
            } else {
                line.len() as int
            };
            let out = boxed_line(line);
            &&& out.len() == width + 3
            &&& out[0] == '│' && out[width + 1] == '│' && out[width + 2] == '\n'
            &&& 0 <= i < line.len() ==> out[1 + i] == line[i]
            &&& line.len() <= i < width ==> out[1 + i] == ' '
        }),
{
}

/// The top and the bottom of the box are as wide as its lines.
pub proof fn law_border(left: char, right: char, i: int)
    ensures
        border(left, right).len() == 35,
        border(left, right)[0] == left,
        border(left, right)[33] == right,
        border(left, right)[34] == '\n',
        1 <= i <= 32 ==> border(left, right)[i] == '─',
{
}

/// A screen in its box: the top, its lines one below the other, the bottom.
pub proof fn law_boxed_screen(screen: Seq<char>, lines: Seq<Seq<char>>, n: int)
    requires
        0 <= n < lines.len(),
    ensures
        boxed_screen(screen) == border('┌', '┐') + boxed_lines(
            lines_of(screen),
            lines_of(screen).len() as int,
        ) + border('└', '┘'),
        boxed_lines(lines, 0).len() == 0,
        boxed_lines(lines, n + 1) == boxed_lines(lines, n) + boxed_line(lines[n]),
{
}

/// What the player is told.
pub proof fn law_hints(status: u8)
    ensures
        status == 0 ==> hint_text(status)
            == "type your question, ENTER asks, BACKSPACE deletes, CTRL-C quits"@,
        status == 1 ==> hint_text(status) == "the 6502 is generating..."@,
        status > 1 ==> hint_text(status) == "done — BACKSPACE for a new question, CTRL-C quits"@,
{
}

} // verus!
