//! Scripted controller input: typing on the program's 4x11 on-screen keyboard
//! (cell index == character id) through the real $4016 protocol.

use vstd::prelude::*;
use crate::nes::{
    frame_of, nes_sound, BusState, Nes, NesState, BTN_A, BTN_DOWN, BTN_LEFT, BTN_RIGHT, BTN_START,
    BTN_UP,
};
use crate::text::{char_ids, ids_of, law_ids_range, N_CHARS};

verus! {

/// Columns of the on-screen keyboard.
pub const KB_COLS: u8 = 11;

// ---------------------------------------------------------------------------
// Button tapes
// ---------------------------------------------------------------------------

/// The console with these buttons held.
pub open spec fn with_buttons(s: NesState, buttons: u8) -> NesState {
    NesState { bus: BusState { buttons, ..s.bus }, ..s }
}

/// Plays a tape that gives the buttons of each frame: the console afterwards,
/// and whether every frame ran to its end.
pub open spec fn play_of(s: NesState, tape: Seq<u8>) -> (NesState, bool)
    decreases tape.len(),
{
    if tape.len() == 0 {
        (s, true)
    } else {
        let (before, ok) = play_of(s, tape.drop_last());
        if ok {
            frame_of(with_buttons(before, tape.last()))
        } else {
            (before, false)
        }
    }
}

/// One press: two frames held, two released.
pub open spec fn tap(button: u8) -> Seq<u8> {
    seq![button, button, 0u8, 0u8]
}

/// A press of each of some buttons.
pub open spec fn taps(buttons: Seq<u8>) -> Seq<u8>
    decreases buttons.len(),
{
    if buttons.len() == 0 {
        seq![]
    } else {
        taps(buttons.drop_last()) + tap(buttons.last())
    }
}

/// A tape of frames without any button.
pub open spec fn still(frames: nat) -> Seq<u8> {
    Seq::new(frames, |i: int| 0u8)
}

/// Playing two tapes in a row is playing the first and then the second.
pub proof fn law_play_concat(s: NesState, first: Seq<u8>, second: Seq<u8>)
    ensures
        play_of(s, first + second) == if play_of(s, first).1 {
            play_of(play_of(s, first).0, second)
        } else {
            play_of(s, first)
        },
    decreases second.len(),
{
    if second.len() == 0 {
        assert(first + second == first);
    } else {
        law_play_concat(s, first, second.drop_last());
        assert((first + second).drop_last() == first + second.drop_last());
        assert((first + second).last() == second.last());
    }
}

// ---------------------------------------------------------------------------
// The typing grid
// ---------------------------------------------------------------------------

/// The presses that move one coordinate of the cursor.
pub open spec fn moves(from: int, to: int, forth: u8, back: u8) -> Seq<u8> {
    if from <= to {
        Seq::new((to - from) as nat, |i: int| forth)
    } else {
        Seq::new((from - to) as nat, |i: int| back)
    }
}

/// The presses that bring the cursor from a cell to a character and type it:
/// first the row, then the column, then A.
pub open spec fn key_path(row: int, col: int, id: u8) -> Seq<u8> {
    moves(row, id as int / 11, BTN_DOWN, BTN_UP) + moves(col, id as int % 11, BTN_RIGHT, BTN_LEFT)
        + seq![BTN_A]
}

/// Where the cursor stands after typing: on the last character typed.
pub open spec fn cursor_after(ids: Seq<u8>, row: int, col: int) -> (int, int) {
    if ids.len() == 0 {
        (row, col)
    } else {
        (ids.last() as int / 11, ids.last() as int % 11)
    }
}

/// The presses that type some characters.
pub open spec fn key_strokes(ids: Seq<u8>, row: int, col: int) -> Seq<u8>
    decreases ids.len(),
{
    if ids.len() == 0 {
        seq![]
    } else {
        let (r, c) = cursor_after(ids.drop_last(), row, col);
        key_strokes(ids.drop_last(), row, col) + key_path(r, c, ids.last())
    }
}

/// The presses that type a text and ask.
pub open spec fn ask_strokes(text: Seq<char>, row: int, col: int) -> Seq<u8> {
    key_strokes(ids_of(text), row, col).push(BTN_START)
}

/// Cells of the grid.
pub open spec fn on_grid(row: int, col: int) -> bool {
    0 <= row < 24 && 0 <= col < 11
}

/// Typing a character takes at most 14 presses, from a cell of the first four
/// rows: a text of n characters and Start take at most 14 n + 1.
pub proof fn law_stroke_count(text: Seq<char>, row: int, col: int)
    requires
        0 <= row < 4,
        0 <= col < 11,
    ensures
        ask_strokes(text, row, col).len() <= 14 * text.len() + 1,
{
    law_ids_range(text);
    lemma_key_strokes(ids_of(text), row, col);
}

proof fn lemma_key_strokes(ids: Seq<u8>, row: int, col: int)
    requires
        0 <= row < 4,
        0 <= col < 11,
        forall|i: int| 0 <= i < ids.len() ==> #[trigger] ids[i] < N_CHARS,
    ensures
        key_strokes(ids, row, col).len() <= 14 * ids.len(),
        0 <= cursor_after(ids, row, col).0 < 4,
        0 <= cursor_after(ids, row, col).1 < 11,
    decreases ids.len(),
{
    if ids.len() > 0 {
        let rest = ids.drop_last();
        assert forall|i: int| 0 <= i < rest.len() implies #[trigger] rest[i] < N_CHARS by {
            assert(rest[i] == ids[i]);
        }
        lemma_key_strokes(rest, row, col);
        assert(ids[ids.len() - 1] < N_CHARS);
    }
}

fn push_moves(keys: &mut Vec<u8>, from: i32, to: i32, forth: u8, back: u8)
    requires
        0 <= from < 24,
        0 <= to < 24,
    ensures
        final(keys)@ == old(keys)@ + moves(from as int, to as int, forth, back),
{
    let ghost start = keys@;
    let mut at: i32 = from;
    while at != to
        invariant
            0 <= from < 24,
            0 <= to < 24,
            from <= at <= to || to <= at <= from,
            keys@ == start + moves(from as int, at as int, forth, back),
        decreases
            (if at < to {
                to - at
            } else {
                at - to
            }),
    {
        let ghost before = at as int;
        if at < to {
            keys.push(forth);
            at = at + 1;
            assert(moves(from as int, at as int, forth, back) == moves(
                from as int,
                before,
                forth,
                back,
            ).push(forth));
        } else {
            keys.push(back);
            at = at - 1;
            assert(moves(from as int, at as int, forth, back) == moves(
                from as int,
                before,
                forth,
                back,
            ).push(back));
        }
    }
}

/// Appends the presses that type one character with the cursor on a cell.
pub fn push_key_path(keys: &mut Vec<u8>, row: i32, col: i32, id: u8)
    requires
        on_grid(row as int, col as int),
    ensures
        final(keys)@ == old(keys)@ + key_path(row as int, col as int, id),
{
    push_moves(keys, row, id as i32 / 11, BTN_DOWN, BTN_UP);
    push_moves(keys, col, id as i32 % 11, BTN_RIGHT, BTN_LEFT);
    keys.push(BTN_A);
    assert(keys@ =~= old(keys)@ + key_path(row as int, col as int, id));
}

/// The presses that type some characters.
pub fn plan_keys(ids: &[u8], row: i32, col: i32) -> (keys: Vec<u8>)
    requires
        on_grid(row as int, col as int),
    ensures
        keys@ == key_strokes(ids@, row as int, col as int),
{
    let mut keys: Vec<u8> = Vec::new();
    let mut r: i32 = row;
    let mut c: i32 = col;
    let mut i: usize = 0;
    while i < ids.len()
        invariant
            i <= ids.len(),
            on_grid(r as int, c as int),
            (r as int, c as int) == cursor_after(ids@.take(i as int), row as int, col as int),
            keys@ == key_strokes(ids@.take(i as int), row as int, col as int),
        decreases ids.len() - i,
    {
        assert(ids@.take(i + 1).drop_last() == ids@.take(i as int));
        push_key_path(&mut keys, r, c, ids[i]);
        r = ids[i] as i32 / 11;
        c = ids[i] as i32 % 11;
        i = i + 1;
    }
    assert(ids@.take(i as int) == ids@);
    keys
}

// ---------------------------------------------------------------------------
// The scripted driver
// ---------------------------------------------------------------------------

/// A console with scripted controller input and the tracked grid cursor.
pub struct Driver {
    pub nes: Nes,
    pub kb_row: i32,
    pub kb_col: i32,
}

impl Driver {
    /// The console is sound and the cursor on the grid.
    pub open spec fn sound(self) -> bool {
        nes_sound(self.nes@) && on_grid(self.kb_row as int, self.kb_col as int)
    }

    /// The cell the cursor is on.
    pub open spec fn cursor(self) -> (int, int) {
        (self.kb_row as int, self.kb_col as int)
    }

    pub fn new(nes: Nes) -> (driver: Driver)
        ensures
            driver.nes == nes,
            driver.cursor() == (0int, 0int),
    {
        Driver { nes, kb_row: 0, kb_col: 0 }
    }

    fn hold(&mut self, buttons: u8) -> (ok: bool)
        requires
            old(self).sound(),
            old(self).nes.frame < u64::MAX,
        ensures
            final(self).sound(),
            final(self).cursor() == old(self).cursor(),
            (final(self).nes@, ok) == frame_of(with_buttons(old(self).nes@, buttons)),
            final(self).nes.frame == old(self).nes.frame + if ok {
                1int
            } else {
                0int
            },
    {
        self.nes.bus.buttons = buttons;
        self.nes.try_run_frame()
    }

    /// Presses buttons for two frames and releases them for two; says whether
    /// all four frames ran to their end.
    pub fn try_press(&mut self, buttons: u8) -> (ok: bool)
        requires
            old(self).sound(),
            old(self).nes.frame + 4 <= u64::MAX,
        ensures
            final(self).sound(),
            final(self).cursor() == old(self).cursor(),
            (final(self).nes@, ok) == play_of(old(self).nes@, tap(buttons)),
            old(self).nes.frame <= final(self).nes.frame <= old(self).nes.frame + 4,
    {
        proof {
            reveal_with_fuel(play_of, 5);
            let t = tap(buttons);
            assert(t.drop_last() == seq![buttons, buttons, 0u8]);
            assert(t.drop_last().drop_last() == seq![buttons, buttons]);
            assert(t.drop_last().drop_last().drop_last() == seq![buttons]);
            assert(t.drop_last().drop_last().drop_last().drop_last() == Seq::<u8>::empty());
        }
        self.hold(buttons) && self.hold(buttons) && self.hold(0) && self.hold(0)
    }

    /// Presses buttons; the program must keep to official opcodes.
    pub fn press(&mut self, buttons: u8)
        requires
            old(self).sound(),
            old(self).nes.frame + 4 <= u64::MAX,
            play_of(old(self).nes@, tap(buttons)).1,
        ensures
            final(self).sound(),
            final(self).cursor() == old(self).cursor(),
            final(self).nes@ == play_of(old(self).nes@, tap(buttons)).0,
    {
        let _ = self.try_press(buttons);
    }

    /// Runs frames with no button held; says whether all ran to their end.
    pub fn try_idle(&mut self, frames: u64) -> (ok: bool)
        requires
            old(self).sound(),
            old(self).nes.frame + frames <= u64::MAX,
        ensures
            final(self).sound(),
            final(self).cursor() == old(self).cursor(),
            (final(self).nes@, ok) == play_of(
                with_buttons(old(self).nes@, 0),
                still(frames as nat),
            ),
            old(self).nes.frame <= final(self).nes.frame <= old(self).nes.frame + frames,
    {
        self.nes.bus.buttons = 0;
        let ghost start = with_buttons(old(self).nes@, 0);
        assert(self.nes@ == start);
        let mut i: u64 = 0;
        while i < frames
            invariant
                i <= frames,
                start == with_buttons(old(self).nes@, 0),
                self.sound(),
                self.cursor() == old(self).cursor(),
                self.nes.frame == old(self).nes.frame + i,
                old(self).nes.frame + frames <= u64::MAX,
                (self.nes@, true) == play_of(start, still(i as nat)),
            decreases frames - i,
        {
            assert(still((i + 1) as nat).drop_last() == still(i as nat));
            assert(still((i + 1) as nat).last() == 0u8);
            if !self.hold(0) {
                proof {
                    assert(still(frames as nat) == still((i + 1) as nat) + still(
                        (frames - i - 1) as nat,
                    ));
                    law_play_concat(start, still((i + 1) as nat), still((frames - i - 1) as nat));
                }
                return false;
            }
            i = i + 1;
        }
        true
    }

    /// Runs frames with no button held; the program must keep to official opcodes.
    pub fn idle(&mut self, frames: u64)
        requires
            old(self).sound(),
            old(self).nes.frame + frames <= u64::MAX,
            play_of(with_buttons(old(self).nes@, 0), still(frames as nat)).1,
        ensures
            final(self).sound(),
            final(self).cursor() == old(self).cursor(),
            final(self).nes@ == play_of(
                with_buttons(old(self).nes@, 0),
                still(frames as nat),
            ).0,
    {
        let _ = self.try_idle(frames);
    }

    /// Call after the program returns to the chat screen, which puts the grid
    /// cursor back to the first cell.
    pub fn reset_kb(&mut self)
        ensures
            final(self).nes == old(self).nes,
            final(self).cursor() == (0int, 0int),
    {
        self.kb_row = 0;
        self.kb_col = 0;
    }

    /// Types text on the on-screen keyboard and presses Start; says whether
    /// all frames ran to their end.
    pub fn try_type_and_ask(&mut self, text: &str) -> (ok: bool)
        requires
            old(self).sound(),
            old(self).nes.frame + 4 * ask_strokes(
                text@,
                old(self).kb_row as int,
                old(self).kb_col as int,
            ).len() <= u64::MAX,
        ensures
            final(self).sound(),
            final(self).cursor() == cursor_after(
                ids_of(text@),
                old(self).kb_row as int,
                old(self).kb_col as int,
            ),
            (final(self).nes@, ok) == play_of(
                old(self).nes@,
                taps(ask_strokes(text@, old(self).kb_row as int, old(self).kb_col as int)),
            ),
            old(self).nes.frame <= final(self).nes.frame <= old(self).nes.frame + 4 * ask_strokes(
                text@,
                old(self).kb_row as int,
                old(self).kb_col as int,
            ).len(),
    {
        let ids = char_ids(text);
        let mut keys = plan_keys(&ids, self.kb_row, self.kb_col);
        keys.push(BTN_START);
        if ids.len() > 0 {
            let last = ids[ids.len() - 1];
            self.kb_row = last as i32 / 11;
            self.kb_col = last as i32 % 11;
        }
        let mut i: usize = 0;
        while i < keys.len()
            invariant
                i <= keys.len(),
                keys@ == ask_strokes(text@, old(self).kb_row as int, old(self).kb_col as int),
                self.sound(),
                self.cursor() == cursor_after(
                    ids_of(text@),
                    old(self).kb_row as int,
                    old(self).kb_col as int,
                ),
                old(self).nes.frame <= self.nes.frame <= old(self).nes.frame + 4 * i,
                old(self).nes.frame + 4 * keys@.len() <= u64::MAX,
                (self.nes@, true) == play_of(old(self).nes@, taps(keys@.take(i as int))),
            decreases keys.len() - i,
        {
            let key = keys[i];
            proof {
                lemma_next_tap(old(self).nes@, keys@, i as int);
            }
            if !self.try_press(key) {
                proof {
                    lemma_stopped_tape(old(self).nes@, keys@, i + 1);
                }
                return false;
            }
            i = i + 1;
        }
        assert(keys@.take(i as int) == keys@);
        true
    }

    /// Types text on the on-screen keyboard and presses Start; the program
    /// must keep to official opcodes.
    pub fn type_and_ask(&mut self, text: &str)
        requires
            old(self).sound(),
            old(self).nes.frame + 4 * ask_strokes(
                text@,
                old(self).kb_row as int,
                old(self).kb_col as int,
            ).len() <= u64::MAX,
            play_of(
                old(self).nes@,
                taps(ask_strokes(text@, old(self).kb_row as int, old(self).kb_col as int)),
            ).1,
        ensures
            final(self).sound(),
            final(self).cursor() == cursor_after(
                ids_of(text@),
                old(self).kb_row as int,
                old(self).kb_col as int,
            ),
            final(self).nes@ == play_of(
                old(self).nes@,
                taps(ask_strokes(text@, old(self).kb_row as int, old(self).kb_col as int)),
            ).0,
    {
        let _ = self.try_type_and_ask(text);
    }
}

/// The taps of a run of buttons are those of a prefix and then of the rest.
pub proof fn lemma_taps_prefix(buttons: Seq<u8>, k: int)
    requires
        0 <= k <= buttons.len(),
    ensures
        taps(buttons) == taps(buttons.take(k)) + taps(buttons.skip(k)),
    decreases buttons.len(),
{
    if k == buttons.len() {
        assert(buttons.take(k) == buttons);
        assert(buttons.skip(k) == Seq::<u8>::empty());
        assert(taps(buttons.skip(k)) == Seq::<u8>::empty());
    } else {
        lemma_taps_prefix(buttons.drop_last(), k);
        assert(buttons.drop_last().take(k) == buttons.take(k));
        assert(buttons.drop_last().skip(k) == buttons.skip(k).drop_last());
    }
}

/// One more button is one more press.
proof fn lemma_next_tap(s: NesState, keys: Seq<u8>, i: int)
    requires
        0 <= i < keys.len(),
        play_of(s, taps(keys.take(i))).1,
    ensures
        play_of(s, taps(keys.take(i + 1))) == play_of(
            play_of(s, taps(keys.take(i))).0,
            tap(keys[i]),
        ),
{
    assert(keys.take(i + 1).drop_last() == keys.take(i));
    law_play_concat(s, taps(keys.take(i)), tap(keys[i]));
}

/// A tape whose start does not run through ends where its start does.
proof fn lemma_stopped_tape(s: NesState, keys: Seq<u8>, k: int)
    requires
        0 <= k <= keys.len(),
        !play_of(s, taps(keys.take(k))).1,
    ensures
        play_of(s, taps(keys)) == play_of(s, taps(keys.take(k))),
{
    lemma_taps_prefix(keys, k);
    law_play_concat(s, taps(keys.take(k)), taps(keys.skip(k)));
}

} // verus!
