//! The terminal player: keystrokes become queued controller presses, one frame
//! each, and the screen is shown in a box.

use vstd::prelude::*;
use std::collections::VecDeque;
use crate::driver::{
    cursor_after, key_path, key_strokes, lemma_taps_prefix, on_grid, push_key_path, tap, taps,
};
use crate::lines::{lines_of, runs, split_lines};
use crate::nes::{BTN_B, BTN_START};
use crate::report::{STATUS_CHAT, STATUS_DONE};
use crate::text::{
    char_id, chars_of, find_char, lemma_alphabet, lemma_char_id, string_of, tile_char, to_upper,
    upper, VOCAB,
};

verus! {

/// Frames after which a piped session ends without an answer.
pub const PIPED_FRAMES: u64 = 20_000;

/// Width of the screen in characters.
pub const SCREEN_WIDTH: usize = 32;

/// Queued buttons, one byte per frame, and the tracked grid cursor.
pub struct Keypad {
    pub presses: VecDeque<u8>,
    pub row: i32,
    pub col: i32,
}

/// The keypad as contracts see it.
#[verifier::ext_equal]
pub struct KeypadView {
    pub presses: Seq<u8>,
    pub row: int,
    pub col: int,
}

impl View for Keypad {
    type V = KeypadView;

    open spec fn view(&self) -> KeypadView {
        KeypadView { presses: self.presses@, row: self.row as int, col: self.col as int }
    }
}

/// What a key does, given the program's status byte: Enter asks, Backspace
/// deletes (and leaves a finished answer, which puts the cursor back), Ctrl-C
/// and Esc quit, and a display character is typed while the chat screen takes
/// input. Says whether to quit.
pub open spec fn key_of(k: KeypadView, key: u8, status: u8) -> (KeypadView, bool) {
    if key == 13 || key == 10 {
        (KeypadView { presses: k.presses + tap(BTN_START), ..k }, false)
    } else if key == 0x7F || key == 0x08 {
        (
            KeypadView {
                presses: k.presses + tap(BTN_B),
                row: if status == STATUS_DONE {
                    0
                } else {
                    k.row
                },
                col: if status == STATUS_DONE {
                    0
                } else {
                    k.col
                },
            },
            false,
        )
    } else if key == 0x03 || key == 0x1B {
        (k, true)
    } else {
        match char_id(upper(key as char)) {
            Some(id) => if status == STATUS_CHAT {
                (
                    KeypadView {
                        presses: k.presses + taps(key_path(k.row, k.col, id)),
                        row: id as int / 11,
                        col: id as int % 11,
                    },
                    false,
                )
            } else {
                (k, false)
            },
            None => (k, false),
        }
    }
}

/// What a run of keys does, and whether one of them quits.
pub open spec fn keys_of(k: KeypadView, keys: Seq<u8>, status: u8) -> (KeypadView, bool)
    decreases keys.len(),
{
    if keys.len() == 0 {
        (k, false)
    } else {
        let (before, quit) = keys_of(k, keys.drop_last(), status);
        let (after, quits) = key_of(before, keys.last(), status);
        (after, quit || quits)
    }
}

/// Whether a session without a terminal is over: no input left, everything
/// played, and the answer done or overdue.
pub open spec fn session_over(
    is_tty: bool,
    eof: bool,
    k: KeypadView,
    status: u8,
    frame: u64,
) -> bool {
    !is_tty && eof && k.presses.len() == 0 && (status == STATUS_DONE || frame > PIPED_FRAMES)
}

impl Keypad {
    pub fn new() -> (keypad: Keypad)
        ensures
            keypad@ == (KeypadView { presses: seq![], row: 0, col: 0 }),
    {
        Keypad { presses: VecDeque::new(), row: 0, col: 0 }
    }

    fn push_tap(&mut self, button: u8)
        ensures
            final(self)@ == (KeypadView { presses: old(self)@.presses + tap(button), ..old(self)@ }),
    {
        self.presses.push_back(button);
        self.presses.push_back(button);
        self.presses.push_back(0);
        self.presses.push_back(0);
        assert(self@.presses =~= old(self)@.presses + tap(button));
    }

    /// Takes one key.
    pub fn key(&mut self, key: u8, status: u8) -> (quit: bool)
        requires
            on_grid(old(self).row as int, old(self).col as int),
        ensures
            (final(self)@, quit) == key_of(old(self)@, key, status),
            on_grid(final(self).row as int, final(self).col as int),
    {
        if key == 13 || key == 10 {
            self.push_tap(BTN_START);
            false
        } else if key == 0x7F || key == 0x08 {
            self.push_tap(BTN_B);
            if status == STATUS_DONE {
                self.row = 0;
                self.col = 0;
            }
            false
        } else if key == 0x03 || key == 0x1B {
            true
        } else {
            if let Some(id) = find_char(to_upper(key as char)) {
                if status == STATUS_CHAT {
                    self.type_char(id);
                }
            }
            false
        }
    }

    fn type_char(&mut self, id: u8)
        requires
            on_grid(old(self).row as int, old(self).col as int),
        ensures
            final(self)@ == (KeypadView {
                presses: old(self)@.presses + taps(key_path(old(self)@.row, old(self)@.col, id)),
                row: id as int / 11,
                col: id as int % 11,
            }),
    {
        let mut keys: Vec<u8> = Vec::new();
        push_key_path(&mut keys, self.row, self.col, id);
        let ghost path = key_path(self.row as int, self.col as int, id);
        assert(keys@ =~= path);
        let mut i: usize = 0;
        while i < keys.len()
            invariant
                i <= keys.len(),
                keys@ == path,
                self@.presses == old(self)@.presses + taps(path.take(i as int)),
            decreases keys.len() - i,
        {
            assert(path.take(i + 1).drop_last() =~= path.take(i as int));
            let ghost before = self@.presses;
            self.push_tap(keys[i]);
            assert(self@.presses =~= old(self)@.presses + taps(path.take(i + 1)));
            i = i + 1;
        }
        assert(path.take(i as int) =~= path);
        self.row = id as i32 / 11;
        self.col = id as i32 % 11;
    }

    /// Takes the keys of one read, all under the same status; says whether one of
    /// them quits.
    pub fn keys(&mut self, keys: &[u8], status: u8) -> (quit: bool)
        requires
            on_grid(old(self).row as int, old(self).col as int),
        ensures
            (final(self)@, quit) == keys_of(old(self)@, keys@, status),
            on_grid(final(self).row as int, final(self).col as int),
    {
        let mut quit = false;
        let mut i: usize = 0;
        while i < keys.len()
            invariant
                i <= keys.len(),
                on_grid(self.row as int, self.col as int),
                (self@, quit) == keys_of(old(self)@, keys@.take(i as int), status),
            decreases keys.len() - i,
        {
            assert(keys@.take(i + 1).drop_last() =~= keys@.take(i as int));
            if self.key(keys[i], status) {
                quit = true;
            }
            i = i + 1;
        }
        assert(keys@.take(i as int) =~= keys@);
        quit
    }

    /// The buttons of the next frame, none when nothing is queued.
    pub fn next_buttons(&mut self) -> (buttons: u8)
        ensures
            old(self)@.presses.len() == 0 ==> buttons == 0 && final(self)@ == old(self)@,
            old(self)@.presses.len() > 0 ==> buttons == old(self)@.presses[0] && final(self)@ == (
            KeypadView { presses: old(self)@.presses.skip(1), ..old(self)@ }),
    {
        match self.presses.pop_front() {
            Some(b) => {
                assert(self@.presses =~= old(self)@.presses.skip(1));
                b
            },
            None => 0,
        }
    }

    /// Whether a session without a terminal is over.
    pub fn is_over(&self, is_tty: bool, eof: bool, status: u8, frame: u64) -> (over: bool)
        ensures
            over == session_over(is_tty, eof, self@, status, frame),
    {
        !is_tty && eof && self.presses.len() == 0 && (status == STATUS_DONE || frame
            > PIPED_FRAMES)
    }
}

/// The display characters that keys stand for.
pub open spec fn ids_of_keys(keys: Seq<u8>) -> Seq<u8> {
    Seq::new(keys.len(), |i: int| char_id(upper(keys[i] as char))->Some_0)
}

/// Typing on the terminal presses what scripted typing presses: on the chat
/// screen, keys that stand for display characters queue the same strokes and
/// leave the cursor on the same cell.
pub proof fn law_keys_like_strokes(k: KeypadView, keys: Seq<u8>)
    requires
        forall|i: int|
            0 <= i < keys.len() ==> char_id(upper((#[trigger] keys[i]) as char)) is Some,
    ensures
        ({
            let (after, quit) = keys_of(k, keys, STATUS_CHAT);
            let ids = ids_of_keys(keys);
            &&& !quit
            &&& after.presses == k.presses + taps(key_strokes(ids, k.row, k.col))
            &&& (after.row, after.col) == cursor_after(ids, k.row, k.col)
        }),
    decreases keys.len(),
{
    let ids = ids_of_keys(keys);
    if keys.len() > 0 {
        let rest = keys.drop_last();
        assert forall|i: int| 0 <= i < rest.len() implies char_id(
            upper((#[trigger] rest[i]) as char),
        ) is Some by {
            assert(rest[i] == keys[i]);
        }
        law_keys_like_strokes(k, rest);
        let last = keys[keys.len() - 1];
        lemma_typing_key(last);
        assert(ids.drop_last() =~= ids_of_keys(rest));
        let (r, c) = cursor_after(ids_of_keys(rest), k.row, k.col);
        let before = key_strokes(ids_of_keys(rest), k.row, k.col);
        let path = key_path(r, c, ids.last());
        lemma_taps_prefix(before + path, before.len() as int);
        assert((before + path).take(before.len() as int) =~= before);
        assert((before + path).skip(before.len() as int) =~= path);
        assert(keys_of(k, keys, STATUS_CHAT).0.presses =~= k.presses + taps(before + path));
    } else {
        assert(ids =~= Seq::<u8>::empty());
        assert(k.presses + taps(key_strokes(ids, k.row, k.col)) =~= k.presses);
    }
}

/// Keys that stand for display characters have no other meaning.
proof fn lemma_typing_key(key: u8)
    requires
        char_id(upper(key as char)) is Some,
    ensures
        key != 13 && key != 10 && key != 0x7F && key != 0x08 && key != 0x03 && key != 0x1B,
{
    lemma_alphabet();
    lemma_char_id(upper(key as char));
    let i = char_id(upper(key as char))->Some_0;
    assert(VOCAB@[i as int] == tile_char(i as int));
}

// ---------------------------------------------------------------------------
// The screen
// ---------------------------------------------------------------------------

/// What the status byte means to the player.
pub open spec fn hint_text(status: u8) -> Seq<char> {
    if status == 0 {
        "type your question, ENTER asks, BACKSPACE deletes, CTRL-C quits"@
    } else if status == 1 {
        "the 6502 is generating..."@
    } else {
        "done — BACKSPACE for a new question, CTRL-C quits"@
    }
}

/// What the status byte means to the player.
pub fn hint(status: u8) -> (text: &'static str)
    ensures
        text@ == hint_text(status),
{
    if status == 0 {
        "type your question, ENTER asks, BACKSPACE deletes, CTRL-C quits"
    } else if status == 1 {
        "the 6502 is generating..."
    } else {
        "done — BACKSPACE for a new question, CTRL-C quits"
    }
}

/// One line between the box's sides, filled up with blanks.
pub open spec fn boxed_line(line: Seq<char>) -> Seq<char> {
    let fill: nat = if line.len() < SCREEN_WIDTH {
        (SCREEN_WIDTH - line.len()) as nat
    } else {
        0
    };
    seq!['│'] + line + Seq::new(fill, |i: int| ' ') + seq!['│', '\n']
}

/// The first `n` lines between the box's sides.
pub open spec fn boxed_lines(lines: Seq<Seq<char>>, n: int) -> Seq<char>
    decreases n,
{
    if n <= 0 {
        seq![]
    } else {
        boxed_lines(lines, n - 1) + boxed_line(lines[n - 1])
    }
}

/// The top or the bottom of the box.
pub open spec fn border(left: char, right: char) -> Seq<char> {
    seq![left] + Seq::new(SCREEN_WIDTH as nat, |i: int| '─') + seq![right, '\n']
}

/// A screen in a box.
pub open spec fn boxed_screen(screen: Seq<char>) -> Seq<char> {
    border('┌', '┐') + boxed_lines(lines_of(screen), lines_of(screen).len() as int) + border(
        '└',
        '┘',
    )
}

fn push_fill(out: &mut Vec<char>, c: char, n: usize)
    ensures
        final(out)@ == old(out)@ + Seq::new(n as nat, |i: int| c),
{
    let ghost start = out@;
    let mut i: usize = 0;
    while i < n
        invariant
            i <= n,
            out@ == start + Seq::new(i as nat, |i: int| c),
        decreases n - i,
    {
        out.push(c);
        assert(out@ =~= start + Seq::new((i + 1) as nat, |i: int| c));
        i = i + 1;
    }
}

fn push_border(out: &mut Vec<char>, left: char, right: char)
    ensures
        final(out)@ == old(out)@ + border(left, right),
{
    out.push(left);
    push_fill(out, '─', SCREEN_WIDTH);
    out.push(right);
    out.push('\n');
    assert(out@ =~= old(out)@ + border(left, right));
}

/// A screen in a box.
pub fn draw_box(screen: &str) -> (text: String)
    ensures
        text@ == boxed_screen(screen@),
{
    let lines = split_lines(&chars_of(screen));
    let ghost all = lines_of(screen@);
    let mut out: Vec<char> = Vec::new();
    push_border(&mut out, '┌', '┐');
    let ghost top = border('┌', '┐');
    assert(out@ =~= top);
    let mut i: usize = 0;
    while i < lines.len()
        invariant
            i <= lines.len(),
            all == lines_of(screen@),
            runs(lines@) == all,
            out@ == top + boxed_lines(all, i as int),
        decreases lines.len() - i,
    {
        let ghost before = out@;
        let line = &lines[i];
        assert(all[i as int] == line@);
        out.push('│');
        out.extend_from_slice(line);
        if line.len() < SCREEN_WIDTH {
            push_fill(&mut out, ' ', SCREEN_WIDTH - line.len());
        }
        out.push('│');
        out.push('\n');
        assert(out@ =~= before + boxed_line(line@));
        assert(out@ =~= top + boxed_lines(all, i + 1));
        i = i + 1;
    }
    push_border(&mut out, '└', '┘');
    string_of(&out)
}

} // verus!
