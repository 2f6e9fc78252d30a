//! Characters and words: the display alphabet of the typing grid, and the
//! tokenizer that splits text into vocabulary words.

use vstd::prelude::*;

verus! {

/// Display characters. A character's id is its place in this string, and also
/// its tile index and its cell on the typing grid.
pub const VOCAB: &'static str = " ABCDEFGHIJKLMNOPQRSTUVWXYZ0123456789.,'-!?";

/// Number of display characters.
pub const N_CHARS: u8 = 43;

/// On-screen keyboard line length.
pub const MAX_TYPED_CHARS: usize = 24;

/// Trusted: `String::push` appends the given character to the end of the string.
pub assume_specification[ String::push ](s: &mut String, ch: char)
    ensures
        final(s)@ == old(s)@.push(ch),
;

// ---------------------------------------------------------------------------
// Strings as sequences of characters
// ---------------------------------------------------------------------------

/// The texts of a list of strings.
pub open spec fn texts(list: Seq<String>) -> Seq<Seq<char>> {
    Seq::new(list.len(), |i: int| list[i]@)
}

/// The characters of a text.
pub fn chars_of(text: &str) -> (chars: Vec<char>)
    ensures
        chars@ == text@,
{
    let mut chars: Vec<char> = Vec::new();
    for ch in it: text.chars()
        invariant
            chars@ == it.seq().take(it.index()),
            it.seq() == text@,
    {
        chars.push(ch);
    }
    chars
}

/// The text made of some characters.
pub fn string_of(chars: &[char]) -> (text: String)
    ensures
        text@ == chars@,
{
    let mut text = String::new();
    let mut i: usize = 0;
    while i < chars.len()
        invariant
            i <= chars.len(),
            text@ == chars@.take(i as int),
        decreases chars.len() - i,
    {
        text.push(chars[i]);
        i = i + 1;
    }
    text
}

/// Whether two runs of characters are the same.
pub fn same_chars(a: &[char], b: &[char]) -> (same: bool)
    ensures
        same == (a@ == b@),
{
    if a.len() != b.len() {
        return false;
    }
    let mut i: usize = 0;
    while i < a.len()
        invariant
            i <= a.len(),
            a.len() == b.len(),
            a@.take(i as int) == b@.take(i as int),
        decreases a.len() - i,
    {
        if a[i] != b[i] {
            assert(a@[i as int] != b@[i as int]);
            return false;
        }
        assert(a@.take(i + 1) == a@.take(i as int).push(a@[i as int]));
        assert(b@.take(i + 1) == b@.take(i as int).push(b@[i as int]));
        i = i + 1;
    }
    assert(a@.take(i as int) == a@);
    assert(b@.take(i as int) == b@);
    true
}

/// Whether two texts are the same.
pub fn same_text(a: &str, b: &str) -> (same: bool)
    ensures
        same == (a@ == b@),
{
    same_chars(&chars_of(a), &chars_of(b))
}

// ---------------------------------------------------------------------------
// Single characters
// ---------------------------------------------------------------------------

/// The Unicode property White_Space.
pub open spec fn is_white(c: char) -> bool {
    let n = c as u32;
    ||| 0x09 <= n <= 0x0D
    ||| n == 0x20
    ||| n == 0x85
    ||| n == 0xA0
    ||| n == 0x1680
    ||| 0x2000 <= n <= 0x200A
    ||| n == 0x2028
    ||| n == 0x2029
    ||| n == 0x202F
    ||| n == 0x205F
    ||| n == 0x3000
}

/// Whether a character is white space.
pub fn is_whitespace(c: char) -> (yes: bool)
    ensures
        yes == is_white(c),
{
    let n: u32 = c as u32;
    (0x09 <= n && n <= 0x0D) || n == 0x20 || n == 0x85 || n == 0xA0 || n == 0x1680 || (0x2000 <= n
        && n <= 0x200A) || n == 0x2028 || n == 0x2029 || n == 0x202F || n == 0x205F || n == 0x3000
}

/// ASCII upper case; other characters stay as they are.
pub open spec fn upper(c: char) -> char {
    if 'a' <= c <= 'z' {
        (c as u32 - 32) as char
    } else {
        c
    }
}

/// A text in ASCII upper case.
pub open spec fn uppered(s: Seq<char>) -> Seq<char> {
    Seq::new(s.len(), |i: int| upper(s[i]))
}

/// ASCII upper case of one character.
pub fn to_upper(c: char) -> (u: char)
    ensures
        u == upper(c),
{
    if 'a' <= c && c <= 'z' {
        (c as u8 - 32) as char
    } else {
        c
    }
}

/// ASCII upper case of a run of characters.
pub fn upper_chars(chars: &[char]) -> (up: Vec<char>)
    ensures
        up@ == uppered(chars@),
{
    let mut up: Vec<char> = Vec::new();
    let mut i: usize = 0;
    while i < chars.len()
        invariant
            i <= chars.len(),
            up@ == uppered(chars@.take(i as int)),
        decreases chars.len() - i,
    {
        up.push(to_upper(chars[i]));
        i = i + 1;
    }
    assert(chars@.take(i as int) == chars@);
    up
}

/// What typing a character means: white space is a blank, letters are upper case.
pub open spec fn folded(c: char) -> char {
    if is_white(c) {
        ' '
    } else {
        upper(c)
    }
}

// ---------------------------------------------------------------------------
// Display characters
// ---------------------------------------------------------------------------

/// The id of a display character, `None` for a character without a tile.
pub open spec fn char_id(c: char) -> Option<u8> {
    if VOCAB@.contains(c) {
        Some(VOCAB@.index_of(c) as u8)
    } else {
        None
    }
}

/// The alphabet spelled out: blank, letters, digits, then the marks.
pub open spec fn tile_char(i: int) -> char {
    if i == 0 {
        ' '
    } else if i <= 26 {
        (64 + i) as char
    } else if i <= 36 {
        (21 + i) as char
    } else if i == 37 {
        '.'
    } else if i == 38 {
        ','
    } else if i == 39 {
        '\''
    } else if i == 40 {
        '-'
    } else if i == 41 {
        '!'
    } else {
        '?'
    }
}

/// The alphabet has 43 characters and follows `tile_char`.
pub proof fn lemma_alphabet()
    ensures
        VOCAB@.len() == N_CHARS,
        forall|i: int| 0 <= i < N_CHARS ==> #[trigger] VOCAB@[i] == tile_char(i),
{
    reveal_strlit(" ABCDEFGHIJKLMNOPQRSTUVWXYZ0123456789.,'-!?");
    assert forall|i: int| 0 <= i < N_CHARS implies #[trigger] VOCAB@[i] == tile_char(i) by {
        lemma_alphabet_at(i);
    }
}

proof fn lemma_alphabet_at(i: int)
    requires
        0 <= i < N_CHARS,
    ensures
        VOCAB@[i] == tile_char(i),
{
    reveal_strlit(" ABCDEFGHIJKLMNOPQRSTUVWXYZ0123456789.,'-!?");
    if i < 11 {
        assert(i == 0 || i == 1 || i == 2 || i == 3 || i == 4 || i == 5 || i == 6 || i == 7 || i == 8
            || i == 9 || i == 10);
    } else if i < 22 {
        assert(i == 11 || i == 12 || i == 13 || i == 14 || i == 15 || i == 16 || i == 17 || i == 18
            || i == 19 || i == 20 || i == 21);
    } else if i < 33 {
        assert(i == 22 || i == 23 || i == 24 || i == 25 || i == 26 || i == 27 || i == 28 || i == 29
            || i == 30 || i == 31 || i == 32);
    } else {
        assert(i == 33 || i == 34 || i == 35 || i == 36 || i == 37 || i == 38 || i == 39 || i == 40
            || i == 41 || i == 42);
    }
}

/// Ids and display characters are in one-to-one correspondence.
pub proof fn lemma_char_id(c: char)
    ensures
        char_id(c) matches Some(i) ==> i < N_CHARS && VOCAB@[i as int] == c,
        char_id(c) is None ==> forall|i: int| 0 <= i < N_CHARS ==> VOCAB@[i] != c,
        forall|i: int| 0 <= i < N_CHARS && VOCAB@[i] == c ==> char_id(c) == Some(i as u8),
{
    lemma_alphabet();
    if VOCAB@.contains(c) {
        let j = VOCAB@.index_of(c);
        assert(0 <= j < VOCAB@.len() && VOCAB@[j] == c);
    }
}

/// The id of a display character.
pub fn find_char(c: char) -> (id: Option<u8>)
    ensures
        id == char_id(c),
{
    proof {
        lemma_alphabet();
        lemma_char_id(c);
    }
    let n: u32 = c as u32;
    let id: u8 = if c == ' ' {
        0
    } else if 'A' <= c && c <= 'Z' {
        (n - 64) as u8
    } else if '0' <= c && c <= '9' {
        (n - 21) as u8
    } else if c == '.' {
        37
    } else if c == ',' {
        38
    } else if c == '\'' {
        39
    } else if c == '-' {
        40
    } else if c == '!' {
        41
    } else if c == '?' {
        42
    } else {
        return None;
    };
    assert(VOCAB@[id as int] == c);
    Some(id)
}

/// The display character with an id.
pub fn tile(id: u8) -> (c: char)
    requires
        id < N_CHARS,
    ensures
        c == VOCAB@[id as int],
{
    proof {
        lemma_alphabet();
    }
    if id == 0 {
        ' '
    } else if id <= 26 {
        (64 + id) as char
    } else if id <= 36 {
        (21 + id) as char
    } else if id == 37 {
        '.'
    } else if id == 38 {
        ','
    } else if id == 39 {
        '\''
    } else if id == 40 {
        '-'
    } else if id == 41 {
        '!'
    } else {
        '?'
    }
}

/// The ids of a text: each character folded, those without a tile left out.
pub open spec fn ids_of(s: Seq<char>) -> Seq<u8>
    decreases s.len(),
{
    if s.len() == 0 {
        seq![]
    } else {
        match char_id(folded(s.last())) {
            Some(i) => ids_of(s.drop_last()).push(i),
            None => ids_of(s.drop_last()),
        }
    }
}

/// The display text of some ids: those past the alphabet are left out.
pub open spec fn text_of(ids: Seq<u8>) -> Seq<char>
    decreases ids.len(),
{
    if ids.len() == 0 {
        seq![]
    } else if ids.last() < N_CHARS {
        text_of(ids.drop_last()).push(VOCAB@[ids.last() as int])
    } else {
        text_of(ids.drop_last())
    }
}

fn ids_of_chars(chars: &[char]) -> (ids: Vec<u8>)
    ensures
        ids@ == ids_of(chars@),
{
    let mut ids: Vec<u8> = Vec::new();
    let mut i: usize = 0;
    while i < chars.len()
        invariant
            i <= chars.len(),
            ids@ == ids_of(chars@.take(i as int)),
        decreases chars.len() - i,
    {
        assert(chars@.take(i + 1).drop_last() == chars@.take(i as int));
        let c = if is_whitespace(chars[i]) {
            ' '
        } else {
            to_upper(chars[i])
        };
        if let Some(id) = find_char(c) {
            ids.push(id);
        }
        i = i + 1;
    }
    assert(chars@.take(i as int) == chars@);
    ids
}

/// Character ids of a text, for the typing grid and the display.
pub fn char_ids(text: &str) -> (ids: Vec<u8>)
    ensures
        ids@ == ids_of(text@),
{
    ids_of_chars(&chars_of(text))
}

/// The text that some character ids display.
pub fn chars_from_ids(ids: &[u8]) -> (text: String)
    ensures
        text@ == text_of(ids@),
{
    let mut text = String::new();
    let mut i: usize = 0;
    while i < ids.len()
        invariant
            i <= ids.len(),
            text@ == text_of(ids@.take(i as int)),
        decreases ids.len() - i,
    {
        assert(ids@.take(i + 1).drop_last() == ids@.take(i as int));
        if ids[i] < N_CHARS {
            text.push(tile(ids[i]));
        }
        i = i + 1;
    }
    assert(ids@.take(i as int) == ids@);
    text
}

/// What the on-screen keyboard can hold of a text.
pub open spec fn typed_of(s: Seq<char>) -> Seq<u8> {
    let ids = ids_of(s);
    if ids.len() > MAX_TYPED_CHARS {
        ids.take(MAX_TYPED_CHARS as int)
    } else {
        ids
    }
}

/// Normalization is exactly what the on-screen keyboard can hold: upper case,
/// display characters only, capped at `MAX_TYPED_CHARS`.
pub fn normalize_chars(text: &str) -> (ids: Vec<u8>)
    ensures
        ids@ == typed_of(text@),
{
    let mut ids = char_ids(text);
    if ids.len() > MAX_TYPED_CHARS {
        ids.truncate(MAX_TYPED_CHARS);
    }
    ids
}

// ---------------------------------------------------------------------------
// Laws of the display alphabet
// ---------------------------------------------------------------------------

/// Texts made of display characters only.
pub open spec fn displayable(s: Seq<char>) -> bool {
    forall|i: int| 0 <= i < s.len() ==> VOCAB@.contains(#[trigger] s[i])
}

/// A display character stands for itself when typed.
pub proof fn lemma_folded(c: char)
    requires
        VOCAB@.contains(c),
    ensures
        folded(c) == c,
{
    lemma_alphabet();
    let i = VOCAB@.index_of(c);
    assert(0 <= i < VOCAB@.len() && VOCAB@[i] == c);
    assert(c == tile_char(i));
}

/// Ids are ids of tiles, at most one per character of the text.
pub proof fn law_ids_range(s: Seq<char>)
    ensures
        ids_of(s).len() <= s.len(),
        forall|i: int| 0 <= i < ids_of(s).len() ==> #[trigger] ids_of(s)[i] < N_CHARS,
    decreases s.len(),
{
    if s.len() > 0 {
        law_ids_range(s.drop_last());
        lemma_char_id(folded(s.last()));
    }
}

/// Displaying the ids of a displayable text gives the text back.
pub proof fn law_display_roundtrip(s: Seq<char>)
    requires
        displayable(s),
    ensures
        text_of(ids_of(s)) == s,
        ids_of(s).len() == s.len(),
    decreases s.len(),
{
    if s.len() > 0 {
        let rest = s.drop_last();
        assert forall|i: int| 0 <= i < rest.len() implies VOCAB@.contains(#[trigger] rest[i]) by {
            assert(rest[i] == s[i]);
        }
        law_display_roundtrip(rest);
        lemma_folded(s[s.len() - 1]);
        lemma_char_id(s.last());
        assert(ids_of(s).drop_last() =~= ids_of(rest));
        assert(s =~= rest.push(s.last()));
    }
}

/// The ids of a text displayed from ids are those ids.
pub proof fn law_ids_roundtrip(ids: Seq<u8>)
    requires
        forall|i: int| 0 <= i < ids.len() ==> #[trigger] ids[i] < N_CHARS,
    ensures
        ids_of(text_of(ids)) == ids,
    decreases ids.len(),
{
    if ids.len() > 0 {
        let rest = ids.drop_last();
        assert forall|i: int| 0 <= i < rest.len() implies #[trigger] rest[i] < N_CHARS by {
            assert(rest[i] == ids[i]);
        }
        law_ids_roundtrip(rest);
        lemma_alphabet();
        let c = VOCAB@[ids.last() as int];
        assert(VOCAB@.contains(c));
        lemma_folded(c);
        lemma_char_id(c);
        assert(text_of(ids).drop_last() =~= text_of(rest));
        assert(ids =~= rest.push(ids.last()));
    }
}

/// The ids of joined texts are the joined ids.
pub proof fn law_ids_joined(a: Seq<char>, b: Seq<char>)
    ensures
        ids_of(a + b) == ids_of(a) + ids_of(b),
    decreases b.len(),
{
    if b.len() == 0 {
        assert(a + b =~= a);
        assert(ids_of(a) + ids_of(b) =~= ids_of(a));
    } else {
        law_ids_joined(a, b.drop_last());
        assert((a + b).drop_last() =~= a + b.drop_last());
        assert((a + b).last() == b.last());
        assert(ids_of(a + b) =~= ids_of(a) + ids_of(b));
    }
}

proof fn lemma_folded_case(c: char, d: char)
    requires
        upper(c) == upper(d),
    ensures
        folded(c) == folded(d),
{
}

/// Letter case does not matter: texts that are the same in upper case have the
/// same ids, the same typed form and the same words.
pub proof fn law_case_ignored(s: Seq<char>, t: Seq<char>)
    requires
        uppered(s) == uppered(t),
    ensures
        ids_of(s) == ids_of(t),
        typed_of(s) == typed_of(t),
        words_of(s) == words_of(t),
    decreases s.len(),
{
    assert(uppered(s).len() == s.len() && uppered(t).len() == t.len());
    if s.len() > 0 {
        let n = s.len() - 1;
        assert(uppered(s)[n] == upper(s[n]) && uppered(t)[n] == upper(t[n]));
        lemma_folded_case(s[n], t[n]);
        assert(uppered(s.drop_last()) =~= uppered(s).drop_last());
        assert(uppered(t.drop_last()) =~= uppered(t).drop_last());
        law_case_ignored(s.drop_last(), t.drop_last());
    }
}

/// Normalization holds at most `MAX_TYPED_CHARS` tiles, and normalizing what it
/// shows changes nothing.
pub proof fn law_normalize_idempotent(s: Seq<char>)
    ensures
        typed_of(s).len() <= MAX_TYPED_CHARS,
        forall|i: int| 0 <= i < typed_of(s).len() ==> #[trigger] typed_of(s)[i] < N_CHARS,
        typed_of(text_of(typed_of(s))) == typed_of(s),
{
    law_ids_range(s);
    assert forall|i: int| 0 <= i < typed_of(s).len() implies #[trigger] typed_of(s)[i] < N_CHARS by {
        assert(typed_of(s)[i] == ids_of(s)[i]);
    }
    law_ids_roundtrip(typed_of(s));
}

// ---------------------------------------------------------------------------
// Words
// ---------------------------------------------------------------------------

/// Characters that join into words (text in upper case).
pub open spec fn is_word_char(c: char) -> bool {
    'A' <= c <= 'Z' || '0' <= c <= '9' || c == '\''
}

/// Punctuation that is a word of its own.
pub open spec fn is_mark(c: char) -> bool {
    c == '.' || c == ',' || c == '!' || c == '?'
}

/// Where the run of word characters that `i` lies in ends.
pub open spec fn run_end(s: Seq<char>, i: int) -> int
    decreases s.len() - i,
{
    if 0 <= i < s.len() && is_word_char(s[i]) {
        run_end(s, i + 1)
    } else {
        i
    }
}

/// A run ends behind its start, at the first character that does not belong to it.
pub proof fn lemma_run_end(s: Seq<char>, i: int)
    requires
        0 <= i <= s.len(),
    ensures
        i <= run_end(s, i) <= s.len(),
        forall|k: int| i <= k < run_end(s, i) ==> is_word_char(s[k]),
        run_end(s, i) < s.len() ==> !is_word_char(s[run_end(s, i)]),
    decreases s.len() - i,
{
    if i < s.len() && is_word_char(s[i]) {
        lemma_run_end(s, i + 1);
    }
}

/// The words of an upper-case text from `i` on: maximal runs of word
/// characters, and single marks.
pub open spec fn tokens_from(s: Seq<char>, i: int) -> Seq<Seq<char>>
    decreases s.len() - i,
{
    if i < 0 || i >= s.len() {
        seq![]
    } else if is_word_char(s[i]) {
        proof {
            lemma_run_end(s, i + 1);
        }
        seq![s.subrange(i, run_end(s, i + 1))] + tokens_from(s, run_end(s, i + 1))
    } else if is_mark(s[i]) {
        seq![seq![s[i]]] + tokens_from(s, i + 1)
    } else {
        tokens_from(s, i + 1)
    }
}

/// The words of a text.
pub open spec fn words_of(text: Seq<char>) -> Seq<Seq<char>> {
    tokens_from(uppered(text), 0)
}

/// Splits text into words: marks are their own words, words are runs of
/// letters, digits and apostrophes, in upper case.
pub fn split_words(text: &str) -> (words: Vec<String>)
    ensures
        texts(words@) == words_of(text@),
{
    let s = upper_chars(&chars_of(text));
    let mut words: Vec<String> = Vec::new();
    let mut i: usize = 0;
    while i < s.len()
        invariant
            i <= s.len(),
            texts(words@) + tokens_from(s@, i as int) == tokens_from(s@, 0),
        decreases s.len() - i,
    {
        let c = s[i];
        let ghost before = texts(words@);
        if ('A' <= c && c <= 'Z') || ('0' <= c && c <= '9') || c == '\'' {
            let mut j: usize = i + 1;
            while j < s.len() && (('A' <= s[j] && s[j] <= 'Z') || ('0' <= s[j]
                && s[j] <= '9') || s[j] == '\'')
                invariant
                    i < j <= s.len(),
                    run_end(s@, j as int) == run_end(s@, i + 1),
                decreases s.len() - j,
            {
                j = j + 1;
            }
            words.push(string_of(&s[i..j]));
            assert(texts(words@) == before.push(s@.subrange(i as int, j as int)));
            i = j;
        } else if c == '.' || c == ',' || c == '!' || c == '?' {
            words.push(string_of(&s[i..i + 1]));
            assert(s@.subrange(i as int, i + 1) == seq![s@[i as int]]);
            assert(texts(words@) == before.push(seq![s@[i as int]]));
            i = i + 1;
        } else {
            i = i + 1;
        }
    }
    assert(tokens_from(s@, i as int) == Seq::<Seq<char>>::empty());
    words
}

} // verus!
