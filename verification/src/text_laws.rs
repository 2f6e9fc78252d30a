//! What texts have to satisfy: which tile a character has, how text falls into
//! words, lines and fields, and how words become text.

use vstd::prelude::*;
use crate::lines::{
    arrow_from, content_of, field_end, fields_from, fields_of, find_from, lemma_field_end,
    lemma_line_end, line_end, lines_from, lines_of, questions_of, questions_upto, split_arrow_of,
    split_char, trim_end, trim_start, trimmed, without_return,
};
use crate::text::{
    char_id, folded, ids_of, is_mark, is_white, is_word_char, lemma_alphabet, lemma_char_id,
    lemma_run_end, run_end, text_of, tile_char, tokens_from, typed_of, upper, uppered, words_of,
    VOCAB,
};
use crate::vocab::{is_punct, joined, known_ids};

verus! {

// ---------------------------------------------------------------------------
// Characters
// ---------------------------------------------------------------------------

/// Tile `i` is the tile of a character: 0 of a blank, 1 to 26 of the letters in
/// either case, 27 to 36 of the digits, then period, comma, apostrophe, hyphen,
/// exclamation mark and question mark.
pub open spec fn has_tile(c: char, i: int) -> bool {
    let n = c as int;
    ||| i == 0 && is_white(c)
    ||| 1 <= i <= 26 && (n == 64 + i || n == 96 + i)
    ||| 27 <= i <= 36 && n == 21 + i
    ||| i == 37 && n == 46
    ||| i == 38 && n == 44
    ||| i == 39 && n == 39
    ||| i == 40 && n == 45
    ||| i == 41 && n == 33
    ||| i == 42 && n == 63
}

/// White space: the blank, the control characters from tab to carriage return, the
/// next-line control, and the spaces and separators of Unicode.
pub proof fn law_white_space(c: char)
    ensures
        is_white(c) <==> c as int == 0x20 || 0x09 <= c as int <= 0x0D || c as int == 0x85 || c as int
            == 0xA0 || c as int == 0x1680 || 0x2000 <= c as int <= 0x200A || c as int == 0x2028
            || c as int == 0x2029 || c as int == 0x202F || c as int == 0x205F || c as int == 0x3000,
{
}

/// A typed character gives the id of its tile, and nothing where it has none.
pub proof fn law_typed_character(c: char)
    ensures
        forall|i: u8| #[trigger] has_tile(c, i as int) ==> ids_of(seq![c]) == seq![i],
        (forall|i: u8| !#[trigger] has_tile(c, i as int)) ==> ids_of(seq![c]) == Seq::<u8>::empty(),
{
    let s = seq![c];
    assert(s.drop_last() =~= Seq::<char>::empty());
    assert(s.last() == c);
    reveal_with_fuel(ids_of, 2);
    lemma_alphabet();
    let f = folded(c);
    lemma_char_id(f);
    assert forall|i: u8| #[trigger] has_tile(c, i as int) implies ids_of(s) == seq![i] by {
        assert(VOCAB@[i as int] == tile_char(i as int));
        assert(tile_char(i as int) == f);
        assert(ids_of(s) =~= seq![i]);
    }
    if forall|i: u8| !#[trigger] has_tile(c, i as int) {
        if let Some(i) = char_id(f) {
            assert(VOCAB@[i as int] == tile_char(i as int));
            assert(has_tile(c, i as int));
        }
        assert(ids_of(s) =~= Seq::<u8>::empty());
    }
}

/// The text of joined ids is the joined texts.
pub proof fn law_display_joined(a: Seq<u8>, b: Seq<u8>)
    ensures
        text_of(a + b) == text_of(a) + text_of(b),
    decreases b.len(),
{
    if b.len() == 0 {
        assert(a + b =~= a);
        assert(text_of(a) + text_of(b) =~= text_of(a));
    } else {
        law_display_joined(a, b.drop_last());
        assert((a + b).drop_last() =~= a + b.drop_last());
        assert((a + b).last() == b.last());
        assert(text_of(a + b) =~= text_of(a) + text_of(b));
    }
}

/// An id shows the character of its tile, letters in upper case; an id past the
/// alphabet shows nothing.
pub proof fn law_displayed_character(i: u8)
    ensures
        i < 43 ==> exists|c: char| #[trigger] text_of(seq![i]) == seq![c] && has_tile(c, i as int) && (
        c as int) < 97 && (i == 0 ==> c == ' '),
        i >= 43 ==> text_of(seq![i]) == Seq::<char>::empty(),
{
    let s = seq![i];
    assert(s.drop_last() =~= Seq::<u8>::empty());
    reveal_with_fuel(text_of, 2);
    lemma_alphabet();
    if i < 43 {
        let c = VOCAB@[i as int];
        assert(c == tile_char(i as int));
        assert(text_of(s) =~= seq![c]);
        assert(has_tile(c, i as int));
    } else {
        assert(text_of(s) =~= Seq::<char>::empty());
    }
}

/// The keyboard line holds the first 24 ids.
pub proof fn law_typed_capped(s: Seq<char>)
    ensures
        typed_of(s).len() == if ids_of(s).len() < 24 {
            ids_of(s).len()
        } else {
            24
        },
        forall|i: int| 0 <= i < typed_of(s).len() ==> #[trigger] typed_of(s)[i] == ids_of(s)[i],
{
}

// ---------------------------------------------------------------------------
// Words
// ---------------------------------------------------------------------------

/// Letters, digits and the apostrophe make words.
pub open spec fn makes_words(c: char) -> bool {
    let n = c as int;
    65 <= n <= 90 || 97 <= n <= 122 || 48 <= n <= 57 || n == 39
}

/// A character in upper case.
pub open spec fn capital(c: char) -> char {
    if 97 <= c as int <= 122 {
        (c as int - 32) as char
    } else {
        c
    }
}

proof fn lemma_makes_words(c: char)
    ensures
        makes_words(c) == is_word_char(upper(c)),
        is_mark(upper(c)) == is_mark(c),
        capital(c) == upper(c),
        is_mark(c) ==> !makes_words(c) && upper(c) == c,
{
}

/// The tokens of a text with another before it.
proof fn lemma_tokens_behind(a: Seq<char>, b: Seq<char>, j: int)
    requires
        0 <= j <= b.len(),
    ensures
        tokens_from(a + b, a.len() + j) == tokens_from(b, j),
        run_end(a + b, a.len() + j) == a.len() + run_end(b, j),
    decreases b.len() - j,
{
    let s = a + b;
    let n = a.len() as int;
    if j < b.len() {
        assert(s[n + j] == b[j]);
        lemma_tokens_behind(a, b, j + 1);
        if is_word_char(b[j]) {
            lemma_run_end(b, j + 1);
            let e = run_end(b, j + 1);
            assert(run_end(s, n + j + 1) == n + e);
            lemma_tokens_behind(a, b, e);
            assert(s.subrange(n + j, n + e) =~= b.subrange(j, e));
        }
    }
}

/// The tokens of a text up to a place where no run goes on.
proof fn lemma_tokens_split(a: Seq<char>, b: Seq<char>, i: int)
    requires
        0 <= i <= a.len(),
        (a.len() > 0 && !is_word_char(a.last())) || (b.len() > 0 && !is_word_char(b[0])) || a.len()
            == 0 || b.len() == 0,
    ensures
        tokens_from(a + b, i) == tokens_from(a, i) + tokens_from(b, 0),
        i < a.len() ==> run_end(a + b, i) == run_end(a, i),
    decreases a.len() - i,
{
    let s = a + b;
    let n = a.len() as int;
    if i >= n {
        lemma_tokens_behind(a, b, 0);
        assert(tokens_from(a, i) + tokens_from(b, 0) =~= tokens_from(b, 0));
    } else {
        assert(s[i] == a[i]);
        if b.len() > 0 {
            assert(s[n] == b[0]);
        }
        lemma_tokens_split(a, b, i + 1);
        if is_word_char(a[i]) {
            lemma_run_end(a, i + 1);
            let e = run_end(a, i + 1);
            assert(run_end(s, i + 1) == e) by {
                if i + 1 >= n {
                    assert(a.last() == a[i]);
                    assert(run_end(a, n) == n);
                }
            }
            lemma_tokens_split(a, b, e);
            assert(s.subrange(i, e) =~= a.subrange(i, e));
            assert(tokens_from(s, i) =~= tokens_from(a, i) + tokens_from(b, 0));
        } else if is_mark(a[i]) {
            assert(tokens_from(s, i) =~= tokens_from(a, i) + tokens_from(b, 0));
        }
    }
}

/// Text can be cut into words piece by piece, wherever one of the two characters at
/// the cut makes no words.
pub proof fn law_words_joined(a: Seq<char>, b: Seq<char>)
    requires
        a.len() == 0 || b.len() == 0 || !makes_words(a.last()) || !makes_words(b[0]),
    ensures
        words_of(a + b) == words_of(a) + words_of(b),
{
    let (x, y) = (uppered(a), uppered(b));
    assert(uppered(a + b) =~= x + y);
    if a.len() > 0 {
        lemma_makes_words(a.last());
        assert(x.last() == upper(a.last()));
    }
    if b.len() > 0 {
        lemma_makes_words(b[0]);
    }
    lemma_tokens_split(x, y, 0);
}

/// Characters that make words give one word, in upper case; a mark gives itself; any
/// other character gives nothing.
pub proof fn law_words_single(s: Seq<char>, c: char)
    ensures
        s.len() > 0 && (forall|i: int| 0 <= i < s.len() ==> makes_words(#[trigger] s[i]))
            ==> words_of(s).len() == 1 && words_of(s)[0].len() == s.len() && forall|i: int|
            0 <= i < s.len() ==> #[trigger] words_of(s)[0][i] == capital(s[i]),
        c == '.' || c == ',' || c == '!' || c == '?' ==> words_of(seq![c]) == seq![seq![c]],
        !makes_words(c) && c != '.' && c != ',' && c != '!' && c != '?' ==> words_of(seq![c]).len()
            == 0,
{
    let u = uppered(s);
    if s.len() > 0 && (forall|i: int| 0 <= i < s.len() ==> makes_words(#[trigger] s[i])) {
        assert forall|i: int| 0 <= i < s.len() implies is_word_char(#[trigger] u[i]) && u[i]
            == capital(s[i]) by {
            lemma_makes_words(s[i]);
        }
        lemma_run_end(u, 1);
        let e = run_end(u, 1);
        assert(is_word_char(u[0]));
        assert(e == u.len());
        assert(u.subrange(0, e) =~= u);
        assert(tokens_from(u, e) =~= Seq::<Seq<char>>::empty());
        assert(words_of(s) =~= seq![u]);
    }
    let v = uppered(seq![c]);
    lemma_makes_words(c);
    assert(v =~= seq![upper(c)]);
    assert(tokens_from(v, 1) =~= Seq::<Seq<char>>::empty());
    if is_mark(c) {
        assert(words_of(seq![c]) =~= seq![seq![c]]);
    }
}

/// Words are shown one behind the other: punctuation right behind what is there, any
/// other word behind a blank, unless it is the first. An unknown id shows nothing.
pub proof fn law_words_shown(words: Seq<Seq<char>>, ids: Seq<u8>, w: u8)
    ensures
        joined(words, seq![]) == Seq::<char>::empty(),
        w >= words.len() ==> joined(words, ids.push(w)) == joined(words, ids),
        w < words.len() ==> joined(words, ids.push(w)) == joined(words, ids) + (if joined(
            words,
            ids,
        ).len() == 0 || words[w as int] =~= seq!['.'] || words[w as int] =~= seq![',']
            || words[w as int] =~= seq!['!'] || words[w as int] =~= seq!['?'] {
            seq![]
        } else {
            seq![' ']
        }) + words[w as int],
{
    let all = ids.push(w);
    assert(all.drop_last() =~= ids);
    if w < words.len() {
        let x = words[w as int];
        let before = joined(words, ids);
        assert(is_punct(x) <==> x =~= seq!['.'] || x =~= seq![','] || x =~= seq!['!'] || x
            =~= seq!['?']) by {
            if is_punct(x) {
                assert(x =~= seq![x[0]]);
            }
        }
        assert(before.push(' ') + x =~= before + seq![' '] + x);
        assert(before + x =~= before + Seq::<char>::empty() + x);
    }
}

/// The ids of known words, in order; unknown words are left out.
pub proof fn law_known_words(words: Seq<Seq<char>>, a: Seq<Seq<char>>, b: Seq<Seq<char>>, w: Seq<char>)
    requires
        words.len() <= 256,
    ensures
        known_ids(words, a + b) == known_ids(words, a) + known_ids(words, b),
        words.contains(w) ==> known_ids(words, seq![w]).len() == 1 && known_ids(words, seq![w])[0]
            < words.len() && words[known_ids(words, seq![w])[0] as int] == w,
        !words.contains(w) ==> known_ids(words, seq![w]).len() == 0,
    decreases b.len(),
{
    let one = seq![w];
    assert(one.drop_last() =~= Seq::<Seq<char>>::empty());
    assert(one.last() == w);
    reveal_with_fuel(known_ids, 2);
    if words.contains(w) {
        let i = words.index_of(w);
        assert(words[i] == w);
    }
    if b.len() == 0 {
        assert(a + b =~= a);
        assert(known_ids(words, a) + known_ids(words, b) =~= known_ids(words, a));
    } else {
        law_known_words(words, a, b.drop_last(), w);
        assert((a + b).drop_last() =~= a + b.drop_last());
        assert((a + b).last() == b.last());
        assert(known_ids(words, a + b) =~= known_ids(words, a) + known_ids(words, b));
    }
}

// ---------------------------------------------------------------------------
// Lines
// ---------------------------------------------------------------------------

proof fn lemma_line_end_at(s: Seq<char>, i: int)
    requires
        0 <= i <= s.len(),
    ensures
        forall|k: int| i <= k < line_end(s, i) ==> #[trigger] s[k] != '\n',
        line_end(s, i) < s.len() ==> s[line_end(s, i)] == '\n',
        i <= line_end(s, i) <= s.len(),
    decreases s.len() - i,
{
    if i < s.len() && s[i] != '\n' {
        lemma_line_end_at(s, i + 1);
    }
}

proof fn lemma_lines_behind(a: Seq<char>, b: Seq<char>, j: int)
    requires
        0 <= j <= b.len(),
    ensures
        lines_from(a + b, a.len() + j) == lines_from(b, j),
        line_end(a + b, a.len() + j) == a.len() + line_end(b, j),
    decreases b.len() - j,
{
    let s = a + b;
    let n = a.len() as int;
    if j < b.len() {
        assert(s[n + j] == b[j]);
        lemma_lines_behind(a, b, j + 1);
        lemma_line_end(b, j);
        let e = line_end(b, j);
        assert(line_end(s, n + j) == n + e);
        if e < b.len() {
            lemma_lines_behind(a, b, e + 1);
            assert(s.subrange(n + j, n + e) =~= b.subrange(j, e));
        } else {
            assert(s.skip(n + j) =~= b.skip(j));
        }
    }
}

/// Text falls into lines at its line feeds: what stands before the first is a line,
/// without a carriage return at its end, and what stands behind goes on. The last
/// line needs no line feed.
pub proof fn law_lines(a: Seq<char>, b: Seq<char>)
    requires
        forall|i: int| 0 <= i < a.len() ==> #[trigger] a[i] != '\n',
    ensures
        lines_of(a + seq!['\n'] + b) == seq![
            if a.len() > 0 && a.last() == '\r' {
                a.drop_last()
            } else {
                a
            },
        ] + lines_of(b),
        a.len() > 0 ==> lines_of(a) == seq![a],
        lines_of(Seq::empty()).len() == 0,
{
    let front = a + seq!['\n'];
    let s = front + b;
    lemma_line_end_at(s, 0);
    let e = line_end(s, 0);
    assert(s[a.len() as int] == '\n');
    if e < a.len() {
        assert(s[e] == a[e]);
    }
    assert(e == a.len());
    assert(s.subrange(0, e) =~= a);
    lemma_lines_behind(front, b, 0);
    assert(lines_of(s) == seq![without_return(a)] + lines_of(b));
    if a.len() > 0 {
        lemma_line_end_at(a, 0);
        assert(line_end(a, 0) == a.len());
        assert(a.skip(0) =~= a);
    }
}

/// A text without the white space around it: a piece of it with none at either end,
/// and nothing but white space outside.
pub open spec fn trims_to(s: Seq<char>, t: Seq<char>, i: int) -> bool {
    &&& 0 <= i
    &&& i + t.len() <= s.len()
    &&& t == s.subrange(i, i + t.len())
    &&& t.len() > 0 ==> !is_white(t[0]) && !is_white(t.last())
    &&& forall|k: int| 0 <= k < i ==> is_white(#[trigger] s[k])
    &&& forall|k: int| i + t.len() <= k < s.len() ==> is_white(#[trigger] s[k])
}

/// What is cut off at the end is white space, and what is left does not end with it.
pub proof fn lemma_trim_end(s: Seq<char>)
    ensures
        trim_end(s).len() <= s.len(),
        trim_end(s) == s.take(trim_end(s).len() as int),
        trim_end(s).len() > 0 ==> !is_white(trim_end(s).last()),
        forall|i: int| trim_end(s).len() <= i < s.len() ==> is_white(#[trigger] s[i]),
    decreases s.len(),
{
    if s.len() > 0 && is_white(s.last()) {
        let rest = s.drop_last();
        lemma_trim_end(rest);
        assert(rest.take(trim_end(rest).len() as int) =~= s.take(trim_end(rest).len() as int));
        assert forall|i: int| trim_end(s).len() <= i < s.len() implies is_white(#[trigger] s[i]) by {
            if i < s.len() - 1 {
                assert(rest[i] == s[i]);
            }
        }
    } else {
        assert(s.take(s.len() as int) =~= s);
    }
}

proof fn lemma_trim_start(s: Seq<char>)
    ensures
        trim_start(s).len() <= s.len(),
        trim_start(s) == s.skip(s.len() - trim_start(s).len()),
        trim_start(s).len() > 0 ==> !is_white(trim_start(s)[0]),
        forall|i: int| 0 <= i < s.len() - trim_start(s).len() ==> is_white(#[trigger] s[i]),
    decreases s.len(),
{
    if s.len() > 0 && is_white(s[0]) {
        let rest = s.skip(1);
        lemma_trim_start(rest);
        let n = trim_start(s).len() as int;
        assert(rest.skip(rest.len() - n) =~= s.skip(s.len() - n));
        assert forall|i: int| 0 <= i < s.len() - n implies is_white(#[trigger] s[i]) by {
            if i > 0 {
                assert(rest[i - 1] == s[i]);
            }
        }
    } else {
        assert(s.skip(0) =~= s);
    }
}

/// Trimming trims.
pub proof fn law_trimmed(s: Seq<char>)
    ensures
        exists|i: int| trims_to(s, trimmed(s), i),
{
    lemma_trim_start(s);
    let r = trim_start(s);
    lemma_trim_end(r);
    let t = trimmed(s);
    let i = s.len() - r.len();
    assert(t =~= s.subrange(i, i + t.len()));
    if t.len() > 0 {
        assert(t[0] == r[0]);
    }
    assert forall|k: int| i + t.len() <= k < s.len() implies is_white(#[trigger] s[k]) by {
        assert(r[k - i] == s[k]);
    }
    assert(trims_to(s, t, i));
}

proof fn lemma_find_from(s: Seq<char>, c: char, i: int)
    requires
        0 <= i <= s.len(),
    ensures
        i <= find_from(s, c, i) <= s.len(),
        forall|k: int| i <= k < find_from(s, c, i) ==> #[trigger] s[k] != c,
        find_from(s, c, i) < s.len() ==> s[find_from(s, c, i)] == c,
    decreases s.len() - i,
{
    if i < s.len() && s[i] != c {
        lemma_find_from(s, c, i + 1);
    }
}

/// What a line says: the text before the first `#`, trimmed.
pub proof fn law_line_content(line: Seq<char>)
    ensures
        exists|k: int, i: int|
            #![trigger trims_to(line.take(k), content_of(line), i)]
            0 <= k <= line.len() && (k == line.len() || line[k] == '#') && (forall|j: int|
                0 <= j < k ==> #[trigger] line[j] != '#') && trims_to(
                line.take(k),
                content_of(line),
                i,
            ),
{
    lemma_find_from(line, '#', 0);
    let k = find_from(line, '#', 0);
    law_trimmed(line.take(k));
    let i = choose|i: int| trims_to(line.take(k), trimmed(line.take(k)), i);
    assert(trims_to(line.take(k), content_of(line), i));
}

/// A text is cut at the first of a character, which goes; without one it is not cut.
pub proof fn law_split_char(s: Seq<char>, c: char)
    ensures
        match split_char(s, c) {
            Some((a, b)) => s == a + seq![c] + b && forall|i: int|
                0 <= i < a.len() ==> #[trigger] a[i] != c,
            None => forall|i: int| 0 <= i < s.len() ==> #[trigger] s[i] != c,
        },
{
    lemma_find_from(s, c, 0);
    let at = find_from(s, c, 0);
    if at < s.len() {
        assert(s =~= s.take(at) + seq![c] + s.skip(at + 1));
    }
}

proof fn lemma_arrow_from(s: Seq<char>, i: int)
    requires
        0 <= i <= s.len(),
    ensures
        i <= arrow_from(s, i) <= s.len(),
        forall|k: int| i <= k < arrow_from(s, i) ==> !(#[trigger] s[k] == '-' && s[k + 1] == '>'),
        arrow_from(s, i) + 1 < s.len() ==> s[arrow_from(s, i)] == '-' && s[arrow_from(s, i) + 1]
            == '>',
    decreases s.len() - i,
{
    if i + 1 < s.len() && !(s[i] == '-' && s[i + 1] == '>') {
        lemma_arrow_from(s, i + 1);
    }
}

/// A text is cut at the first arrow, which goes; without one it is not cut.
pub proof fn law_split_arrow(s: Seq<char>)
    ensures
        match split_arrow_of(s) {
            Some((a, b)) => s == a + seq!['-', '>'] + b && forall|i: int|
                0 <= i < a.len() ==> !(#[trigger] s[i] == '-' && s[i + 1] == '>'),
            None => forall|i: int|
                0 <= i < s.len() - 1 ==> !(#[trigger] s[i] == '-' && s[i + 1] == '>'),
        },
{
    lemma_arrow_from(s, 0);
    let at = arrow_from(s, 0);
    if at + 1 < s.len() {
        assert(s =~= s.take(at) + seq!['-', '>'] + s.skip(at + 2));
    }
}

// ---------------------------------------------------------------------------
// Fields
// ---------------------------------------------------------------------------

proof fn lemma_fields_behind(a: Seq<char>, b: Seq<char>, j: int)
    requires
        0 <= j <= b.len(),
    ensures
        fields_from(a + b, a.len() + j) == fields_from(b, j),
        field_end(a + b, a.len() + j) == a.len() + field_end(b, j),
    decreases b.len() - j,
{
    let s = a + b;
    let n = a.len() as int;
    if j < b.len() {
        assert(s[n + j] == b[j]);
        lemma_fields_behind(a, b, j + 1);
        if !is_white(b[j]) {
            lemma_field_end(b, j + 1);
            let e = field_end(b, j + 1);
            assert(field_end(s, n + j + 1) == n + e);
            lemma_fields_behind(a, b, e);
            assert(s.subrange(n + j, n + e) =~= b.subrange(j, e));
        }
    }
}

proof fn lemma_fields_split(a: Seq<char>, b: Seq<char>, i: int)
    requires
        0 <= i <= a.len(),
        (a.len() > 0 && is_white(a.last())) || (b.len() > 0 && is_white(b[0])) || a.len() == 0
            || b.len() == 0,
    ensures
        fields_from(a + b, i) == fields_from(a, i) + fields_from(b, 0),
        i < a.len() ==> field_end(a + b, i) == field_end(a, i),
    decreases a.len() - i,
{
    let s = a + b;
    let n = a.len() as int;
    if i >= n {
        lemma_fields_behind(a, b, 0);
        assert(fields_from(a, i) + fields_from(b, 0) =~= fields_from(b, 0));
    } else {
        assert(s[i] == a[i]);
        if b.len() > 0 {
            assert(s[n] == b[0]);
        }
        lemma_fields_split(a, b, i + 1);
        if !is_white(a[i]) {
            lemma_field_end(a, i + 1);
            let e = field_end(a, i + 1);
            assert(field_end(s, i + 1) == e) by {
                if i + 1 >= n {
                    assert(a.last() == a[i]);
                    assert(field_end(a, n) == n);
                }
            }
            lemma_fields_split(a, b, e);
            assert(s.subrange(i, e) =~= a.subrange(i, e));
            assert(fields_from(s, i) =~= fields_from(a, i) + fields_from(b, 0));
        }
    }
}

/// Text can be cut into fields piece by piece, wherever there is white space at the
/// cut; text without white space is one field, and white space is none.
pub proof fn law_fields(a: Seq<char>, b: Seq<char>)
    ensures
        a.len() == 0 || b.len() == 0 || is_white(a.last()) || is_white(b[0]) ==> fields_of(a + b)
            == fields_of(a) + fields_of(b),
        a.len() > 0 && (forall|i: int| 0 <= i < a.len() ==> !is_white(#[trigger] a[i]))
            ==> fields_of(a) == seq![a],
        (forall|i: int| 0 <= i < a.len() ==> is_white(#[trigger] a[i])) ==> fields_of(a).len() == 0,
{
    if a.len() == 0 || b.len() == 0 || is_white(a.last()) || is_white(b[0]) {
        lemma_fields_split(a, b, 0);
    }
    if a.len() > 0 && (forall|i: int| 0 <= i < a.len() ==> !is_white(#[trigger] a[i])) {
        lemma_no_white(a, 1);
        assert(!is_white(a[0]));
        assert(a.subrange(0, a.len() as int) =~= a);
        assert(fields_from(a, a.len() as int) =~= Seq::<Seq<char>>::empty());
        assert(fields_of(a) =~= seq![a]);
    }
    if forall|i: int| 0 <= i < a.len() ==> is_white(#[trigger] a[i]) {
        lemma_all_white(a, 0);
    }
}

proof fn lemma_no_white(a: Seq<char>, i: int)
    requires
        0 <= i <= a.len(),
        forall|k: int| 0 <= k < a.len() ==> !is_white(#[trigger] a[k]),
    ensures
        field_end(a, i) == a.len(),
    decreases a.len() - i,
{
    if i < a.len() {
        assert(!is_white(a[i]));
        lemma_no_white(a, i + 1);
    }
}

proof fn lemma_all_white(a: Seq<char>, i: int)
    requires
        0 <= i <= a.len(),
        forall|k: int| 0 <= k < a.len() ==> is_white(#[trigger] a[k]),
    ensures
        fields_from(a, i).len() == 0,
    decreases a.len() - i,
{
    if i < a.len() {
        assert(is_white(a[i]));
        lemma_all_white(a, i + 1);
    }
}

// ---------------------------------------------------------------------------
// Questions
// ---------------------------------------------------------------------------

/// Where the questions of a file stand: in increasing lines, each trimmed, and no
/// other line holds anything but white space.
pub open spec fn asked_at(lines: Seq<Seq<char>>, list: Seq<Seq<char>>, at: Seq<int>) -> bool {
    &&& at.len() == list.len()
    &&& forall|k: int|
        0 <= k < at.len() ==> 0 <= #[trigger] at[k] < lines.len() && list[k].len() > 0 && list[k]
            == trimmed(lines[at[k]])
    &&& forall|j: int, k: int| 0 <= j < k < at.len() ==> at[j] < at[k]
    &&& forall|n: int|
        0 <= n < lines.len() && !at.contains(n) ==> trimmed(#[trigger] lines[n]).len() == 0
}

proof fn lemma_asked_at(lines: Seq<Seq<char>>, n: int) -> (at: Seq<int>)
    requires
        0 <= n <= lines.len(),
    ensures
        asked_at(lines.take(n), questions_upto(lines, n), at),
    decreases n,
{
    if n == 0 {
        Seq::empty()
    } else {
        let before = lemma_asked_at(lines, n - 1);
        let (short, long) = (lines.take(n - 1), lines.take(n));
        let q = trimmed(lines[n - 1]);
        let at = if q.len() > 0 {
            before.push(n - 1)
        } else {
            before
        };
        let list = questions_upto(lines, n);
        assert forall|k: int| 0 <= k < at.len() implies 0 <= #[trigger] at[k] < long.len()
            && list[k].len() > 0 && list[k] == trimmed(long[at[k]]) by {
            if k < before.len() {
                assert(before[k] == at[k]);
                assert(short[before[k]] == long[at[k]]);
            }
        }
        assert forall|j: int, k: int| 0 <= j < k < at.len() implies at[j] < at[k] by {
            assert(before[j] == at[j]);
            if k < before.len() {
                assert(before[k] == at[k]);
            }
        }
        assert forall|m: int| 0 <= m < long.len() && !at.contains(m) implies trimmed(
            #[trigger] long[m],
        ).len() == 0 by {
            if m < n - 1 {
                assert(short[m] == long[m]);
                if before.contains(m) {
                    let i = before.index_of(m);
                    assert(at[i] == m);
                }
            } else if q.len() > 0 {
                assert(at[before.len() as int] == m);
            }
        }
        at
    }
}

/// The questions of a file are its lines in order, trimmed, without the blank ones.
pub proof fn law_questions_in_order(text: Seq<char>)
    ensures
        exists|at: Seq<int>| asked_at(lines_of(text), questions_of(text), at),
{
    let lines = lines_of(text);
    let at = lemma_asked_at(lines, lines.len() as int);
    assert(lines.take(lines.len() as int) =~= lines);
    assert(asked_at(lines, questions_of(text), at));
}

} // verus!
