//! Lines, fields and separators of text files.

use vstd::prelude::*;
use crate::text::{chars_of, is_white, is_whitespace, string_of, texts};

verus! {

// ---------------------------------------------------------------------------
// Lines
// ---------------------------------------------------------------------------

/// Where the line that `i` lies in ends.
pub open spec fn line_end(s: Seq<char>, i: int) -> int
    decreases s.len() - i,
{
    if 0 <= i < s.len() && s[i] != '\n' {
        line_end(s, i + 1)
    } else {
        i
    }
}

/// A line ends within the text.
pub proof fn lemma_line_end(s: Seq<char>, i: int)
    requires
        0 <= i <= s.len(),
    ensures
        i <= line_end(s, i) <= s.len(),
    decreases s.len() - i,
{
    if i < s.len() && s[i] != '\n' {
        lemma_line_end(s, i + 1);
    }
}

/// A line without the carriage return before its line feed.
pub open spec fn without_return(line: Seq<char>) -> Seq<char> {
    if line.len() > 0 && line.last() == '\r' {
        line.drop_last()
    } else {
        line
    }
}

/// The lines of a text from `i` on, without their line ends: a line feed, with or
/// without a carriage return before it.
pub open spec fn lines_from(s: Seq<char>, i: int) -> Seq<Seq<char>>
    decreases s.len() - i,
{
    if i < 0 || i >= s.len() {
        seq![]
    } else {
        proof {
            lemma_line_end(s, i);
        }
        if line_end(s, i) < s.len() {
            seq![without_return(s.subrange(i, line_end(s, i)))] + lines_from(
                s,
                line_end(s, i) + 1,
            )
        } else {
            seq![s.skip(i)]
        }
    }
}

/// The lines of a text.
pub open spec fn lines_of(s: Seq<char>) -> Seq<Seq<char>> {
    lines_from(s, 0)
}

/// The contents of a list of runs of characters.
pub open spec fn runs(list: Seq<Vec<char>>) -> Seq<Seq<char>> {
    Seq::new(list.len(), |i: int| list[i]@)
}

/// The lines of a text.
pub fn split_lines(s: &[char]) -> (lines: Vec<Vec<char>>)
    ensures
        runs(lines@) == lines_of(s@),
{
    let mut lines: Vec<Vec<char>> = Vec::new();
    let mut i: usize = 0;
    let mut start: usize = 0;
    while i < s.len()
        invariant
            start <= i <= s.len(),
            start < s.len() || start == i,
            line_end(s@, i as int) == line_end(s@, start as int),
            runs(lines@) + lines_from(s@, start as int) == lines_of(s@),
        decreases s.len() - i,
    {
        if s[i] == '\n' {
            let ghost before = runs(lines@);
            let ghost whole = s@.subrange(start as int, i as int);
            let end: usize = if i > start && s[i - 1] == '\r' {
                i - 1
            } else {
                i
            };
            lines.push(vstd::slice::slice_to_vec(&s[start..end]));
            assert(s@.subrange(start as int, end as int) == without_return(whole));
            assert(runs(lines@) == before.push(without_return(whole)));
            start = i + 1;
        }
        i = i + 1;
    }
    if start < s.len() {
        let ghost before = runs(lines@);
        lines.push(vstd::slice::slice_to_vec(&s[start..s.len()]));
        assert(s@.subrange(start as int, s@.len() as int) == s@.skip(start as int));
        assert(runs(lines@) == before.push(s@.skip(start as int)));
    }
    lines
}

// ---------------------------------------------------------------------------
// The content of a line
// ---------------------------------------------------------------------------

/// The first place of a character at or behind `i`, the length without one.
pub open spec fn find_from(s: Seq<char>, c: char, i: int) -> int
    decreases s.len() - i,
{
    if 0 <= i < s.len() && s[i] != c {
        find_from(s, c, i + 1)
    } else {
        i
    }
}

/// Without white space at the start.
pub open spec fn trim_start(s: Seq<char>) -> Seq<char>
    decreases s.len(),
{
    if s.len() > 0 && is_white(s[0]) {
        trim_start(s.skip(1))
    } else {
        s
    }
}

/// Without white space at the end.
pub open spec fn trim_end(s: Seq<char>) -> Seq<char>
    decreases s.len(),
{
    if s.len() > 0 && is_white(s.last()) {
        trim_end(s.drop_last())
    } else {
        s
    }
}

/// A line without its comment (from `#` on) and without white space around it.
pub open spec fn content_of(line: Seq<char>) -> Seq<char> {
    trimmed(line.take(find_from(line, '#', 0)))
}

fn find(s: &[char], c: char) -> (at: usize)
    ensures
        at == find_from(s@, c, 0),
        at <= s.len(),
        at < s.len() ==> s@[at as int] == c,
{
    let mut i: usize = 0;
    while i < s.len() && s[i] != c
        invariant
            i <= s.len(),
            find_from(s@, c, i as int) == find_from(s@, c, 0),
        decreases s.len() - i,
    {
        i = i + 1;
    }
    i
}

/// A text without white space at the end.
pub fn without_end<'a>(s: &'a [char]) -> (text: &'a [char])
    ensures
        text@ == trim_end(s@),
{
    let mut end: usize = s.len();
    assert(s@.subrange(0, end as int) == s@);
    while end > 0 && is_whitespace(s[end - 1])
        invariant
            end <= s.len(),
            trim_end(s@.subrange(0, end as int)) == trim_end(s@),
        decreases end,
    {
        assert(s@.subrange(0, end as int).drop_last() == s@.subrange(0, end - 1));
        end = end - 1;
    }
    &s[0..end]
}

/// A text without white space around it.
pub open spec fn trimmed(s: Seq<char>) -> Seq<char> {
    trim_end(trim_start(s))
}

/// A text without white space around it.
pub fn trim<'a>(s: &'a [char]) -> (text: &'a [char])
    ensures
        text@ == trimmed(s@),
{
    let mut start: usize = 0;
    assert(s@.subrange(0, s@.len() as int) == s@);
    while start < s.len() && is_whitespace(s[start])
        invariant
            start <= s.len(),
            trim_start(s@.subrange(start as int, s@.len() as int)) == trim_start(s@),
        decreases s.len() - start,
    {
        assert(s@.subrange(start as int, s@.len() as int).skip(1) == s@.subrange(
            start + 1,
            s@.len() as int,
        ));
        start = start + 1;
    }
    without_end(&s[start..s.len()])
}

/// A line without its comment and without white space around it.
pub fn content<'a>(line: &'a [char]) -> (text: &'a [char])
    ensures
        text@ == content_of(line@),
{
    let cut = find(line, '#');
    assert(line@.subrange(0, cut as int) == line@.take(cut as int));
    trim(&line[0..cut])
}

// ---------------------------------------------------------------------------
// Fields
// ---------------------------------------------------------------------------

/// Where the run of characters other than white space that `i` lies in ends.
pub open spec fn field_end(s: Seq<char>, i: int) -> int
    decreases s.len() - i,
{
    if 0 <= i < s.len() && !is_white(s[i]) {
        field_end(s, i + 1)
    } else {
        i
    }
}

/// A field ends within the text.
pub proof fn lemma_field_end(s: Seq<char>, i: int)
    requires
        0 <= i <= s.len(),
    ensures
        i <= field_end(s, i) <= s.len(),
    decreases s.len() - i,
{
    if i < s.len() && !is_white(s[i]) {
        lemma_field_end(s, i + 1);
    }
}

/// The fields of a text from `i` on: maximal runs without white space.
pub open spec fn fields_from(s: Seq<char>, i: int) -> Seq<Seq<char>>
    decreases s.len() - i,
{
    if i < 0 || i >= s.len() {
        seq![]
    } else if is_white(s[i]) {
        fields_from(s, i + 1)
    } else {
        proof {
            lemma_field_end(s, i + 1);
        }
        seq![s.subrange(i, field_end(s, i + 1))] + fields_from(s, field_end(s, i + 1))
    }
}

/// The fields of a text.
pub open spec fn fields_of(s: Seq<char>) -> Seq<Seq<char>> {
    fields_from(s, 0)
}

/// The fields of a text.
pub fn fields(s: &[char]) -> (list: Vec<Vec<char>>)
    ensures
        runs(list@) == fields_of(s@),
{
    let mut list: Vec<Vec<char>> = Vec::new();
    let mut i: usize = 0;
    while i < s.len()
        invariant
            i <= s.len(),
            runs(list@) + fields_from(s@, i as int) == fields_of(s@),
        decreases s.len() - i,
    {
        if is_whitespace(s[i]) {
            i = i + 1;
        } else {
            let ghost before = runs(list@);
            let mut j: usize = i + 1;
            while j < s.len() && !is_whitespace(s[j])
                invariant
                    i < j <= s.len(),
                    field_end(s@, j as int) == field_end(s@, i + 1),
                decreases s.len() - j,
            {
                j = j + 1;
            }
            list.push(vstd::slice::slice_to_vec(&s[i..j]));
            assert(runs(list@) == before.push(s@.subrange(i as int, j as int)));
            i = j;
        }
    }
    list
}

// ---------------------------------------------------------------------------
// Separators
// ---------------------------------------------------------------------------

/// What stands before and behind the first character `c`.
pub open spec fn split_char(s: Seq<char>, c: char) -> Option<(Seq<char>, Seq<char>)> {
    let at = find_from(s, c, 0);
    if at < s.len() {
        Some((s.take(at), s.skip(at + 1)))
    } else {
        None
    }
}

/// The first place of `->` at or behind `i`, or where the search ends.
pub open spec fn arrow_from(s: Seq<char>, i: int) -> int
    decreases s.len() - i,
{
    if 0 <= i && i + 1 < s.len() && !(s[i] == '-' && s[i + 1] == '>') {
        arrow_from(s, i + 1)
    } else {
        i
    }
}

/// What stands before and behind the first `->`.
pub open spec fn split_arrow_of(s: Seq<char>) -> Option<(Seq<char>, Seq<char>)> {
    let at = arrow_from(s, 0);
    if at + 1 < s.len() {
        Some((s.take(at), s.skip(at + 2)))
    } else {
        None
    }
}

/// What stands before and behind the first character `c`.
pub fn split_at_char<'a>(s: &'a [char], c: char) -> (parts: Option<(&'a [char], &'a [char])>)
    ensures
        match parts {
            Some((a, b)) => split_char(s@, c) == Some((a@, b@)),
            None => split_char(s@, c) is None,
        },
{
    let at = find(s, c);
    if at < s.len() {
        assert(s@.subrange(0, at as int) == s@.take(at as int));
        assert(s@.subrange(at + 1, s@.len() as int) == s@.skip(at + 1));
        Some((&s[0..at], &s[at + 1..s.len()]))
    } else {
        None
    }
}

/// What stands before and behind the first `->`.
pub fn split_arrow<'a>(s: &'a [char]) -> (parts: Option<(&'a [char], &'a [char])>)
    ensures
        match parts {
            Some((a, b)) => split_arrow_of(s@) == Some((a@, b@)),
            None => split_arrow_of(s@) is None,
        },
{
    let mut i: usize = 0;
    while i < s.len() && i + 1 < s.len() && !(s[i] == '-' && s[i + 1] == '>')
        invariant
            i <= s.len(),
            arrow_from(s@, i as int) == arrow_from(s@, 0),
        decreases s.len() - i,
    {
        i = i + 1;
    }
    if i < s.len() && i + 1 < s.len() {
        assert(s@.subrange(0, i as int) == s@.take(i as int));
        assert(s@.subrange(i + 2, s@.len() as int) == s@.skip(i + 2));
        Some((&s[0..i], &s[i + 2..s.len()]))
    } else {
        None
    }
}

/// What stands behind a prefix.
pub open spec fn after_prefix(s: Seq<char>, prefix: Seq<char>) -> Option<Seq<char>> {
    if prefix.is_prefix_of(s) {
        Some(s.skip(prefix.len() as int))
    } else {
        None
    }
}

/// What stands behind a prefix.
pub fn strip_prefix<'a>(s: &'a [char], prefix: &[char]) -> (rest: Option<&'a [char]>)
    ensures
        match rest {
            Some(r) => after_prefix(s@, prefix@) == Some(r@),
            None => after_prefix(s@, prefix@) is None,
        },
{
    if s.len() < prefix.len() {
        return None;
    }
    let mut i: usize = 0;
    while i < prefix.len()
        invariant
            i <= prefix.len() <= s.len(),
            forall|k: int| 0 <= k < i ==> s@[k] == prefix@[k],
        decreases prefix.len() - i,
    {
        if s[i] != prefix[i] {
            proof {
                if prefix@.is_prefix_of(s@) {
                    assert(s@.subrange(0, prefix@.len() as int)[i as int] == s@[i as int]);
                }
            }
            return None;
        }
        i = i + 1;
    }
    assert(prefix@ =~= s@.subrange(0, prefix@.len() as int));
    assert(s@.subrange(prefix@.len() as int, s@.len() as int) == s@.skip(prefix@.len() as int));
    Some(&s[prefix.len()..s.len()])
}

// ---------------------------------------------------------------------------
// Question files
// ---------------------------------------------------------------------------

/// The first `n` lines without white space around them, blank ones left out.
pub open spec fn questions_upto(lines: Seq<Seq<char>>, n: int) -> Seq<Seq<char>>
    decreases n,
{
    if n <= 0 {
        seq![]
    } else {
        let q = trimmed(lines[n - 1]);
        if q.len() > 0 {
            questions_upto(lines, n - 1).push(q)
        } else {
            questions_upto(lines, n - 1)
        }
    }
}

/// The questions of a file, one per line.
pub open spec fn questions_of(text: Seq<char>) -> Seq<Seq<char>> {
    questions_upto(lines_of(text), lines_of(text).len() as int)
}

/// The questions of a file, one per line.
pub fn questions(text: &str) -> (list: Vec<String>)
    ensures
        texts(list@) == questions_of(text@),
{
    let lines = split_lines(&chars_of(text));
    let ghost all = lines_of(text@);
    let mut list: Vec<String> = Vec::new();
    assert(texts(list@) =~= Seq::<Seq<char>>::empty());
    let mut i: usize = 0;
    while i < lines.len()
        invariant
            i <= lines.len(),
            all == lines_of(text@),
            runs(lines@) == all,
            texts(list@) == questions_upto(all, i as int),
        decreases lines.len() - i,
    {
        assert(all[i as int] == lines@[i as int]@);
        let q = trim(&lines[i]);
        if q.len() > 0 {
            let ghost before = texts(list@);
            list.push(string_of(q));
            assert(texts(list@) =~= before.push(q@));
        }
        i = i + 1;
    }
    list
}

} // verus!
