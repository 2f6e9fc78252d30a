//! What route and topic files say, line by line.

use vstd::prelude::*;
use crate::lines::{
    after_prefix, content_of, fields_of, find_from, lines_of, split_arrow_of, split_char, trimmed,
};
use crate::model::RouteRow;
use crate::routes::{
    all_rows, emergency_line, field_cell, field_id, member_ids, no_routes, no_topics, route_line,
    route_lines, routes_of, row_line, topic_line, topic_lines, topics_of, Fault, RouteState,
    TopicState,
};
use crate::text::{is_white, uppered};
use crate::text_laws::{law_fields, law_split_arrow, law_split_char, law_trimmed, trims_to};
use crate::vocab::lemma_word_id_place;

verus! {

/// A text that a line keeps as it is: no `#` in it, and no white space at its ends.
pub open spec fn is_content(s: Seq<char>) -> bool {
    &&& s.len() > 0
    &&& !is_white(s[0])
    &&& !is_white(s.last())
    &&& forall|i: int| 0 <= i < s.len() ==> #[trigger] s[i] != '#'
}

/// A text without white space at its ends is what it is trimmed to.
proof fn lemma_trims_same(s: Seq<char>)
    requires
        s.len() > 0,
        !is_white(s[0]),
        !is_white(s.last()),
    ensures
        trimmed(s) == s,
{
    law_trimmed(s);
    let t = trimmed(s);
    let i = choose|i: int| trims_to(s, t, i);
    if i > 0 {
        assert(is_white(s[0]));
    }
    if i + t.len() < s.len() {
        assert(is_white(s[s.len() - 1]));
    }
    assert(t =~= s);
}

proof fn lemma_content_same(s: Seq<char>)
    requires
        is_content(s),
    ensures
        content_of(s) == s,
{
    lemma_no_comment(s, 0);
    assert(s.take(s.len() as int) =~= s);
    lemma_trims_same(s);
}

proof fn lemma_no_comment(s: Seq<char>, i: int)
    requires
        0 <= i <= s.len(),
        forall|k: int| 0 <= k < s.len() ==> #[trigger] s[k] != '#',
    ensures
        find_from(s, '#', i) == s.len(),
    decreases s.len() - i,
{
    if i < s.len() {
        lemma_no_comment(s, i + 1);
    }
}

/// A text that a left side of an arrow cannot hold.
pub open spec fn has_arrow(s: Seq<char>) -> bool {
    exists|i: int| 0 <= i < s.len() - 1 && #[trigger] s[i] == '-' && s[i + 1] == '>'
}

/// The left and the right side around the first arrow are what the text is cut into.
proof fn lemma_arrow_sides(lhs: Seq<char>, rhs: Seq<char>)
    requires
        !has_arrow(lhs.push('-')),
    ensures
        split_arrow_of(lhs + seq!['-', '>'] + rhs) == Some((lhs, rhs)),
{
    let s = lhs + seq!['-', '>'] + rhs;
    law_split_arrow(s);
    let n = lhs.len() as int;
    assert(s[n] == '-' && s[n + 1] == '>');
    match split_arrow_of(s) {
        None => {},
        Some((a, b)) => {
            if a.len() > n {
                assert(s[n] == '-' && s[n + 1] == '>');
            } else if a.len() < n {
                let k = a.len() as int;
                let t = a + seq!['-', '>'] + b;
                assert(t[k] == '-' && t[k + 1] == '>');
                assert(s[k] == '-' && s[k + 1] == '>');
                let l = lhs.push('-');
                assert(l[k] == s[k] && l[k + 1] == s[k + 1]);
                assert(has_arrow(l));
            }
            assert(a =~= lhs) by {
                let t = a + seq!['-', '>'] + b;
                assert forall|i: int| 0 <= i < n implies a[i] == lhs[i] by {
                    assert(t[i] == s[i]);
                }
            }
            assert(b =~= rhs) by {
                let t = a + seq!['-', '>'] + b;
                assert(t.len() == s.len());
                assert forall|i: int| 0 <= i < rhs.len() implies b[i] == rhs[i] by {
                    assert(t[n + 2 + i] == s[n + 2 + i]);
                }
            }
        },
    }
}

/// A cell of a row: the wildcard for `*`, the id of a word for the word in either
/// case.
pub open spec fn names_cell(words: Seq<Seq<char>>, field: Seq<char>, cell: u8) -> bool {
    if field =~= seq!['*'] {
        cell == 0xFE
    } else {
        cell < words.len() && words[cell as int] == uppered(field)
    }
}

/// A row with these cells: its level is 1 with both, 2 for a topic alone, 3 for a
/// question word alone.
pub open spec fn row_holds(
    words: Seq<Seq<char>>,
    row: RouteRow,
    q: Seq<char>,
    t: Seq<char>,
    a: Seq<char>,
    b: Seq<char>,
) -> bool {
    &&& names_cell(words, q, row.qtype)
    &&& names_cell(words, t, row.topic)
    &&& row.seed1 < words.len() && words[row.seed1 as int] == uppered(a)
    &&& row.seed2 < words.len() && words[row.seed2 as int] == uppered(b)
    &&& row.level == if q =~= seq!['*'] {
        2u8
    } else if t =~= seq!['*'] {
        3u8
    } else {
        1u8
    }
}

/// A field names a word of the vocabulary.
pub open spec fn is_known(words: Seq<Seq<char>>, field: Seq<char>) -> bool {
    words.contains(uppered(field))
}

/// A line `q t -> a b`, with any white space between its fields, adds one row behind
/// the rows of its level; a field that is no word is reported, the first one, and so
/// are two wildcards.
#[verifier::rlimit(60)]
pub proof fn law_route_line(
    words: Seq<Seq<char>>,
    lhs: Seq<char>,
    rhs: Seq<char>,
    ln: usize,
    st: RouteState,
)
    requires
        words.len() <= 248,
        is_content(lhs + seq!['-', '>'] + rhs),
        !has_arrow(lhs.push('-')),
        fields_of(lhs).len() == 2,
        fields_of(rhs).len() == 2,
    ensures
        ({
            let (q, t, a, b) = (
                fields_of(lhs)[0],
                fields_of(lhs)[1],
                fields_of(rhs)[0],
                fields_of(rhs)[1],
            );
            let out = route_line(words, lhs + seq!['-', '>'] + rhs, ln, st);
            let star = seq!['*'];
            let q_ok = q =~= star || is_known(words, q);
            let t_ok = t =~= star || is_known(words, t);
            &&& !q_ok ==> out == Err::<RouteState, Fault<Seq<char>>>(Fault::RouteWord(ln, q))
            &&& q_ok && !t_ok ==> out == Err::<RouteState, Fault<Seq<char>>>(
                Fault::RouteWord(ln, t),
            )
            &&& q_ok && t_ok && !is_known(words, a) ==> out == Err::<RouteState, Fault<Seq<char>>>(
                Fault::RouteWord(ln, a),
            )
            &&& q_ok && t_ok && is_known(words, a) && !is_known(words, b) ==> out == Err::<
                RouteState,
                Fault<Seq<char>>,
            >(Fault::RouteWord(ln, b))
            &&& q =~= star && t =~= star && is_known(words, a) && is_known(words, b) ==> out
                == Err::<RouteState, Fault<Seq<char>>>(Fault::DoubleWildcard(ln))
            &&& q_ok && t_ok && !(q =~= star && t =~= star) && is_known(words, a) && is_known(
                words,
                b,
            ) ==> match out {
                Err(_) => false,
                Ok(st2) => exists|row: RouteRow| #[trigger]
                    row_holds(words, row, q, t, a, b) && st2.emergency == st.emergency
                        && st2.by_both == (if row.level == 1 {
                        st.by_both.push(row)
                    } else {
                        st.by_both
                    }) && st2.by_topic == (if row.level == 2 {
                        st.by_topic.push(row)
                    } else {
                        st.by_topic
                    }) && st2.by_qtype == (if row.level == 3 {
                        st.by_qtype.push(row)
                    } else {
                        st.by_qtype
                    }),
            }
        }),
{
    let line = lhs + seq!['-', '>'] + rhs;
    lemma_content_same(line);
    lemma_arrow_sides(lhs, rhs);
    let (l, r) = (fields_of(lhs), fields_of(rhs));
    let (q, t, a, b) = (l[0], l[1], r[0], r[1]);
    reveal_strlit("*");
    assert("*"@ =~= seq!['*']);
    lemma_word_id_place(words, uppered(q));
    lemma_word_id_place(words, uppered(t));
    lemma_word_id_place(words, uppered(a));
    lemma_word_id_place(words, uppered(b));
    let out = route_line(words, line, ln, st);
    assert(out == row_line(words, l, r, ln, st));
    if out is Ok {
        let row = RouteRow {
            level: if q =~= seq!['*'] {
                2u8
            } else if t =~= seq!['*'] {
                3u8
            } else {
                1u8
            },
            qtype: field_cell(words, q)->Some_0,
            topic: field_cell(words, t)->Some_0,
            seed1: field_id(words, a)->Some_0,
            seed2: field_id(words, b)->Some_0,
        };
        assert(row_holds(words, row, q, t, a, b));
    }
}

/// A line `EMERGENCY -> a b` gives the emergency seed; a line before it is forgotten.
pub proof fn law_emergency_line(
    words: Seq<Seq<char>>,
    lhs: Seq<char>,
    rhs: Seq<char>,
    ln: usize,
    st: RouteState,
)
    requires
        words.len() <= 248,
        is_content(lhs + seq!['-', '>'] + rhs),
        !has_arrow(lhs.push('-')),
        fields_of(lhs) == seq![seq!['E', 'M', 'E', 'R', 'G', 'E', 'N', 'C', 'Y']],
    ensures
        ({
            let r = fields_of(rhs);
            let out = route_line(words, lhs + seq!['-', '>'] + rhs, ln, st);
            &&& r.len() != 2 ==> out == Err::<RouteState, Fault<Seq<char>>>(
                Fault::EmergencySeeds(ln),
            )
            &&& r.len() == 2 && !is_known(words, r[0]) ==> out == Err::<
                RouteState,
                Fault<Seq<char>>,
            >(Fault::RouteWord(ln, r[0]))
            &&& r.len() == 2 && is_known(words, r[0]) && !is_known(words, r[1]) ==> out == Err::<
                RouteState,
                Fault<Seq<char>>,
            >(Fault::RouteWord(ln, r[1]))
            &&& r.len() == 2 && is_known(words, r[0]) && is_known(words, r[1]) ==> match out {
                Err(_) => false,
                Ok(st2) => match st2.emergency {
                    None => false,
                    Some((a, b)) => {
                        &&& a < words.len() && words[a as int] == uppered(r[0])
                        &&& b < words.len() && words[b as int] == uppered(r[1])
                        &&& st2.by_both == st.by_both && st2.by_topic == st.by_topic
                            && st2.by_qtype == st.by_qtype
                    },
                },
            }
        }),
{
    let line = lhs + seq!['-', '>'] + rhs;
    lemma_content_same(line);
    lemma_arrow_sides(lhs, rhs);
    let (l, r) = (fields_of(lhs), fields_of(rhs));
    reveal_strlit("EMERGENCY");
    assert("EMERGENCY"@ =~= l[0]);
    if r.len() == 2 {
        lemma_word_id_place(words, uppered(r[0]));
        lemma_word_id_place(words, uppered(r[1]));
    }
    assert(route_line(words, line, ln, st) == emergency_line(words, r, ln, st));
}

/// Lines that add nothing, and lines of another shape: a blank line or a comment
/// changes nothing, a line without an arrow is reported, and so is one with another
/// number of fields.
pub proof fn law_route_line_shape(
    words: Seq<Seq<char>>,
    raw: Seq<char>,
    lhs: Seq<char>,
    rhs: Seq<char>,
    ln: usize,
    st: RouteState,
)
    ensures
        content_of(raw).len() == 0 ==> route_line(words, raw, ln, st) == Ok::<
            RouteState,
            Fault<Seq<char>>,
        >(st),
        is_content(raw) && !has_arrow(raw) ==> route_line(words, raw, ln, st) == Err::<
            RouteState,
            Fault<Seq<char>>,
        >(Fault::RouteArrow(ln)),
        is_content(lhs + seq!['-', '>'] + rhs) && !has_arrow(lhs.push('-')) && (fields_of(lhs).len()
            != 2 || fields_of(rhs).len() != 2) && !(fields_of(lhs) =~= seq![
            seq!['E', 'M', 'E', 'R', 'G', 'E', 'N', 'C', 'Y'],
        ]) ==> route_line(words, lhs + seq!['-', '>'] + rhs, ln, st) == Err::<
            RouteState,
            Fault<Seq<char>>,
        >(Fault::RouteShape(ln)),
{
    if is_content(raw) && !has_arrow(raw) {
        lemma_content_same(raw);
        law_split_arrow(raw);
        if let Some((a, b)) = split_arrow_of(raw) {
            let t = a + seq!['-', '>'] + b;
            let k = a.len() as int;
            assert(t[k] == '-' && t[k + 1] == '>');
            assert(raw[k] == '-');
        }
    }
    let line = lhs + seq!['-', '>'] + rhs;
    if is_content(line) && !has_arrow(lhs.push('-')) {
        lemma_content_same(line);
        lemma_arrow_sides(lhs, rhs);
        reveal_strlit("EMERGENCY");
        let l = fields_of(lhs);
        assert("EMERGENCY"@ =~= seq!['E', 'M', 'E', 'R', 'G', 'E', 'N', 'C', 'Y']);
        if l.len() == 1 && l[0] == "EMERGENCY"@ {
            assert(l =~= seq![seq!['E', 'M', 'E', 'R', 'G', 'E', 'N', 'C', 'Y']]);
        }
    }
}

/// What a numbered line makes of a state.
#[verifier::opaque]
pub open spec fn line_makes(
    words: Seq<Seq<char>>,
    line: Seq<char>,
    ln: usize,
    st: RouteState,
    out: Result<RouteState, Fault<Seq<char>>>,
) -> bool {
    route_line(words, line, ln, st) == out
}

/// The states of reading a route file line by line.
pub open spec fn reads_routes(
    words: Seq<Seq<char>>,
    lines: Seq<Seq<char>>,
    n: int,
    states: Seq<RouteState>,
) -> bool {
    &&& states.len() == n + 1
    &&& states[0].by_both.len() == 0 && states[0].by_topic.len() == 0 && states[0].by_qtype.len() == 0
        && states[0].emergency is None
    &&& forall|i: int|
        0 <= i < n ==> line_makes(
            words,
            lines[i],
            (i + 1) as usize,
            #[trigger] states[i],
            Ok(states[i + 1]),
        )
}

#[verifier::rlimit(60)]
proof fn lemma_reads_routes(words: Seq<Seq<char>>, lines: Seq<Seq<char>>, n: int) -> (states: Seq<
    RouteState,
>)
    requires
        0 <= n <= lines.len(),
    ensures
        match route_lines(words, lines, n) {
            Ok(st) => reads_routes(words, lines, n, states) && states.last() == st,
            Err(f) => exists|k: int|
                0 <= k < n && #[trigger] reads_routes(words, lines, k, states) && line_makes(
                    words,
                    lines[k],
                    (k + 1) as usize,
                    states.last(),
                    Err(f),
                ),
        },
    decreases n,
{
    if n == 0 {
        seq![no_routes()]
    } else {
        let before = lemma_reads_routes(words, lines, n - 1);
        if let Ok(st) = route_lines(words, lines, n - 1) {
            let out = route_lines(words, lines, n);
            lemma_line_makes(words, lines, n, st);
            match out {
                Err(f) => {
                    assert(reads_routes(words, lines, n - 1, before));
                    before
                },
                Ok(next) => {
                    let states = before.push(next);
                    assert forall|i: int| 0 <= i < n implies line_makes(
                        words,
                        lines[i],
                        (i + 1) as usize,
                        #[trigger] states[i],
                        Ok(states[i + 1]),
                    ) by {
                        assert(states[i] == before[i]);
                    }
                    states
                },
            }
        } else {
            before
        }
    }
}

proof fn lemma_line_makes(words: Seq<Seq<char>>, lines: Seq<Seq<char>>, n: int, st: RouteState)
    requires
        n > 0,
        route_lines(words, lines, n - 1) == Ok::<RouteState, Fault<Seq<char>>>(st),
    ensures
        line_makes(words, lines[n - 1], n as usize, st, route_lines(words, lines, n)),
{
    reveal(line_makes);
}

/// A route file is read line by line, lines counted from 1, and the first line at
/// fault is reported. It has to name an emergency seed and has room for 255 rows:
/// first those with both cells, then those for a topic, then those for a question
/// word.
pub proof fn law_route_file(words: Seq<Seq<char>>, src: Seq<char>)
    ensures
        exists|states: Seq<RouteState>|
            #![trigger states.last()]
            {
                let lines = lines_of(src);
                let n = lines.len() as int;
                match routes_of(words, src) {
                    Ok((rows, e)) => reads_routes(words, lines, n, states)
                        && states.last().emergency == Some(e) && rows == states.last().by_both
                        + states.last().by_topic + states.last().by_qtype && rows.len() <= 255,
                    Err(f) => {
                        ||| exists|k: int|
                            0 <= k < n && #[trigger] reads_routes(words, lines, k, states)
                                && line_makes(
                                words,
                                lines[k],
                                (k + 1) as usize,
                                states.last(),
                                Err(f),
                            )
                        ||| reads_routes(words, lines, n, states) && states.last().emergency is None
                            && f == Fault::<Seq<char>>::NoEmergency
                        ||| reads_routes(words, lines, n, states) && states.last().emergency is Some
                            && states.last().by_both.len() + states.last().by_topic.len()
                            + states.last().by_qtype.len() > 255 && f
                            == Fault::<Seq<char>>::TooManyRoutes
                    },
                }
            },
{
    let lines = lines_of(src);
    let states = lemma_reads_routes(words, lines, lines.len() as int);
    let last = states.last();
    assert(all_rows(last).len() == last.by_both.len() + last.by_topic.len() + last.by_qtype.len());
}

// ---------------------------------------------------------------------------
// Topic files
// ---------------------------------------------------------------------------

proof fn lemma_members(words: Seq<Seq<char>>, list: Seq<Seq<char>>, ln: usize)
    requires
        words.len() <= 256,
    ensures
        match member_ids(words, list, ln) {
            Ok(ids) => ids.len() == list.len() && forall|i: int|
                0 <= i < list.len() ==> #[trigger] ids[i] < words.len() && words[ids[i] as int]
                    == list[i],
            Err(f) => exists|k: int|
                0 <= k < list.len() && f == Fault::TopicWord(ln, #[trigger] list[k])
                    && !words.contains(list[k]) && forall|i: int|
                    0 <= i < k ==> words.contains(#[trigger] list[i]),
        },
    decreases list.len(),
{
    if list.len() > 0 {
        let rest = list.drop_last();
        lemma_members(words, rest, ln);
        lemma_word_id_place(words, list.last());
        match member_ids(words, rest, ln) {
            Err(f) => {
                let k = choose|k: int|
                    0 <= k < rest.len() && f == Fault::TopicWord(ln, #[trigger] rest[k])
                        && !words.contains(rest[k]) && forall|i: int|
                        0 <= i < k ==> words.contains(#[trigger] rest[i]);
                assert(list[k] == rest[k]);
                assert forall|i: int| 0 <= i < k implies words.contains(#[trigger] list[i]) by {
                    assert(rest[i] == list[i]);
                }
            },
            Ok(ids) => {
                match member_ids(words, list, ln) {
                    Ok(all) => {
                        assert forall|i: int| 0 <= i < list.len() implies #[trigger] all[i]
                            < words.len() && words[all[i] as int] == list[i] by {
                            if i < rest.len() {
                                assert(all[i] == ids[i]);
                                assert(rest[i] == list[i]);
                            }
                        }
                    },
                    Err(f) => {
                        let k = list.len() - 1;
                        assert(f == Fault::TopicWord(ln, list[k]));
                        assert forall|i: int| 0 <= i < k implies words.contains(
                            #[trigger] list[i],
                        ) by {
                            assert(rest[i] == list[i]);
                            assert(words[ids[i] as int] == list[i]);
                        }
                    },
                }
            },
        }
    }
}

/// A line `TOPIC name: words` or `TOPIC name TECH: words` adds a group with the name,
/// the flag and the ids of the words, behind the groups before it; the first word
/// that is none is reported.
#[verifier::rlimit(60)]
pub proof fn law_topic_line(
    words: Seq<Seq<char>>,
    head: Seq<char>,
    tail: Seq<char>,
    ln: usize,
    st: TopicState,
)
    requires
        words.len() <= 256,
        is_content(seq!['T', 'O', 'P', 'I', 'C', ' '] + head + seq![':'] + tail),
        forall|i: int| 0 <= i < head.len() ==> #[trigger] head[i] != ':',
        fields_of(head).len() > 0,
    ensures
        ({
            let h = fields_of(head);
            let list = fields_of(tail);
            match topic_line(
                words,
                seq!['T', 'O', 'P', 'I', 'C', ' '] + head + seq![':'] + tail,
                ln,
                st,
            ) {
                Ok(st2) => {
                    &&& st2.names == st.names.push(h[0])
                    &&& st2.tech == st.tech.push(
                        h.len() >= 2 && h[1] =~= seq!['T', 'E', 'C', 'H'],
                    )
                    &&& st2.members.len() == st.members.len() + 1
                    &&& forall|g: int|
                        0 <= g < st.members.len() ==> #[trigger] st2.members[g] == st.members[g]
                    &&& st2.members.last().len() == list.len()
                    &&& forall|i: int|
                        0 <= i < list.len() ==> #[trigger] st2.members.last()[i] < words.len()
                            && words[st2.members.last()[i] as int] == list[i]
                },
                Err(f) => exists|k: int|
                    0 <= k < list.len() && f == Fault::TopicWord(ln, #[trigger] list[k])
                        && !words.contains(list[k]) && forall|i: int|
                        0 <= i < k ==> words.contains(#[trigger] list[i]),
            }
        }),
{
    let lead = seq!['T', 'O', 'P', 'I', 'C', ' '];
    let rest = head + seq![':'] + tail;
    let line = lead + head + seq![':'] + tail;
    assert(line =~= lead + rest);
    lemma_content_same(line);
    reveal_strlit("TOPIC ");
    reveal_strlit("TECH");
    assert("TOPIC "@ =~= lead);
    assert("TECH"@ =~= seq!['T', 'E', 'C', 'H']);
    assert(lead.is_prefix_of(line));
    assert(line.skip(6) =~= rest);
    assert(after_prefix(line, "TOPIC "@) == Some(rest));
    law_split_char(rest, ':');
    let n = head.len() as int;
    assert(rest[n] == ':');
    match split_char(rest, ':') {
        None => {},
        Some((a, b)) => {
            let t = a + seq![':'] + b;
            if a.len() > n {
                assert(a[n] == t[n]);
            } else if a.len() < n {
                assert(t[a.len() as int] == ':');
                assert(head[a.len() as int] == rest[a.len() as int]);
            }
            assert(a =~= head) by {
                assert forall|i: int| 0 <= i < n implies a[i] == head[i] by {
                    assert(t[i] == rest[i]);
                }
            }
            assert(b =~= tail) by {
                assert(t.len() == rest.len());
                assert forall|i: int| 0 <= i < tail.len() implies b[i] == tail[i] by {
                    assert(t[n + 1 + i] == rest[n + 1 + i]);
                }
            }
        },
    }
    lemma_members(words, fields_of(tail), ln);
}

/// Lines of another shape: a blank line or a comment changes nothing; a line without
/// the lead, without a colon behind it or without a name is reported, in that order.
#[verifier::rlimit(60)]
pub proof fn law_topic_line_shape(
    words: Seq<Seq<char>>,
    raw: Seq<char>,
    rest: Seq<char>,
    ln: usize,
    st: TopicState,
)
    ensures
        content_of(raw).len() == 0 ==> topic_line(words, raw, ln, st) == Ok::<
            TopicState,
            Fault<Seq<char>>,
        >(st),
        is_content(raw) && !seq!['T', 'O', 'P', 'I', 'C', ' '].is_prefix_of(raw) ==> topic_line(
            words,
            raw,
            ln,
            st,
        ) == Err::<TopicState, Fault<Seq<char>>>(Fault::TopicPrefix(ln)),
        is_content(seq!['T', 'O', 'P', 'I', 'C', ' '] + rest) && (forall|i: int|
            0 <= i < rest.len() ==> #[trigger] rest[i] != ':') ==> topic_line(
            words,
            seq!['T', 'O', 'P', 'I', 'C', ' '] + rest,
            ln,
            st,
        ) == Err::<TopicState, Fault<Seq<char>>>(Fault::TopicColon(ln)),
        is_content(seq!['T', 'O', 'P', 'I', 'C', ' '] + rest) && (exists|k: int|
            0 <= k < rest.len() && #[trigger] rest[k] == ':' && (forall|i: int|
                0 <= i < k ==> is_white(#[trigger] rest[i]))) ==> topic_line(
            words,
            seq!['T', 'O', 'P', 'I', 'C', ' '] + rest,
            ln,
            st,
        ) == Err::<TopicState, Fault<Seq<char>>>(Fault::TopicNameless(ln)),
{
    let lead = seq!['T', 'O', 'P', 'I', 'C', ' '];
    reveal_strlit("TOPIC ");
    assert("TOPIC "@ =~= lead);
    if is_content(raw) {
        lemma_content_same(raw);
    }
    let line = lead + rest;
    if is_content(line) {
        lemma_content_same(line);
        assert(lead.is_prefix_of(line));
        assert(line.skip(6) =~= rest);
        law_split_char(rest, ':');
        if forall|i: int| 0 <= i < rest.len() ==> #[trigger] rest[i] != ':' {
            if let Some((a, b)) = split_char(rest, ':') {
                let t = a + seq![':'] + b;
                assert(t[a.len() as int] == ':');
                assert(rest[a.len() as int] == ':');
            }
        }
        if exists|k: int|
            0 <= k < rest.len() && #[trigger] rest[k] == ':' && (forall|i: int|
                0 <= i < k ==> is_white(#[trigger] rest[i])) {
            let k = choose|k: int|
                0 <= k < rest.len() && #[trigger] rest[k] == ':' && (forall|i: int|
                    0 <= i < k ==> is_white(#[trigger] rest[i]));
            match split_char(rest, ':') {
                None => {},
                Some((a, b)) => {
                    let t = a + seq![':'] + b;
                    assert(rest[a.len() as int] == t[a.len() as int]);
                    if a.len() > k {
                        assert(a[k] == t[k]);
                    }
                    assert forall|i: int| 0 <= i < a.len() implies is_white(#[trigger] a[i]) by {
                        assert(a[i] == t[i]);
                        if a.len() < k {
                            assert(is_white(rest[a.len() as int]));
                        }
                        assert(is_white(rest[i]));
                    }
                    law_fields(a, b);
                },
            }
        }
    }
}

/// What a numbered line makes of the groups.
#[verifier::opaque]
pub open spec fn topic_makes(
    words: Seq<Seq<char>>,
    line: Seq<char>,
    ln: usize,
    st: TopicState,
    out: Result<TopicState, Fault<Seq<char>>>,
) -> bool {
    topic_line(words, line, ln, st) == out
}

/// The states of reading a topic file line by line.
pub open spec fn reads_topics(
    words: Seq<Seq<char>>,
    lines: Seq<Seq<char>>,
    n: int,
    states: Seq<TopicState>,
) -> bool {
    &&& states.len() == n + 1
    &&& states[0].names.len() == 0 && states[0].tech.len() == 0 && states[0].members.len() == 0
    &&& forall|i: int|
        0 <= i < n ==> topic_makes(
            words,
            lines[i],
            (i + 1) as usize,
            #[trigger] states[i],
            Ok(states[i + 1]),
        )
}

proof fn lemma_topic_makes(words: Seq<Seq<char>>, lines: Seq<Seq<char>>, n: int, st: TopicState)
    requires
        n > 0,
        topic_lines(words, lines, n - 1) == Ok::<TopicState, Fault<Seq<char>>>(st),
    ensures
        topic_makes(words, lines[n - 1], n as usize, st, topic_lines(words, lines, n)),
{
    reveal(topic_makes);
}

proof fn lemma_reads_topics(words: Seq<Seq<char>>, lines: Seq<Seq<char>>, n: int) -> (states: Seq<
    TopicState,
>)
    requires
        0 <= n <= lines.len(),
    ensures
        match topic_lines(words, lines, n) {
            Ok(st) => reads_topics(words, lines, n, states) && states.last() == st,
            Err(f) => exists|k: int|
                0 <= k < n && #[trigger] reads_topics(words, lines, k, states) && topic_makes(
                    words,
                    lines[k],
                    (k + 1) as usize,
                    states.last(),
                    Err(f),
                ),
        },
    decreases n,
{
    if n == 0 {
        seq![no_topics()]
    } else {
        let before = lemma_reads_topics(words, lines, n - 1);
        if let Ok(st) = topic_lines(words, lines, n - 1) {
            let out = topic_lines(words, lines, n);
            lemma_topic_makes(words, lines, n, st);
            match out {
                Err(f) => {
                    assert(reads_topics(words, lines, n - 1, before));
                    before
                },
                Ok(next) => {
                    let states = before.push(next);
                    assert forall|i: int| 0 <= i < n implies topic_makes(
                        words,
                        lines[i],
                        (i + 1) as usize,
                        #[trigger] states[i],
                        Ok(states[i + 1]),
                    ) by {
                        assert(states[i] == before[i]);
                    }
                    states
                },
            }
        } else {
            before
        }
    }
}

/// A topic file is read line by line, lines counted from 1, and the first line at
/// fault is reported. It has room for 16 groups.
pub proof fn law_topic_file(words: Seq<Seq<char>>, src: Seq<char>)
    ensures
        exists|states: Seq<TopicState>|
            #![trigger states.last()]
            {
                let lines = lines_of(src);
                let n = lines.len() as int;
                match topics_of(words, src) {
                    Ok(st) => reads_topics(words, lines, n, states) && states.last() == st
                        && st.members.len() <= 16,
                    Err(f) => {
                        ||| exists|k: int|
                            0 <= k < n && #[trigger] reads_topics(words, lines, k, states)
                                && topic_makes(
                                words,
                                lines[k],
                                (k + 1) as usize,
                                states.last(),
                                Err(f),
                            )
                        ||| reads_topics(words, lines, n, states) && states.last().members.len() > 16
                            && f == Fault::<Seq<char>>::TooManyTopics
                    },
                }
            },
{
    let lines = lines_of(src);
    let states = lemma_reads_topics(words, lines, lines.len() as int);
    let last = states.last();
}

} // verus!
