//! The route file and the topic file.

use vstd::prelude::*;
use crate::lines::{
    after_prefix, content, content_of, fields, fields_of, lines_of, runs, split_arrow,
    split_arrow_of, split_at_char, split_char, split_lines, strip_prefix,
};
use crate::model::{
    RouteRow, ATTR_QTYPE, ATTR_TOPIC, N_TOPICS_MAX, R_QTYPE, R_QT_TOPIC, R_TOPIC, WILDCARD,
};
use crate::sentences::lists;
use crate::text::{chars_of, same_chars, string_of, texts, upper_chars, uppered};
use crate::vocab::{vocab_sound, word_id, WordVocab};

verus! {

/// Why a corpus, a route file or a topic file is refused. Line numbers start at
/// 1; `W` is the kind of text that words are held in.
#[derive(Debug)]
pub enum Fault<W> {
    /// Fewer than three words.
    CorpusTooSmall,
    /// More different words than the ROM has room for.
    TooManyWords(usize),
    /// A word longer than the display takes.
    WordTooLong(W),
    /// No question mark in the corpus.
    NoQuestionMark,
    /// A word without a successor: generation could stall.
    NoSuccessor(W),
    /// A route line without `->`.
    RouteArrow(usize),
    /// An emergency line without two seed words.
    EmergencySeeds(usize),
    /// A route line without two words on either side.
    RouteShape(usize),
    /// A word of a route line that the vocabulary lacks.
    RouteWord(usize, W),
    /// A route line with wildcards for both question type and topic.
    DoubleWildcard(usize),
    /// No emergency line.
    NoEmergency,
    /// More than 255 routes.
    TooManyRoutes,
    /// A topic line that does not start with `TOPIC`.
    TopicPrefix(usize),
    /// A topic line without a colon.
    TopicColon(usize),
    /// A topic line without a name.
    TopicNameless(usize),
    /// A word of a topic line that the vocabulary lacks.
    TopicWord(usize, W),
    /// More topic groups than the classifier bank has room for.
    TooManyTopics,
    /// The emergency seed has no trigram record.
    EmergencyMiss,
}

/// What goes wrong when a model is built.
pub type BuildError = Fault<String>;

/// A fault with its words as contracts see them.
pub open spec fn fault_of(f: Fault<String>) -> Fault<Seq<char>> {
    match f {
        Fault::CorpusTooSmall => Fault::CorpusTooSmall,
        Fault::TooManyWords(n) => Fault::TooManyWords(n),
        Fault::WordTooLong(w) => Fault::WordTooLong(w@),
        Fault::NoQuestionMark => Fault::NoQuestionMark,
        Fault::NoSuccessor(w) => Fault::NoSuccessor(w@),
        Fault::RouteArrow(n) => Fault::RouteArrow(n),
        Fault::EmergencySeeds(n) => Fault::EmergencySeeds(n),
        Fault::RouteShape(n) => Fault::RouteShape(n),
        Fault::RouteWord(n, w) => Fault::RouteWord(n, w@),
        Fault::DoubleWildcard(n) => Fault::DoubleWildcard(n),
        Fault::NoEmergency => Fault::NoEmergency,
        Fault::TooManyRoutes => Fault::TooManyRoutes,
        Fault::TopicPrefix(n) => Fault::TopicPrefix(n),
        Fault::TopicColon(n) => Fault::TopicColon(n),
        Fault::TopicNameless(n) => Fault::TopicNameless(n),
        Fault::TopicWord(n, w) => Fault::TopicWord(n, w@),
        Fault::TooManyTopics => Fault::TooManyTopics,
        Fault::EmergencyMiss => Fault::EmergencyMiss,
    }
}

// ---------------------------------------------------------------------------
// Routes
// ---------------------------------------------------------------------------

/// Rows by level, and the emergency seed, as read so far.
pub struct RouteTable {
    pub by_both: Vec<RouteRow>,
    pub by_topic: Vec<RouteRow>,
    pub by_qtype: Vec<RouteRow>,
    pub emergency: Option<(u8, u8)>,
}

/// The route table as contracts see it.
#[verifier::ext_equal]
pub struct RouteState {
    pub by_both: Seq<RouteRow>,
    pub by_topic: Seq<RouteRow>,
    pub by_qtype: Seq<RouteRow>,
    pub emergency: Option<(u8, u8)>,
}

impl View for RouteTable {
    type V = RouteState;

    open spec fn view(&self) -> RouteState {
        RouteState {
            by_both: self.by_both@,
            by_topic: self.by_topic@,
            by_qtype: self.by_qtype@,
            emergency: self.emergency,
        }
    }
}

/// The word that a field of a route line names, in any case.
pub open spec fn field_id(words: Seq<Seq<char>>, field: Seq<char>) -> Option<u8> {
    word_id(words, uppered(field))
}

/// The word or the wildcard that a field of a route line names.
pub open spec fn field_cell(words: Seq<Seq<char>>, field: Seq<char>) -> Option<u8> {
    if field == "*"@ {
        Some(WILDCARD)
    } else {
        field_id(words, field)
    }
}

/// A row in its place: rows for question type and topic, for a topic alone, for
/// a question type alone; `None` for two wildcards.
pub open spec fn with_row(st: RouteState, qtype: u8, topic: u8, seed1: u8, seed2: u8) -> Option<
    RouteState,
> {
    if qtype == WILDCARD && topic == WILDCARD {
        None
    } else if qtype == WILDCARD {
        Some(
            RouteState {
                by_topic: st.by_topic.push(
                    RouteRow { level: R_TOPIC, qtype, topic, seed1, seed2 },
                ),
                ..st
            },
        )
    } else if topic == WILDCARD {
        Some(
            RouteState {
                by_qtype: st.by_qtype.push(
                    RouteRow { level: R_QTYPE, qtype, topic, seed1, seed2 },
                ),
                ..st
            },
        )
    } else {
        Some(
            RouteState {
                by_both: st.by_both.push(
                    RouteRow { level: R_QT_TOPIC, qtype, topic, seed1, seed2 },
                ),
                ..st
            },
        )
    }
}

/// What an emergency line adds.
pub open spec fn emergency_line(
    words: Seq<Seq<char>>,
    r: Seq<Seq<char>>,
    ln: usize,
    st: RouteState,
) -> Result<RouteState, Fault<Seq<char>>> {
    if r.len() != 2 {
        Err(Fault::EmergencySeeds(ln))
    } else {
        match (field_id(words, r[0]), field_id(words, r[1])) {
            (Some(a), Some(b)) => Ok(RouteState { emergency: Some((a, b)), ..st }),
            (Some(_), None) => Err(Fault::RouteWord(ln, r[1])),
            _ => Err(Fault::RouteWord(ln, r[0])),
        }
    }
}

/// What a route line with the fields `l` and `r` adds.
pub open spec fn row_line(
    words: Seq<Seq<char>>,
    l: Seq<Seq<char>>,
    r: Seq<Seq<char>>,
    ln: usize,
    st: RouteState,
) -> Result<RouteState, Fault<Seq<char>>> {
    if l.len() != 2 || r.len() != 2 {
        Err(Fault::RouteShape(ln))
    } else if field_cell(words, l[0]) is None {
        Err(Fault::RouteWord(ln, l[0]))
    } else if field_cell(words, l[1]) is None {
        Err(Fault::RouteWord(ln, l[1]))
    } else if field_id(words, r[0]) is None {
        Err(Fault::RouteWord(ln, r[0]))
    } else if field_id(words, r[1]) is None {
        Err(Fault::RouteWord(ln, r[1]))
    } else {
        match with_row(
            st,
            field_cell(words, l[0])->Some_0,
            field_cell(words, l[1])->Some_0,
            field_id(words, r[0])->Some_0,
            field_id(words, r[1])->Some_0,
        ) {
            Some(st2) => Ok(st2),
            None => Err(Fault::DoubleWildcard(ln)),
        }
    }
}

/// What line `ln` of the route file adds.
pub open spec fn route_line(
    words: Seq<Seq<char>>,
    raw: Seq<char>,
    ln: usize,
    st: RouteState,
) -> Result<RouteState, Fault<Seq<char>>> {
    let line = content_of(raw);
    if line.len() == 0 {
        Ok(st)
    } else {
        match split_arrow_of(line) {
            None => Err(Fault::RouteArrow(ln)),
            Some((lhs, rhs)) => {
                let l = fields_of(lhs);
                let r = fields_of(rhs);
                if l.len() == 1 && l[0] == "EMERGENCY"@ {
                    emergency_line(words, r, ln, st)
                } else {
                    row_line(words, l, r, ln, st)
                }
            },
        }
    }
}

/// An empty route table.
pub open spec fn no_routes() -> RouteState {
    RouteState { by_both: seq![], by_topic: seq![], by_qtype: seq![], emergency: None }
}

/// The first `n` lines of the route file; the first fault ends it.
pub open spec fn route_lines(words: Seq<Seq<char>>, lines: Seq<Seq<char>>, n: int) -> Result<
    RouteState,
    Fault<Seq<char>>,
>
    decreases n,
{
    if n <= 0 {
        Ok(no_routes())
    } else {
        match route_lines(words, lines, n - 1) {
            Err(f) => Err(f),
            Ok(st) => route_line(words, lines[n - 1], n as usize, st),
        }
    }
}

/// The routes in priority order.
pub open spec fn all_rows(st: RouteState) -> Seq<RouteRow> {
    st.by_both + st.by_topic + st.by_qtype
}

/// The routes and the emergency seed that a route file gives.
pub open spec fn routes_of(words: Seq<Seq<char>>, src: Seq<char>) -> Result<
    (Seq<RouteRow>, (u8, u8)),
    Fault<Seq<char>>,
> {
    match route_lines(words, lines_of(src), lines_of(src).len() as int) {
        Err(f) => Err(f),
        Ok(st) => match st.emergency {
            None => Err(Fault::NoEmergency),
            Some(e) => if all_rows(st).len() > 255 {
                Err(Fault::TooManyRoutes)
            } else {
                Ok((all_rows(st), e))
            },
        },
    }
}

/// A row whose level says which of its cells are wildcards.
pub open spec fn level_fits(row: RouteRow) -> bool {
    if row.qtype != WILDCARD && row.topic != WILDCARD {
        row.level == R_QT_TOPIC
    } else if row.topic != WILDCARD {
        row.level == R_TOPIC
    } else {
        row.level == R_QTYPE && row.qtype != WILDCARD
    }
}

/// Rows of one level.
pub open spec fn all_of_level(rows: Seq<RouteRow>, level: u8) -> bool {
    forall|i: int|
        0 <= i < rows.len() ==> (#[trigger] rows[i]).level == level && level_fits(rows[i])
}

proof fn lemma_levels(words: Seq<Seq<char>>, lines: Seq<Seq<char>>, n: int)
    ensures
        route_lines(words, lines, n) matches Ok(st) ==> {
            &&& all_of_level(st.by_both, R_QT_TOPIC)
            &&& all_of_level(st.by_topic, R_TOPIC)
            &&& all_of_level(st.by_qtype, R_QTYPE)
        },
    decreases n,
{
    if n > 0 {
        lemma_levels(words, lines, n - 1);
    }
}

/// The routes of a file stand in priority order: question type and topic, then
/// topic alone, then question type alone; and the level of a row says which.
pub proof fn law_routes_ordered(words: Seq<Seq<char>>, src: Seq<char>)
    ensures
        routes_of(words, src) matches Ok((rows, _)) ==> {
            &&& forall|i: int| 0 <= i < rows.len() ==> level_fits(#[trigger] rows[i])
            &&& forall|i: int, j: int|
                0 <= i <= j < rows.len() ==> (#[trigger] rows[i]).level <= (
                #[trigger] rows[j]).level
        },
{
    let lines = lines_of(src);
    lemma_levels(words, lines, lines.len() as int);
    if let Ok(st) = route_lines(words, lines, lines.len() as int) {
        let rows = all_rows(st);
        let k = st.by_both.len() as int;
        let l = k + st.by_topic.len();
        assert forall|i: int| 0 <= i < rows.len() implies level_fits(#[trigger] rows[i])
            && rows[i].level == (if i < k {
            R_QT_TOPIC
        } else if i < l {
            R_TOPIC
        } else {
            R_QTYPE
        }) by {
            if i < k {
                assert(rows[i] == st.by_both[i]);
            } else if i < l {
                assert(rows[i] == st.by_topic[i - k]);
            } else {
                assert(rows[i] == st.by_qtype[i - l]);
            }
        }
    }
}

/// The attribute byte of a word: whether some row has it as a question type, and
/// whether some row has it as a topic.
pub open spec fn attr_byte(rows: Seq<RouteRow>, w: int) -> u8 {
    let q = w != WILDCARD && exists|i: int|
        0 <= i < rows.len() && (#[trigger] rows[i]).qtype == w;
    let t = w != WILDCARD && exists|i: int|
        0 <= i < rows.len() && (#[trigger] rows[i]).topic == w;
    if q && t {
        (ATTR_QTYPE + ATTR_TOPIC) as u8
    } else if q {
        ATTR_QTYPE
    } else if t {
        ATTR_TOPIC
    } else {
        0
    }
}

/// The attribute bytes of all words.
pub open spec fn attr_of(rows: Seq<RouteRow>) -> Seq<u8> {
    Seq::new(256, |w: int| attr_byte(rows, w))
}

fn is_text(run: &Vec<char>, text: &str) -> (yes: bool)
    ensures
        yes == (run@ == text@),
{
    same_chars(run, &chars_of(text))
}

fn id_of_field(vocab: &WordVocab, field: &Vec<char>) -> (id: Option<u8>)
    requires
        vocab_sound(vocab@),
    ensures
        id == field_id(vocab@, field@),
{
    vocab.id(string_of(&upper_chars(field)).as_str())
}

fn cell_of_field(vocab: &WordVocab, field: &Vec<char>) -> (cell: Option<u8>)
    requires
        vocab_sound(vocab@),
    ensures
        cell == field_cell(vocab@, field@),
{
    if is_text(field, "*") {
        Some(WILDCARD)
    } else {
        id_of_field(vocab, field)
    }
}

impl RouteTable {
    fn read_emergency(&mut self, vocab: &WordVocab, r: &Vec<Vec<char>>, ln: usize) -> (out: Result<
        (),
        BuildError,
    >)
        requires
            vocab_sound(vocab@),
        ensures
            match (out, emergency_line(vocab@, runs(r@), ln, old(self)@)) {
                (Ok(_), Ok(st)) => final(self)@ == st,
                (Err(f), Err(g)) => fault_of(f) == g,
                _ => false,
            },
    {
        if r.len() != 2 {
            return Err(Fault::EmergencySeeds(ln));
        }
        match id_of_field(vocab, &r[0]) {
            None => Err(Fault::RouteWord(ln, string_of(&r[0]))),
            Some(a) => match id_of_field(vocab, &r[1]) {
                None => Err(Fault::RouteWord(ln, string_of(&r[1]))),
                Some(b) => {
                    self.emergency = Some((a, b));
                    Ok(())
                },
            },
        }
    }

    fn read_row(
        &mut self,
        vocab: &WordVocab,
        l: &Vec<Vec<char>>,
        r: &Vec<Vec<char>>,
        ln: usize,
    ) -> (out: Result<(), BuildError>)
        requires
            vocab_sound(vocab@),
        ensures
            match (out, row_line(vocab@, runs(l@), runs(r@), ln, old(self)@)) {
                (Ok(_), Ok(st)) => final(self)@ == st,
                (Err(f), Err(g)) => fault_of(f) == g,
                _ => false,
            },
    {
        if l.len() != 2 || r.len() != 2 {
            return Err(Fault::RouteShape(ln));
        }
        let qtype = match cell_of_field(vocab, &l[0]) {
            None => return Err(Fault::RouteWord(ln, string_of(&l[0]))),
            Some(c) => c,
        };
        let topic = match cell_of_field(vocab, &l[1]) {
            None => return Err(Fault::RouteWord(ln, string_of(&l[1]))),
            Some(c) => c,
        };
        let seed1 = match id_of_field(vocab, &r[0]) {
            None => return Err(Fault::RouteWord(ln, string_of(&r[0]))),
            Some(c) => c,
        };
        let seed2 = match id_of_field(vocab, &r[1]) {
            None => return Err(Fault::RouteWord(ln, string_of(&r[1]))),
            Some(c) => c,
        };
        if qtype == WILDCARD && topic == WILDCARD {
            return Err(Fault::DoubleWildcard(ln));
        }
        if qtype == WILDCARD {
            self.by_topic.push(RouteRow { level: R_TOPIC, qtype, topic, seed1, seed2 });
        } else if topic == WILDCARD {
            self.by_qtype.push(RouteRow { level: R_QTYPE, qtype, topic, seed1, seed2 });
        } else {
            self.by_both.push(RouteRow { level: R_QT_TOPIC, qtype, topic, seed1, seed2 });
        }
        Ok(())
    }

    fn read_line(&mut self, vocab: &WordVocab, raw: &Vec<char>, ln: usize) -> (out: Result<
        (),
        BuildError,
    >)
        requires
            vocab_sound(vocab@),
        ensures
            match (out, route_line(vocab@, raw@, ln, old(self)@)) {
                (Ok(_), Ok(st)) => final(self)@ == st,
                (Err(f), Err(g)) => fault_of(f) == g,
                _ => false,
            },
    {
        let line = content(raw);
        if line.len() == 0 {
            return Ok(());
        }
        match split_arrow(line) {
            None => Err(Fault::RouteArrow(ln)),
            Some((lhs, rhs)) => {
                let l = fields(lhs);
                let r = fields(rhs);
                assert(l@.len() == 1 ==> runs(l@)[0] == l@[0]@);
                if l.len() == 1 && is_text(&l[0], "EMERGENCY") {
                    self.read_emergency(vocab, &r, ln)
                } else {
                    self.read_row(vocab, &l, &r, ln)
                }
            },
        }
    }
}

proof fn lemma_route_fault(words: Seq<Seq<char>>, lines: Seq<Seq<char>>, k: int, n: int)
    requires
        k <= n,
        route_lines(words, lines, k) is Err,
    ensures
        route_lines(words, lines, n) == route_lines(words, lines, k),
    decreases n - k,
{
    if k < n && n > 0 {
        lemma_route_fault(words, lines, k, n - 1);
    }
}

/// Reads the route file.
pub fn read_routes(vocab: &WordVocab, src: &str) -> (out: Result<
    (Vec<RouteRow>, (u8, u8)),
    BuildError,
>)
    requires
        vocab_sound(vocab@),
    ensures
        match (out, routes_of(vocab@, src@)) {
            (Ok((rows, seed)), Ok((rows2, seed2))) => rows@ == rows2 && seed == seed2,
            (Err(f), Err(g)) => fault_of(f) == g,
            _ => false,
        },
{
    let lines = split_lines(&chars_of(src));
    let ghost all = lines_of(src@);
    let mut table = RouteTable {
        by_both: Vec::new(),
        by_topic: Vec::new(),
        by_qtype: Vec::new(),
        emergency: None,
    };
    assert(table@ =~= no_routes());
    let mut i: usize = 0;
    while i < lines.len()
        invariant
            i <= lines.len(),
            vocab_sound(vocab@),
            all == lines_of(src@),
            runs(lines@) == all,
            route_lines(vocab@, all, i as int) == Ok::<RouteState, Fault<Seq<char>>>(table@),
        decreases lines.len() - i,
    {
        assert(all[i as int] == lines@[i as int]@);
        let read = table.read_line(vocab, &lines[i], i + 1);
        if let Err(f) = read {
            proof {
                lemma_route_fault(vocab@, all, i + 1, all.len() as int);
            }
            return Err(f);
        }
        i = i + 1;
    }
    let RouteTable { by_both, by_topic, by_qtype, emergency } = table;
    match emergency {
        None => Err(Fault::NoEmergency),
        Some(seed) => {
            let mut rows = by_both;
            let mut more = by_topic;
            let mut last = by_qtype;
            rows.append(&mut more);
            rows.append(&mut last);
            if rows.len() > 255 {
                Err(Fault::TooManyRoutes)
            } else {
                Ok((rows, seed))
            }
        },
    }
}

/// The attribute bytes of all words.
pub fn attributes(rows: &Vec<RouteRow>) -> (attr: [u8; 256])
    ensures
        attr@ == attr_of(rows@),
{
    let mut attr: [u8; 256] = [0;256];
    let mut w: usize = 0;
    while w < 256
        invariant
            w <= 256,
            forall|k: int| 0 <= k < w ==> attr@[k] == #[trigger] attr_byte(rows@, k),
        decreases 256 - w,
    {
        let mut q = false;
        let mut t = false;
        if w != WILDCARD as usize {
            let mut i: usize = 0;
            while i < rows.len()
                invariant
                    i <= rows.len(),
                    q == (exists|k: int| 0 <= k < i && (#[trigger] rows@[k]).qtype == w),
                    t == (exists|k: int| 0 <= k < i && (#[trigger] rows@[k]).topic == w),
                decreases rows.len() - i,
            {
                let row = &rows[i];
                assert(row == rows@[i as int]);
                if row.qtype as usize == w {
                    q = true;
                }
                if row.topic as usize == w {
                    t = true;
                }
                i = i + 1;
            }
        }
        attr[w] = if q && t {
            ATTR_QTYPE + ATTR_TOPIC
        } else if q {
            ATTR_QTYPE
        } else if t {
            ATTR_TOPIC
        } else {
            0
        };
        w = w + 1;
    }
    assert(attr@ =~= attr_of(rows@));
    attr
}

// ---------------------------------------------------------------------------
// Topics
// ---------------------------------------------------------------------------

/// Topic groups: names, whether they are technical, and their member words.
pub struct TopicTable {
    pub names: Vec<String>,
    pub tech: Vec<bool>,
    pub members: Vec<Vec<u8>>,
}

/// The topic groups as contracts see them.
#[verifier::ext_equal]
pub struct TopicState {
    pub names: Seq<Seq<char>>,
    pub tech: Seq<bool>,
    pub members: Seq<Seq<u8>>,
}

impl View for TopicTable {
    type V = TopicState;

    open spec fn view(&self) -> TopicState {
        TopicState { names: texts(self.names@), tech: self.tech@, members: lists(self.members@) }
    }
}

/// The ids of the member words, which must be spelled as in the vocabulary.
pub open spec fn member_ids(words: Seq<Seq<char>>, list: Seq<Seq<char>>, ln: usize) -> Result<
    Seq<u8>,
    Fault<Seq<char>>,
>
    decreases list.len(),
{
    if list.len() == 0 {
        Ok(seq![])
    } else {
        match member_ids(words, list.drop_last(), ln) {
            Err(f) => Err(f),
            Ok(ids) => match word_id(words, list.last()) {
                None => Err(Fault::TopicWord(ln, list.last())),
                Some(id) => Ok(ids.push(id)),
            },
        }
    }
}

/// What line `ln` of the topic file adds: a group `TOPIC name [TECH]: words`.
pub open spec fn topic_line(
    words: Seq<Seq<char>>,
    raw: Seq<char>,
    ln: usize,
    st: TopicState,
) -> Result<TopicState, Fault<Seq<char>>> {
    let line = content_of(raw);
    if line.len() == 0 {
        Ok(st)
    } else {
        match after_prefix(line, "TOPIC "@) {
            None => Err(Fault::TopicPrefix(ln)),
            Some(rest) => match split_char(rest, ':') {
                None => Err(Fault::TopicColon(ln)),
                Some((head, tail)) => {
                    let h = fields_of(head);
                    if h.len() == 0 {
                        Err(Fault::TopicNameless(ln))
                    } else {
                        match member_ids(words, fields_of(tail), ln) {
                            Err(f) => Err(f),
                            Ok(ids) => Ok(
                                TopicState {
                                    names: st.names.push(h[0]),
                                    tech: st.tech.push(h.len() > 1 && h[1] == "TECH"@),
                                    members: st.members.push(ids),
                                },
                            ),
                        }
                    }
                },
            },
        }
    }
}

/// No topic groups.
pub open spec fn no_topics() -> TopicState {
    TopicState { names: seq![], tech: seq![], members: seq![] }
}

/// The first `n` lines of the topic file; the first fault ends it.
pub open spec fn topic_lines(words: Seq<Seq<char>>, lines: Seq<Seq<char>>, n: int) -> Result<
    TopicState,
    Fault<Seq<char>>,
>
    decreases n,
{
    if n <= 0 {
        Ok(no_topics())
    } else {
        match topic_lines(words, lines, n - 1) {
            Err(f) => Err(f),
            Ok(st) => topic_line(words, lines[n - 1], n as usize, st),
        }
    }
}

/// The topic groups that a topic file gives.
pub open spec fn topics_of(words: Seq<Seq<char>>, src: Seq<char>) -> Result<
    TopicState,
    Fault<Seq<char>>,
> {
    match topic_lines(words, lines_of(src), lines_of(src).len() as int) {
        Err(f) => Err(f),
        Ok(st) => if st.members.len() > N_TOPICS_MAX {
            Err(Fault::TooManyTopics)
        } else {
            Ok(st)
        },
    }
}

proof fn lemma_member_fault(words: Seq<Seq<char>>, list: Seq<Seq<char>>, k: int, ln: usize)
    requires
        0 <= k <= list.len(),
        member_ids(words, list.take(k), ln) is Err,
    ensures
        member_ids(words, list, ln) == member_ids(words, list.take(k), ln),
    decreases list.len() - k,
{
    if k < list.len() {
        assert(list.drop_last().take(k) =~= list.take(k));
        if k < list.len() - 1 {
            lemma_member_fault(words, list.drop_last(), k, ln);
        } else {
            assert(list.drop_last() =~= list.take(k));
        }
    } else {
        assert(list.take(k) =~= list);
    }
}

fn read_members(vocab: &WordVocab, list: &Vec<Vec<char>>, ln: usize) -> (out: Result<
    Vec<u8>,
    BuildError,
>)
    requires
        vocab_sound(vocab@),
    ensures
        match (out, member_ids(vocab@, runs(list@), ln)) {
            (Ok(ids), Ok(ids2)) => ids@ == ids2,
            (Err(f), Err(g)) => fault_of(f) == g,
            _ => false,
        },
{
    let mut ids: Vec<u8> = Vec::new();
    let ghost all = runs(list@);
    let mut i: usize = 0;
    while i < list.len()
        invariant
            i <= list.len(),
            vocab_sound(vocab@),
            all == runs(list@),
            member_ids(vocab@, all.take(i as int), ln) == Ok::<Seq<u8>, Fault<Seq<char>>>(ids@),
        decreases list.len() - i,
    {
        proof {
            assert(all.take(i + 1).drop_last() =~= all.take(i as int));
            assert(all.take(i + 1).last() == list@[i as int]@);
        }
        let w = string_of(&list[i]);
        match vocab.id(w.as_str()) {
            Some(id) => ids.push(id),
            None => {
                proof {
                    lemma_member_fault(vocab@, all, i + 1, ln);
                }
                return Err(Fault::TopicWord(ln, w));
            },
        }
        i = i + 1;
    }
    assert(all.take(i as int) =~= all);
    Ok(ids)
}

impl TopicTable {
    fn read_line(&mut self, vocab: &WordVocab, raw: &Vec<char>, ln: usize) -> (out: Result<
        (),
        BuildError,
    >)
        requires
            vocab_sound(vocab@),
        ensures
            match (out, topic_line(vocab@, raw@, ln, old(self)@)) {
                (Ok(_), Ok(st)) => final(self)@ == st,
                (Err(f), Err(g)) => fault_of(f) == g,
                _ => false,
            },
    {
        let line = content(raw);
        if line.len() == 0 {
            return Ok(());
        }
        let prefix = chars_of("TOPIC ");
        let rest = match strip_prefix(line, &prefix) {
            None => return Err(Fault::TopicPrefix(ln)),
            Some(rest) => rest,
        };
        match split_at_char(rest, ':') {
            None => Err(Fault::TopicColon(ln)),
            Some((head, tail)) => {
                let h = fields(head);
                if h.len() == 0 {
                    return Err(Fault::TopicNameless(ln));
                }
                match read_members(vocab, &fields(tail), ln) {
                    Err(f) => Err(f),
                    Ok(ids) => {
                        let tech = h.len() > 1 && is_text(&h[1], "TECH");
                        let name = string_of(&h[0]);
                        let ghost before = self@;
                        assert(runs(h@)[0] == h@[0]@);
                        assert(h@.len() > 1 ==> runs(h@)[1] == h@[1]@);
                        self.names.push(name);
                        self.tech.push(tech);
                        self.members.push(ids);
                        assert(texts(self.names@) =~= before.names.push(name@));
                        assert(lists(self.members@) =~= before.members.push(ids@));
                        Ok(())
                    },
                }
            },
        }
    }
}

proof fn lemma_topic_fault(words: Seq<Seq<char>>, lines: Seq<Seq<char>>, k: int, n: int)
    requires
        k <= n,
        topic_lines(words, lines, k) is Err,
    ensures
        topic_lines(words, lines, n) == topic_lines(words, lines, k),
    decreases n - k,
{
    if k < n && n > 0 {
        lemma_topic_fault(words, lines, k, n - 1);
    }
}

/// Reads the topic file.
pub fn read_topics(vocab: &WordVocab, src: &str) -> (out: Result<TopicTable, BuildError>)
    requires
        vocab_sound(vocab@),
    ensures
        match (out, topics_of(vocab@, src@)) {
            (Ok(table), Ok(st)) => table@ == st,
            (Err(f), Err(g)) => fault_of(f) == g,
            _ => false,
        },
{
    let lines = split_lines(&chars_of(src));
    let ghost all = lines_of(src@);
    let mut table = TopicTable { names: Vec::new(), tech: Vec::new(), members: Vec::new() };
    assert(table@ =~= no_topics());
    let mut i: usize = 0;
    while i < lines.len()
        invariant
            i <= lines.len(),
            vocab_sound(vocab@),
            all == lines_of(src@),
            runs(lines@) == all,
            topic_lines(vocab@, all, i as int) == Ok::<TopicState, Fault<Seq<char>>>(table@),
        decreases lines.len() - i,
    {
        assert(all[i as int] == lines@[i as int]@);
        let read = table.read_line(vocab, &lines[i], i + 1);
        if let Err(f) = read {
            proof {
                lemma_topic_fault(vocab@, all, i + 1, all.len() as int);
            }
            return Err(f);
        }
        i = i + 1;
    }
    if table.members.len() > N_TOPICS_MAX {
        Err(Fault::TooManyTopics)
    } else {
        Ok(table)
    }
}

} // verus!
