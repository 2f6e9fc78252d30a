//! What contracts see of a value is what it holds, field by field.

use vstd::prelude::*;
use crate::builder::ModelPlan;
use crate::cpu6502::{machine, Bus, Cpu};
use crate::lines::runs;
use crate::model::Model;
use crate::nes::{Nes, NesBus};
use crate::neural::NeuralInt;
use crate::pipeline::Trace;
use crate::report::{Outcome, Report};
use crate::routes::{fault_of, BuildError, Fault, RouteTable, TopicTable};
use crate::sentences::lists;
use crate::terminal::Keypad;
use crate::text::texts;
use crate::vocab::WordVocab;

verus! {

/// The contents of lists stand in the order of the lists.
pub proof fn law_list_views(a: Seq<String>, b: Seq<Vec<u8>>, c: Seq<Vec<char>>, i: int)
    ensures
        texts(a).len() == a.len(),
        0 <= i < a.len() ==> texts(a)[i] == a[i]@,
        lists(b).len() == b.len(),
        0 <= i < b.len() ==> lists(b)[i] == b[i]@,
        runs(c).len() == c.len(),
        0 <= i < c.len() ==> runs(c)[i] == c[i]@,
{
}

/// A machine is a processor and what is on its bus.
pub proof fn law_machine_view<T: Bus>(cpu: Cpu, bus: T)
    ensures
        machine(cpu, bus).cpu == cpu,
        machine(cpu, bus).bus == bus.state(),
{
}

/// A model.
pub proof fn law_model_view(m: Model)
    ensures
        m@.vocab_size == m.vocab_size,
        m@.k == m.k,
        m@.qmark_id == m.qmark_id,
        m@.emergency == m.emergency,
        m@.tri == m.tri@,
        m@.bi == m.bi@,
        m@.words == m.vocab@,
        m@.attr == m.attr@,
        m@.routes == m.routes@,
        m@.cls == m.cls@,
        m@.neural == m.neural@,
        m@.topic_names == texts(m.topic_names@),
        m@.topic_tech == m.topic_tech@,
        m@.qtype_names == texts(m.qtype_names@),
{
}

/// A plan.
pub proof fn law_plan_view(p: ModelPlan)
    ensures
        p@.words == p.vocab@,
        p@.qmark_id == p.qmark_id,
        p@.emergency == p.emergency,
        p@.tri == p.tri@,
        p@.bi == p.bi@,
        p@.attr == p.attr@,
        p@.routes == p.routes@,
        p@.cls == p.cls@,
        p@.topic_names == texts(p.topic_names@),
        p@.topic_tech == p.topic_tech@,
        p@.qtype_names == texts(p.qtype_names@),
        p@.examples == p.examples@,
        p@.n_tri == p.n_tri,
        p@.n_bi == p.n_bi,
{
}

/// A network.
pub proof fn law_network_view(n: NeuralInt)
    ensures
        n@.v == n.v,
        n@.emb == n.emb@,
        n@.w1 == n.w1@,
        n@.b1 == n.b1@,
        n@.w2 == n.w2@,
        n@.b2 == n.b2@,
        n@.sh_h == n.sh_h,
        n@.sh_out == n.sh_out,
{
}

/// A trace.
pub proof fn law_trace_view(t: Trace)
    ensures
        t@.typed == t.typed@,
        t@.normalized_text == t.normalized_text@,
        t@.known_word_ids == t.known_word_ids@,
        t@.qtype == t.qtype,
        t@.topic == t.topic,
        t@.tone == t.tone,
        t@.seed == t.seed,
        t@.reason == t.reason,
        t@.gen_level_max == t.gen_level_max,
        t@.words == t.words@,
{
}

/// A report.
pub proof fn law_report_view(r: Report)
    ensures
        r@.status == r.status,
        r@.count == r.count,
        r@.budget == r.budget,
        r@.reason == r.reason,
        r@.level == r.level,
        r@.tone == r.tone,
        r@.bank_switches == r.bank_switches,
        r@.mode == r.mode,
        r@.words == r.words@,
{
}

/// An outcome.
pub proof fn law_outcome_view(o: Outcome)
    ensures
        o@.trace == o.trace@,
        o@.report == o.report@,
        o@.frames == o.frames,
        o@.pass == o.pass,
{
}

/// A route table.
pub proof fn law_routes_view(r: RouteTable)
    ensures
        r@.by_both == r.by_both@,
        r@.by_topic == r.by_topic@,
        r@.by_qtype == r.by_qtype@,
        r@.emergency == r.emergency,
{
}

/// Topic groups.
pub proof fn law_topics_view(t: TopicTable)
    ensures
        t@.names == texts(t.names@),
        t@.tech == t.tech@,
        t@.members == lists(t.members@),
{
}

/// A keypad.
pub proof fn law_keypad_view(k: Keypad)
    ensures
        k@.presses == k.presses@,
        k@.row == k.row,
        k@.col == k.col,
{
}

/// A bus.
pub proof fn law_bus_view(b: NesBus)
    ensures
        b.state().ram == b.ram@,
        b.state().prg == b.prg@,
        b.state().prg_bank == b.prg_bank@,
        b.state().vram == b.vram@,
        b.state().palette == b.palette@,
        b.state().ppu_ctrl == b.ppu_ctrl,
        b.state().ppu_status == b.ppu_status,
        b.state().ppu_addr == b.ppu_addr,
        b.state().ppu_latch_hi == b.ppu_latch_hi,
        b.state().buttons == b.buttons,
        b.state().strobe == b.strobe,
        b.state().shift == b.shift,
        b.state().exram == b.exram@,
{
}

/// A console.
pub proof fn law_console_view(n: Nes)
    ensures
        n@.cpu == n.cpu,
        n@.bus == n.bus.state(),
        n@.frame == n.frame,
        n@.cycle == n.cycle_in_frame,
{
}

/// A vocabulary.
pub proof fn law_vocabulary_view(v: WordVocab)
    ensures
        v@ == texts(v.words@),
{
}

/// A fault is told with its own kind, its line and its word.
pub proof fn law_fault_view(f: BuildError)
    ensures
        match f {
            Fault::CorpusTooSmall => fault_of(f) == Fault::<Seq<char>>::CorpusTooSmall,
            Fault::TooManyWords(n) => fault_of(f) == Fault::<Seq<char>>::TooManyWords(n),
            Fault::WordTooLong(w) => fault_of(f) == Fault::<Seq<char>>::WordTooLong(w@),
            Fault::NoQuestionMark => fault_of(f) == Fault::<Seq<char>>::NoQuestionMark,
            Fault::NoSuccessor(w) => fault_of(f) == Fault::<Seq<char>>::NoSuccessor(w@),
            Fault::RouteArrow(n) => fault_of(f) == Fault::<Seq<char>>::RouteArrow(n),
            Fault::EmergencySeeds(n) => fault_of(f) == Fault::<Seq<char>>::EmergencySeeds(n),
            Fault::RouteShape(n) => fault_of(f) == Fault::<Seq<char>>::RouteShape(n),
            Fault::RouteWord(n, w) => fault_of(f) == Fault::<Seq<char>>::RouteWord(n, w@),
            Fault::DoubleWildcard(n) => fault_of(f) == Fault::<Seq<char>>::DoubleWildcard(n),
            Fault::NoEmergency => fault_of(f) == Fault::<Seq<char>>::NoEmergency,
            Fault::TooManyRoutes => fault_of(f) == Fault::<Seq<char>>::TooManyRoutes,
            Fault::TopicPrefix(n) => fault_of(f) == Fault::<Seq<char>>::TopicPrefix(n),
            Fault::TopicColon(n) => fault_of(f) == Fault::<Seq<char>>::TopicColon(n),
            Fault::TopicNameless(n) => fault_of(f) == Fault::<Seq<char>>::TopicNameless(n),
            Fault::TopicWord(n, w) => fault_of(f) == Fault::<Seq<char>>::TopicWord(n, w@),
            Fault::TooManyTopics => fault_of(f) == Fault::<Seq<char>>::TooManyTopics,
            Fault::EmergencyMiss => fault_of(f) == Fault::<Seq<char>>::EmergencyMiss,
        },
{
}

} // verus!
