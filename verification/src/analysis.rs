//! Scoring evidence against candidate root causes and ranking them, with
//! a report that a node is unreachable counting only where the topology
//! still reaches it.

use vstd::prelude::*;
use vstd::std_specs::cmp::PartialEqSpecImpl;
use crate::rootcause::types::{
    event_line, event_text, lemma_link_between_symmetric, link_between, same_event, Event, EventType, Link,
};
use crate::strings::{ends_with, lemma_ends_with_last_part, lex_le, lex_lt, str_le, lemma_lex_antisymmetric, lemma_lex_total, lemma_lex_transitive};
use crate::tally::{
    confidence_groups, distinct_candidates, group_by_confidence, has_candidate, is_ranking,
    all_have_evidence, lemma_recorded, lemma_recorded_keeps_evidence, lemma_select, recorded, score_of, tally_index, Tally,
};

pub use crate::rootcause::analysis::{Candidate, CandidateKey, NoCauses};

verus! {

/// The score of a link that went down, against the link and its target.
pub const LINK_DOWN: u16 = 1;

/// The score of a report that a node is unreachable where the topology
/// agrees that it cannot be reached.
pub const UNREACHABLE_AGREE: u16 = 0;

/// The score of a report that a node is unreachable where the topology
/// says it can still be reached.
pub const UNREACHABLE_DISAGREE: u16 = 1;

/// The effect of an event on a network.
#[derive(Debug)]
pub enum EventEffect {
    TopologyChanged { event: Event },
    Observation { event: Event, reachable: bool },
    Ignored,
}

impl PartialEq for EventEffect {
    fn eq(&self, other: &Self) -> (r: bool) {
        match (self, other) {
            (
                EventEffect::TopologyChanged { event: a },
                EventEffect::TopologyChanged { event: b },
            ) => a == b,
            (
                EventEffect::Observation { event: a, reachable: ra },
                EventEffect::Observation { event: b, reachable: rb },
            ) => a == b && *ra == *rb,
            (EventEffect::Ignored, EventEffect::Ignored) => true,
            _ => false,
        }
    }
}

impl PartialEqSpecImpl for EventEffect {
    open spec fn obeys_eq_spec() -> bool {
        true
    }

    open spec fn eq_spec(&self, other: &Self) -> bool {
        match (*self, *other) {
            (
                EventEffect::TopologyChanged { event: a },
                EventEffect::TopologyChanged { event: b },
            ) => same_event(a, b),
            (
                EventEffect::Observation { event: a, reachable: ra },
                EventEffect::Observation { event: b, reachable: rb },
            ) => same_event(a, b) && ra == rb,
            (EventEffect::Ignored, EventEffect::Ignored) => true,
            _ => false,
        }
    }
}

impl Clone for EventEffect {
    fn clone(&self) -> (r: Self)
        ensures
            r == *self,
    {
        match self {
            EventEffect::TopologyChanged { event } => EventEffect::TopologyChanged {
                event: event.clone(),
            },
            EventEffect::Observation { event, reachable } => EventEffect::Observation {
                event: event.clone(),
                reachable: *reachable,
            },
            EventEffect::Ignored => EventEffect::Ignored,
        }
    }
}

/// The evidence that an effect gives: a link that went down counts
/// `LINK_DOWN` against the link and against its target node; a report
/// that a node is unreachable counts against that node,
/// `UNREACHABLE_DISAGREE` where the topology still reaches it and
/// `UNREACHABLE_AGREE` where it does not; nothing else is evidence.
pub open spec fn evidence_of(effect: EventEffect) -> Option<Seq<ScoredEvidence>> {
    match effect {
        EventEffect::Ignored => None,
        EventEffect::TopologyChanged { event } => topology_evidence(effect, event),
        EventEffect::Observation { event, reachable } => observation_evidence(
            effect,
            event,
            reachable,
        ),
    }
}

/// The evidence that `effect` gives as a change of the topology by `event`.
pub open spec fn topology_evidence(effect: EventEffect, event: Event) -> Option<Seq<ScoredEvidence>> {
    if event.event_type == EventType::LinkDown {
        Some(
            seq![
                ScoredEvidence {
                    candidate: Candidate::Link(link_between(event.node, event.target)),
                    evidence: effect,
                    delta: LINK_DOWN,
                },
                ScoredEvidence {
                    candidate: Candidate::Node(event.target),
                    evidence: effect,
                    delta: LINK_DOWN,
                },
            ],
        )
    } else {
        None
    }
}

/// The evidence that `effect` gives as the observation `event`.
pub open spec fn observation_evidence(effect: EventEffect, event: Event, reachable: bool) -> Option<
    Seq<ScoredEvidence>,
> {
    Some(
        seq![
            ScoredEvidence {
                candidate: Candidate::Node(event.target),
                evidence: effect,
                delta: if reachable {
                    UNREACHABLE_DISAGREE
                } else {
                    UNREACHABLE_AGREE
                },
            },
        ],
    )
}

/// A report that a node is unreachable counts only where the topology
/// still reaches the node, contradicting the report.
pub proof fn lemma_contradicted_report_weighs_more(event: Event)
    ensures
        evidence_of(EventEffect::Observation { event, reachable: true }).unwrap()[0].delta
            > evidence_of(EventEffect::Observation { event, reachable: false }).unwrap()[0].delta,
        evidence_of(EventEffect::Observation { event, reachable: false }).unwrap()[0].delta == 0,
        evidence_of(EventEffect::Observation { event, reachable: true }).unwrap().len() == 1,
        evidence_of(EventEffect::Observation { event, reachable: true }).unwrap()[0].candidate
            == Candidate::Node(event.target),
        evidence_of(EventEffect::Observation { event, reachable: false }).unwrap().len() == 1,
        evidence_of(EventEffect::Observation { event, reachable: false }).unwrap()[0].candidate
            == Candidate::Node(event.target),
{
}

/// A link that went down, reported by one of its ends, counts once
/// against the link, named with the end whose name comes first as its
/// first end, and once against the target node.
pub proof fn lemma_link_down_blames_link_and_target(event: Event)
    requires
        event.event_type == EventType::LinkDown,
    ensures
        evidence_of(EventEffect::TopologyChanged { event }) is Some,
        evidence_of(EventEffect::TopologyChanged { event }).unwrap().len() == 2,
        evidence_of(EventEffect::TopologyChanged { event }).unwrap()[0].candidate matches Candidate::Link(
            l,
        ) && lex_le(l.0@, l.1@) && ((l.0@ == event.node@ && l.1@ == event.target@) || (l.0@
            == event.target@ && l.1@ == event.node@)),
        evidence_of(EventEffect::TopologyChanged { event }).unwrap()[0].delta == 1,
        evidence_of(EventEffect::TopologyChanged { event }).unwrap()[1].candidate == Candidate::Node(
            event.target,
        ),
        evidence_of(EventEffect::TopologyChanged { event }).unwrap()[1].delta == 1,
{
    lemma_lex_total(event.node@, event.target@);
}

/// A link that went down names one candidate whichever of its ends
/// reports it, so the reports of both ends add up against one link.
pub proof fn lemma_link_down_same_from_either_end(e1: Event, e2: Event)
    requires
        e1.event_type == EventType::LinkDown,
        e2.event_type == EventType::LinkDown,
        e2.node@ == e1.target@,
        e2.target@ == e1.node@,
    ensures
        evidence_of(EventEffect::TopologyChanged { event: e1 }).unwrap()[0].candidate@
            == evidence_of(EventEffect::TopologyChanged { event: e2 }).unwrap()[0].candidate@,
{
    lemma_link_between_symmetric(e1.node, e1.target);
    lemma_link_between_symmetric(e2.node, e2.target);
}

/// The text of an observation ends with whether the topology still
/// reaches the target: `true` where it does and `false` where it does not.
pub proof fn lemma_observation_text_tells_reachable(event: Event, date: Seq<char>, reachable: bool)
    ensures
        reachable ==> ends_with(effect_text(EventEffect::Observation { event, reachable }, date), "true"@),
        !reachable ==> ends_with(effect_text(EventEffect::Observation { event, reachable }, date), "false"@),
{
    let head = event_text(event, date) + "\n  Topology still reachable: "@;
    lemma_ends_with_last_part(head, "true"@);
    lemma_ends_with_last_part(head, "false"@);
}

/// The text of `effect`, its event's time written as `date`: the event,
/// and for an observation whether the topology still reaches the target;
/// an ignored event has no text.
pub open spec fn effect_text(effect: EventEffect, date: Seq<char>) -> Seq<char> {
    match effect {
        EventEffect::TopologyChanged { event } => event_text(event, date),
        EventEffect::Observation { event, reachable } => event_text(event, date)
            + "\n  Topology still reachable: "@ + if reachable {
            "true"@
        } else {
            "false"@
        },
        EventEffect::Ignored => Seq::empty(),
    }
}

impl EventEffect {
    /// The text of this effect, its event's time written as `date`.
    pub fn text(&self, date: &str) -> (s: String)
        ensures
            s@ == effect_text(*self, date@),
            match *self {
                EventEffect::Observation { reachable, .. } => if reachable {
                    ends_with(s@, "true"@)
                } else {
                    ends_with(s@, "false"@)
                },
                _ => true,
            },
    {
        match self {
            EventEffect::TopologyChanged { event } => event_line(event, date),
            EventEffect::Observation { event, reachable } => {
                proof {
                    lemma_observation_text_tells_reachable(*event, date@, *reachable);
                }
                let mut s = event_line(event, date);
                s.append("\n  Topology still reachable: ");
                if *reachable {
                    s.append("true");
                } else {
                    s.append("false");
                }
                s
            },
            EventEffect::Ignored => String::new(),
        }
    }

    /// The evidence this effect gives against candidate root causes.
    pub fn candidate(&self) -> (r: Option<Vec<ScoredEvidence>>)
        ensures
            match r {
                Some(v) => evidence_of(*self) == Some(v@),
                None => evidence_of(*self) is None,
            },
    {
        match self {
            EventEffect::Ignored => None,
            EventEffect::TopologyChanged { event } => self.on_topology(event),
            EventEffect::Observation { event, reachable } => self.on_observation(event, reachable),
        }
    }

    /// Scores a link that went down against the link and its target node,
    /// this effect being the evidence.
    pub fn on_topology(&self, event: &Event) -> (r: Option<Vec<ScoredEvidence>>)
        ensures
            match r {
                Some(v) => topology_evidence(*self, *event) == Some(v@),
                None => topology_evidence(*self, *event) is None,
            },
            event.event_type == EventType::LinkDown <==> r is Some,
            event.event_type == EventType::LinkDown ==> {
                let v = r.unwrap()@;
                &&& v.len() == 2
                &&& v[0].candidate matches Candidate::Link(l) && lex_le(l.0@, l.1@) && ((l.0@
                    == event.node@ && l.1@ == event.target@) || (l.0@ == event.target@ && l.1@
                    == event.node@))
                &&& v[0].delta == LINK_DOWN
                &&& v[1].candidate == Candidate::Node(event.target)
                &&& v[1].delta == LINK_DOWN
            },
    {
        proof {
            lemma_lex_total(event.node@, event.target@);
        }
        if event.event_type == EventType::LinkDown {
            let t = event.target.clone();
            let l = Link::new(event.node.clone(), t.clone());
            let s = LINK_DOWN;
            let v = vec![
                ScoredEvidence::new(Candidate::Link(l), self.clone(), s),
                ScoredEvidence::new(Candidate::Node(t), self.clone(), s),
            ];
            proof {
                assert(v@ =~= topology_evidence(*self, *event).unwrap());
            }
            Some(v)
        } else {
            None
        }
    }

    /// Scores a report that a node is unreachable against that node, this
    /// effect being the evidence: the report only counts where the
    /// topology disagrees with it.
    pub fn on_observation(&self, event: &Event, reachable: &bool) -> (r: Option<
        Vec<ScoredEvidence>,
    >)
        ensures
            match r {
                Some(v) => observation_evidence(*self, *event, *reachable) == Some(v@),
                None => false,
            },
    {
        let v = vec![
            ScoredEvidence::new(
                Candidate::Node(event.target.clone()),
                self.clone(),
                if *reachable {
                    UNREACHABLE_DISAGREE
                } else {
                    UNREACHABLE_AGREE
                },
            ),
        ];
        proof {
            assert(v@ =~= observation_evidence(*self, *event, *reachable).unwrap());
        }
        Some(v)
    }
}

/// A candidate root cause with a piece of evidence against it and the
/// amount by which that evidence raises its score.
#[derive(Debug)]
pub struct ScoredEvidence {
    pub candidate: Candidate,
    pub evidence: EventEffect,
    pub delta: u16,
}

impl ScoredEvidence {
    pub fn new(can: Candidate, eff: EventEffect, del: u16) -> (r: Self)
        ensures
            r == (ScoredEvidence { candidate: can, evidence: eff, delta: del }),
    {
        ScoredEvidence { candidate: can, evidence: eff, delta: del }
    }
}

/// Candidate `a` comes before candidate `b` in the order of their derived
/// `Ord`: nodes before links, nodes by name, links by their first end and
/// then by their second.
pub open spec fn candidate_lt(a: CandidateKey, b: CandidateKey) -> bool {
    match (a, b) {
        (CandidateKey::Node(x), CandidateKey::Node(y)) => lex_lt(x, y),
        (CandidateKey::Node(_), CandidateKey::Link(_, _)) => true,
        (CandidateKey::Link(_, _), CandidateKey::Node(_)) => false,
        (CandidateKey::Link(a1, b1), CandidateKey::Link(a2, b2)) => lex_lt(a1, a2) || (a1 == a2
            && lex_lt(b1, b2)),
    }
}

proof fn lemma_lex_lt_total(x: Seq<char>, y: Seq<char>)
    ensures
        x == y || lex_lt(x, y) || lex_lt(y, x),
        !(lex_lt(x, y) && lex_lt(y, x)),
{
    lemma_lex_total(x, y);
    if lex_le(x, y) && lex_le(y, x) {
        lemma_lex_antisymmetric(x, y);
    }
}

proof fn lemma_lex_lt_transitive(x: Seq<char>, y: Seq<char>, z: Seq<char>)
    requires
        lex_lt(x, y),
        lex_lt(y, z),
    ensures
        lex_lt(x, z),
{
    lemma_lex_transitive(x, y, z);
    if x == z {
        lemma_lex_antisymmetric(x, y);
    }
}

/// The candidate order is a strict total order.
pub proof fn lemma_candidate_order(a: CandidateKey, b: CandidateKey, c: CandidateKey)
    ensures
        !candidate_lt(a, a),
        a == b || candidate_lt(a, b) || candidate_lt(b, a),
        !(candidate_lt(a, b) && candidate_lt(b, a)),
        candidate_lt(a, b) && candidate_lt(b, c) ==> candidate_lt(a, c),
{
    match (a, b) {
        (CandidateKey::Node(x), CandidateKey::Node(y)) => {
            lemma_lex_lt_total(x, y);
        },
        (CandidateKey::Link(a1, b1), CandidateKey::Link(a2, b2)) => {
            lemma_lex_lt_total(a1, a2);
            lemma_lex_lt_total(b1, b2);
        },
        _ => {},
    }
    if candidate_lt(a, b) && candidate_lt(b, c) {
        match (a, b, c) {
            (CandidateKey::Node(x), CandidateKey::Node(y), CandidateKey::Node(z)) => {
                lemma_lex_lt_transitive(x, y, z);
            },
            (
                CandidateKey::Link(a1, b1),
                CandidateKey::Link(a2, b2),
                CandidateKey::Link(a3, b3),
            ) => {
                if lex_lt(a1, a2) && lex_lt(a2, a3) {
                    lemma_lex_lt_transitive(a1, a2, a3);
                }
                if lex_lt(b1, b2) && lex_lt(b2, b3) {
                    lemma_lex_lt_transitive(b1, b2, b3);
                }
            },
            _ => {},
        }
    }
}

/// Compares two candidates in the order of `candidate_lt`.
pub fn candidate_less(a: &Candidate, b: &Candidate) -> (r: bool)
    ensures
        r == candidate_lt(a@, b@),
{
    match (a, b) {
        (Candidate::Node(x), Candidate::Node(y)) => str_le(x.0.as_str(), y.0.as_str()) && x.0
            != y.0,
        (Candidate::Node(_), Candidate::Link(_)) => true,
        (Candidate::Link(_), Candidate::Node(_)) => false,
        (Candidate::Link(l1), Candidate::Link(l2)) => {
            let first_less = str_le(l1.0.0.as_str(), l2.0.0.as_str()) && l1.0.0 != l2.0.0;
            let first_same = l1.0.0 == l2.0.0;
            let second_less = str_le(l1.1.0.as_str(), l2.1.0.as_str()) && l1.1.0 != l2.1.0;
            first_less || (first_same && second_less)
        },
    }
}

/// What the tracker holds about one candidate.
#[derive(Debug)]
struct Entry {
    candidate: Candidate,
    score: u16,
    evidence: Vec<EventEffect>,
}

/// The tally of one entry.
spec fn entry_tally(e: Entry) -> Tally<EventEffect> {
    Tally { candidate: e.candidate@, score: e.score as int, evidence: e.evidence@ }
}

/// Keeps, for each candidate root cause, the sum of the deltas of the
/// evidence recorded against it and that evidence, oldest first.
#[derive(Debug)]
pub struct RootCauseTracker {
    entries: Vec<Entry>,
}

impl View for RootCauseTracker {
    type V = Seq<Tally<EventEffect>>;

    closed spec fn view(&self) -> Seq<Tally<EventEffect>> {
        self.entries@.map_values(|e: Entry| entry_tally(e))
    }
}

/// Tally `a` ranks before tally `b`: its score is higher, or the scores are
/// equal and its candidate comes first.
pub open spec fn ranks_before(t: Seq<Tally<EventEffect>>, a: int, b: int) -> bool {
    t[a].score > t[b].score || (t[a].score == t[b].score && candidate_lt(
        t[a].candidate,
        t[b].candidate,
    ))
}

/// `order` ranks the tallies of `t` by `ranks_before`.
pub open spec fn is_candidate_ranking(t: Seq<Tally<EventEffect>>, order: Seq<usize>) -> bool {
    is_ranking(t.len(), order, |a: int, b: int| ranks_before(t, a, b))
}

/// A root cause as a value: its candidate, score and evidence.
pub type CauseView = (CandidateKey, u16, Seq<EventEffect>);

/// `cause` reports the tally `t`.
pub open spec fn reports(cause: CauseView, t: Tally<EventEffect>) -> bool {
    &&& cause.0 == t.candidate
    &&& cause.1 == t.score
    &&& cause.2 == t.evidence
}

/// The causes of each confidence group of `causes` (see
/// `confidence_groups`), in the order in which they are listed.
pub open spec fn grouped(causes: Seq<CauseView>) -> (Seq<CauseView>, Seq<CauseView>, Seq<CauseView>) {
    let g = confidence_groups(causes.map_values(|c: CauseView| c.1));
    (
        g.0.map_values(|i: usize| causes[i as int]),
        g.1.map_values(|i: usize| causes[i as int]),
        g.2.map_values(|i: usize| causes[i as int]),
    )
}

impl RootCauseTracker {
    /// Each candidate has one tally, and evidence against it.
    pub open spec fn wf(&self) -> bool {
        distinct_candidates(self@) && all_have_evidence(self@)
    }

    /// A tracker with nothing recorded.
    pub fn new() -> (t: Self)
        ensures
            t.wf(),
            t@ == Seq::<Tally<EventEffect>>::empty(),
    {
        let t = RootCauseTracker { entries: Vec::new() };
        assert(t@ =~= Seq::<Tally<EventEffect>>::empty());
        t
    }

    /// The position of the entry about `c`.
    fn position(&self, c: &Candidate) -> (r: Option<usize>)
        requires
            self.wf(),
        ensures
            match r {
                Some(i) => i < self@.len() && self@[i as int].candidate == c@,
                None => forall|i: int| 0 <= i < self@.len() ==> self@[i].candidate != c@,
            },
    {
        let mut i: usize = 0;
        while i < self.entries.len()
            invariant
                i <= self.entries@.len(),
                forall|k: int| 0 <= k < i ==> self@[k].candidate != c@,
            decreases self.entries@.len() - i,
        {
            if self.entries[i].candidate.same(c) {
                return Some(i);
            }
            i = i + 1;
        }
        None
    }

    /// The score recorded against `c`.
    pub fn score(&self, c: &Candidate) -> (r: u16)
        requires
            self.wf(),
        ensures
            r == score_of(self@, c@),
    {
        match self.position(c) {
            Some(i) => {
                proof {
                    let k = tally_index(self@, c@);
                    assert(k == i);
                }
                self.entries[i].score
            },
            None => 0,
        }
    }

    /// Records the evidence: adds its delta to the score of its candidate
    /// and puts it after the evidence already recorded against that
    /// candidate, events being recorded in the order in which they
    /// happened.
    pub fn record(&mut self, se: &ScoredEvidence)
        requires
            old(self).wf(),
            score_of(old(self)@, se.candidate@) + se.delta <= u16::MAX,
        ensures
            final(self).wf(),
            final(self)@ == recorded(old(self)@, se.candidate@, se.delta as int, se.evidence),
    {
        let ghost t = self@;
        proof {
            lemma_recorded(t, se.candidate@, se.delta as int, se.evidence);
            lemma_recorded_keeps_evidence(t, se.candidate@, se.delta as int, se.evidence);
        }
        match self.position(&se.candidate) {
            Some(i) => {
                proof {
                    let k = tally_index(t, se.candidate@);
                    assert(k == i);
                }
                let entry = &mut self.entries[i];
                entry.score = entry.score + se.delta;
                entry.evidence.push(se.evidence.clone());
                proof {
                    assert(self@ =~= recorded(t, se.candidate@, se.delta as int, se.evidence));
                }
            },
            None => {
                let mut evidence = Vec::new();
                evidence.push(se.evidence.clone());
                self.entries.push(
                    Entry { candidate: se.candidate.clone(), score: se.delta, evidence },
                );
                proof {
                    assert(!has_candidate(t, se.candidate@));
                    assert(self@ =~= recorded(t, se.candidate@, se.delta as int, se.evidence));
                }
            },
        }
    }

    /// Whether the entry at `a` ranks before the entry at `b`.
    fn ranks_first(&self, a: usize, b: usize) -> (r: bool)
        requires
            a < self@.len(),
            b < self@.len(),
        ensures
            r == ranks_before(self@, a as int, b as int),
    {
        let ea = &self.entries[a];
        let eb = &self.entries[b];
        ea.score > eb.score || (ea.score == eb.score && candidate_less(
            &ea.candidate,
            &eb.candidate,
        ))
    }

    /// The positions of the entries, ranked by `ranks_before`.
    fn ranking(&self) -> (order: Vec<usize>)
        requires
            self.wf(),
        ensures
            is_candidate_ranking(self@, order@),
    {
        let n = self.entries.len();
        let ghost t = self@;
        let mut order: Vec<usize> = Vec::new();
        let mut j: usize = 0;
        while j < n
            invariant
                self.wf(),
                t == self@,
                n == t.len(),
                j <= n,
                order@.len() == j,
                forall|k: int| 0 <= k < order@.len() ==> #[trigger] order@[k] < j,
                forall|i: int| 0 <= i < j ==> #[trigger] order@.contains(i as usize),
                forall|k: int, l: int|
                    0 <= k < l < order@.len() ==> ranks_before(
                        t,
                        #[trigger] order@[k] as int,
                        #[trigger] order@[l] as int,
                    ),
            decreases n - j,
        {
            let mut p: usize = 0;
            while p < order.len() && !self.ranks_first(j, order[p])
                invariant
                    self.wf(),
                    t == self@,
                    n == t.len(),
                    j < n,
                    p <= order@.len(),
                    forall|k: int| 0 <= k < order@.len() ==> #[trigger] order@[k] < j,
                    forall|k: int|
                        0 <= k < p ==> ranks_before(t, #[trigger] order@[k] as int, j as int),
                decreases order@.len() - p,
            {
                proof {
                    let o = order@[p as int] as int;
                    assert(o != j);
                    assert(t[o].candidate != t[j as int].candidate);
                    lemma_candidate_order(t[o].candidate, t[j as int].candidate, t[o].candidate);
                }
                p = p + 1;
            }
            let ghost before = order@;
            order.insert(p, j);
            proof {
                before.insert_ensures(p as int, j);
                assert forall|k: int| 0 <= k < order@.len() implies #[trigger] order@[k] < j + 1 by {
                    if k < p {
                        assert(order@[k] == before[k]);
                    } else if k > p {
                        assert(order@[k] == before[k - 1]);
                    }
                }
                assert forall|i: int| 0 <= i < j + 1 implies #[trigger] order@.contains(i as usize) by {
                    if i == j {
                        assert(order@[p as int] == j);
                    } else {
                        assert(before.contains(i as usize));
                        let k = choose|k: int| 0 <= k < before.len() && before[k] == i as usize;
                        if k < p {
                            assert(order@[k] == before[k]);
                        } else {
                            assert(order@[k + 1] == before[k]);
                        }
                    }
                }
                assert forall|k: int, l: int| 0 <= k < l < order@.len() implies ranks_before(
                    t,
                    #[trigger] order@[k] as int,
                    #[trigger] order@[l] as int,
                ) by {
                    if l < p {
                        assert(order@[k] == before[k] && order@[l] == before[l]);
                    } else if l == p {
                        assert(order@[k] == before[k]);
                    } else if k < p {
                        assert(order@[k] == before[k] && order@[l] == before[l - 1]);
                    } else if k == p {
                        assert(order@[l] == before[l - 1]);
                        let o = before[p as int] as int;
                        let q = before[l - 1] as int;
                        assert(ranks_before(t, j as int, o));
                        if l - 1 > p {
                            assert(ranks_before(t, o, q));
                            lemma_candidate_order(
                                t[j as int].candidate,
                                t[o].candidate,
                                t[q].candidate,
                            );
                        }
                    } else {
                        assert(order@[k] == before[k - 1] && order@[l] == before[l - 1]);
                    }
                }
            }
            j = j + 1;
        }
        order
    }

    /// Gathers the causes that the tracker holds, ranked by score and
    /// then by candidate, into their confidence groups; a tracker with
    /// nothing recorded has no causes.
    pub fn get_causes(&self) -> (r: Result<RootCauseResult, NoCauses>)
        requires
            self.wf(),
        ensures
            r is Err <==> self@.len() == 0,
            r matches Ok(res) ==> exists|causes: Seq<CauseView>, order: Seq<usize>|
                #![trigger is_candidate_ranking(self@, order), grouped(causes)]
                is_candidate_ranking(self@, order) && causes.len() == order.len() && (
                forall|k: int|
                    0 <= k < causes.len() ==> #[trigger] reports(
                        causes[k],
                        self@[order[k] as int],
                    )) && res@ == grouped(causes),
    {
        let order = self.ranking();
        let n = self.entries.len();
        let mut causes: Vec<RootCause> = Vec::new();
        let mut k: usize = 0;
        while k < n
            invariant
                self.wf(),
                n == self@.len(),
                is_candidate_ranking(self@, order@),
                k <= n,
                causes@.len() == k,
                forall|j: int|
                    0 <= j < k ==> reports(#[trigger] causes@[j]@, self@[order@[j] as int]),
            decreases n - k,
        {
            let idx = order[k];
            let e = &self.entries[idx];
            let cause = RootCause {
                candidate: e.candidate.clone(),
                score: e.score,
                evidence: e.evidence.clone(),
            };
            proof {
                assert(cause.evidence@ =~= e.evidence@);
            }
            causes.push(cause);
            k = k + 1;
        }
        let ghost views = causes@.map_values(|c: RootCause| c@);
        proof {
            assert forall|j: int| 0 <= j < views.len() implies #[trigger] reports(
                views[j],
                self@[order@[j] as int],
            ) by {
                assert(reports(causes@[j]@, self@[order@[j] as int]));
            }
        }
        let r = RootCauseResult::new(causes);
        proof {
            if n == 0 {
                assert(r is Err);
            } else {
                assert(views =~= causes@.map_values(|c: RootCause| c@));
                assert(is_candidate_ranking(self@, order@));
                assert(r->Ok_0@ == grouped(views));
            }
        }
        r
    }
}

/// A candidate root cause with its score and the evidence against it.
#[derive(Debug)]
pub struct RootCause {
    pub candidate: Candidate,
    pub score: u16,
    pub evidence: Vec<EventEffect>,
}

impl View for RootCause {
    type V = CauseView;

    open spec fn view(&self) -> CauseView {
        (self.candidate@, self.score, self.evidence@)
    }
}

impl Clone for RootCause {
    fn clone(&self) -> (r: Self)
        ensures
            r@ == self@,
    {
        let evidence = self.evidence.clone();
        proof {
            assert(evidence@ =~= self.evidence@);
        }
        RootCause { candidate: self.candidate.clone(), score: self.score, evidence }
    }
}

/// The causes of a network in three groups: the most likely root causes,
/// the less likely ones, and the downstream symptoms.
#[derive(Debug)]
pub struct RootCauseResult {
    pub most_likely: Vec<RootCause>,
    pub less_likely: Vec<RootCause>,
    pub symptoms: Vec<RootCause>,
}

impl View for RootCauseResult {
    type V = (Seq<CauseView>, Seq<CauseView>, Seq<CauseView>);

    open spec fn view(&self) -> (Seq<CauseView>, Seq<CauseView>, Seq<CauseView>) {
        (
            self.most_likely@.map_values(|c: RootCause| c@),
            self.less_likely@.map_values(|c: RootCause| c@),
            self.symptoms@.map_values(|c: RootCause| c@),
        )
    }
}

/// The causes at the given positions, in that order.
fn pick(causes: &Vec<RootCause>, positions: &Vec<usize>) -> (r: Vec<RootCause>)
    requires
        forall|k: int| 0 <= k < positions@.len() ==> #[trigger] positions@[k] < causes@.len(),
    ensures
        r@.map_values(|c: RootCause| c@) == positions@.map_values(
            |i: usize| causes@.map_values(|c: RootCause| c@)[i as int],
        ),
{
    let mut r: Vec<RootCause> = Vec::new();
    let mut k: usize = 0;
    while k < positions.len()
        invariant
            k <= positions@.len(),
            forall|j: int| 0 <= j < positions@.len() ==> #[trigger] positions@[j] < causes@.len(),
            r@.map_values(|c: RootCause| c@) == positions@.take(k as int).map_values(
                |i: usize| causes@.map_values(|c: RootCause| c@)[i as int],
            ),
        decreases positions@.len() - k,
    {
        let c = causes[positions[k]].clone();
        let ghost before = r@;
        r.push(c);
        proof {
            assert(r@ == before.push(c));
            assert(r@.map_values(|c: RootCause| c@) =~= before.map_values(|c: RootCause| c@).push(
                c@,
            ));
            assert(positions@.take(k + 1).map_values(
                |i: usize| causes@.map_values(|c: RootCause| c@)[i as int],
            ) =~= positions@.take(k as int).map_values(
                |i: usize| causes@.map_values(|c: RootCause| c@)[i as int],
            ).push(causes@.map_values(|c: RootCause| c@)[positions@[k as int] as int]));
        }
        k = k + 1;
    }
    proof {
        assert(positions@.take(k as int) =~= positions@);
    }
    r
}

impl RootCauseResult {
    /// Groups `causes`, listed from the most likely to the least, by
    /// confidence (see `confidence_groups`); an empty list has no causes.
    pub fn new(causes: Vec<RootCause>) -> (r: Result<Self, NoCauses>)
        ensures
            r is Err <==> causes@.len() == 0,
            r matches Ok(res) ==> res@ == grouped(causes@.map_values(|c: RootCause| c@)),
    {
        if causes.len() == 0 {
            return Err(NoCauses);
        }
        let mut scores: Vec<u16> = Vec::new();
        let mut i: usize = 0;
        let ghost views = causes@.map_values(|c: RootCause| c@);
        while i < causes.len()
            invariant
                i <= causes@.len(),
                views == causes@.map_values(|c: RootCause| c@),
                scores@ == views.take(i as int).map_values(|c: CauseView| c.1),
            decreases causes@.len() - i,
        {
            scores.push(causes[i].score);
            proof {
                assert(views.take(i + 1).map_values(|c: CauseView| c.1) =~= views.take(
                    i as int,
                ).map_values(|c: CauseView| c.1).push(views[i as int].1));
            }
            i = i + 1;
        }
        proof {
            assert(views.take(i as int) =~= views);
        }
        let groups = group_by_confidence(&scores);
        proof {
            let n = scores@.len();
            lemma_select(n, |k: int| scores@[k] == scores@[0], 0);
            lemma_select(n, |k: int| scores@[k] != scores@[0] && scores@[k] > 0, 0);
            lemma_select(n, |k: int| scores@[k] == 0, 0);
            lemma_select(n, |k: int| true, 0);
        }
        let most_likely = pick(&causes, &groups.0);
        let less_likely = pick(&causes, &groups.1);
        let symptoms = pick(&causes, &groups.2);
        let res = RootCauseResult { most_likely, less_likely, symptoms };
        proof {
            assert(res@.0 =~= grouped(views).0);
            assert(res@.1 =~= grouped(views).1);
            assert(res@.2 =~= grouped(views).2);
        }
        Ok(res)
    }
}

} // verus!
