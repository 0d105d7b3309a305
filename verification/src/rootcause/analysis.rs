//! Scoring evidence against candidate root causes and ranking them.

use vstd::prelude::*;
use vstd::std_specs::cmp::PartialEqSpecImpl;
use crate::rootcause::network::EventEffect;
use crate::rootcause::types::{link_text, node_text, Link, Node};
use crate::tally::{
    confidence_groups, distinct_candidates, group_by_confidence, is_ranking, lemma_ranking_transfer,
    all_have_evidence, lemma_recorded, lemma_recorded_keeps_evidence, rank_by_score, recorded, score_first, score_of, Tally,
};

verus! {

/// A candidate root cause: a node or a link.
#[derive(Debug, Eq, Hash, PartialOrd, Ord)]
pub enum Candidate {
    Node(Node),
    Link(Link),
}

/// A candidate root cause as a mathematical value, named by node names.
pub enum CandidateKey {
    Node(Seq<char>),
    Link(Seq<char>, Seq<char>),
}

impl View for Candidate {
    type V = CandidateKey;

    open spec fn view(&self) -> CandidateKey {
        match self {
            Candidate::Node(n) => CandidateKey::Node(n@),
            Candidate::Link(l) => CandidateKey::Link(l.0@, l.1@),
        }
    }
}

impl Clone for Candidate {
    fn clone(&self) -> (r: Self)
        ensures
            r == *self,
    {
        match self {
            Candidate::Node(n) => Candidate::Node(n.clone()),
            Candidate::Link(l) => Candidate::Link(l.clone()),
        }
    }
}

impl PartialEq for Candidate {
    fn eq(&self, other: &Self) -> (r: bool) {
        match (self, other) {
            (Candidate::Node(a), Candidate::Node(b)) => a == b,
            (Candidate::Link(a), Candidate::Link(b)) => a == b,
            _ => false,
        }
    }
}

impl PartialEqSpecImpl for Candidate {
    open spec fn obeys_eq_spec() -> bool {
        true
    }

    open spec fn eq_spec(&self, other: &Self) -> bool {
        self@ == other@
    }
}

impl Candidate {
    /// The candidate's text form: that of its node or link.
    pub fn to_string(&self) -> (s: String)
        ensures
            s@ == candidate_text(self@),
    {
        match self {
            Candidate::Node(n) => n.to_string(),
            Candidate::Link(l) => l.to_string(),
        }
    }

    /// Whether two candidates are the same node or the same link.
    pub fn same(&self, other: &Candidate) -> (r: bool)
        ensures
            r == (self@ == other@),
    {
        match (self, other) {
            (Candidate::Node(a), Candidate::Node(b)) => a.0 == b.0,
            (Candidate::Link(a), Candidate::Link(b)) => a.0.0 == b.0.0 && a.1.0 == b.1.0,
            _ => false,
        }
    }
}

/// The text form of a candidate.
pub open spec fn candidate_text(c: CandidateKey) -> Seq<char> {
    match c {
        CandidateKey::Node(n) => node_text(n),
        CandidateKey::Link(a, b) => link_text((a, b)),
    }
}

/// A candidate root cause with a piece of evidence against it and the
/// amount by which that evidence raises its score.
#[derive(Debug)]
pub struct ScoredEvidence {
    pub candidate: Candidate,
    pub evidence: EventEffect,
    pub delta: u16,
}

impl ScoredEvidence {
    pub fn new(can: Candidate, eff: EventEffect, del: u16) -> (r: Self)
        ensures
            r == (ScoredEvidence { candidate: can, evidence: eff, delta: del }),
    {
        ScoredEvidence { candidate: can, evidence: eff, delta: del }
    }
}

/// What the tracker holds about one candidate.
#[derive(Debug)]
struct Entry {
    candidate: Candidate,
    score: u16,
    evidence: Vec<EventEffect>,
}

/// The tally of one entry.
spec fn entry_tally(e: Entry) -> Tally<EventEffect> {
    Tally { candidate: e.candidate@, score: e.score as int, evidence: e.evidence@ }
}

/// Keeps, for each candidate root cause, the sum of the deltas of the
/// evidence recorded against it and that evidence, oldest first.
#[derive(Debug)]
pub struct RootCauseTracker {
    entries: Vec<Entry>,
}

impl View for RootCauseTracker {
    type V = Seq<Tally<EventEffect>>;

    closed spec fn view(&self) -> Seq<Tally<EventEffect>> {
        self.entries@.map_values(|e: Entry| entry_tally(e))
    }
}

impl RootCauseTracker {
    /// Each candidate has one tally, and evidence against it.
    pub open spec fn wf(&self) -> bool {
        distinct_candidates(self@) && all_have_evidence(self@)
    }

    /// A tracker with nothing recorded.
    pub fn new() -> (t: Self)
        ensures
            t.wf(),
            t@ == Seq::<Tally<EventEffect>>::empty(),
    {
        let t = RootCauseTracker { entries: Vec::new() };
        assert(t@ =~= Seq::<Tally<EventEffect>>::empty());
        t
    }

    /// The position of the entry about `c`.
    fn position(&self, c: &Candidate) -> (r: Option<usize>)
        requires
            self.wf(),
        ensures
            match r {
                Some(i) => i < self@.len() && self@[i as int].candidate == c@,
                None => forall|i: int| 0 <= i < self@.len() ==> self@[i].candidate != c@,
            },
    {
        let mut i: usize = 0;
        while i < self.entries.len()
            invariant
                i <= self.entries@.len(),
                forall|k: int| 0 <= k < i ==> self@[k].candidate != c@,
            decreases self.entries@.len() - i,
        {
            if self.entries[i].candidate.same(c) {
                return Some(i);
            }
            i = i + 1;
        }
        None
    }

    /// The score recorded against `c`.
    pub fn score(&self, c: &Candidate) -> (r: u16)
        requires
            self.wf(),
        ensures
            r == score_of(self@, c@),
    {
        match self.position(c) {
            Some(i) => {
                proof {
                    let k = crate::tally::tally_index(self@, c@);
                    assert(k == i);
                }
                self.entries[i].score
            },
            None => 0,
        }
    }

    /// Records the evidence: adds its delta to the score of its candidate
    /// and puts it after the evidence already recorded against that
    /// candidate, events being recorded in the order in which they
    /// happened.
    pub fn record(&mut self, se: &ScoredEvidence)
        requires
            old(self).wf(),
            score_of(old(self)@, se.candidate@) + se.delta <= u16::MAX,
        ensures
            final(self).wf(),
            final(self)@ == recorded(old(self)@, se.candidate@, se.delta as int, se.evidence),
    {
        let ghost t = self@;
        proof {
            lemma_recorded(t, se.candidate@, se.delta as int, se.evidence);
            lemma_recorded_keeps_evidence(t, se.candidate@, se.delta as int, se.evidence);
        }
        match self.position(&se.candidate) {
            Some(i) => {
                proof {
                    let k = crate::tally::tally_index(t, se.candidate@);
                    assert(k == i);
                }
                let entry = &mut self.entries[i];
                entry.score = entry.score + se.delta;
                entry.evidence.push(se.evidence.clone());
                proof {
                    assert(self@ =~= recorded(t, se.candidate@, se.delta as int, se.evidence));
                }
            },
            None => {
                let mut evidence = Vec::new();
                evidence.push(se.evidence.clone());
                self.entries.push(
                    Entry { candidate: se.candidate.clone(), score: se.delta, evidence },
                );
                proof {
                    assert(!crate::tally::has_candidate(t, se.candidate@));
                    assert(self@ =~= recorded(t, se.candidate@, se.delta as int, se.evidence));
                }
            },
        }
    }
}

/// A candidate root cause with its score and the evidence against it.
#[derive(Debug)]
pub struct RootCause {
    pub candidate: Candidate,
    pub score: u16,
    pub evidence: Vec<EventEffect>,
}

/// `cause` reports the tally `t`.
pub open spec fn reports(cause: RootCause, t: Tally<EventEffect>) -> bool {
    &&& cause.candidate@ == t.candidate
    &&& cause.score == t.score
    &&& cause.evidence@ == t.evidence
}

/// Tally `a` ranks before tally `b`: its score is higher, or the scores are
/// equal and `a` was recorded first.
pub open spec fn ranks_before(t: Seq<Tally<EventEffect>>, a: int, b: int) -> bool {
    t[a].score > t[b].score || (t[a].score == t[b].score && a < b)
}

/// `order` ranks the tallies of `t` by `ranks_before`.
pub open spec fn is_score_ranking(t: Seq<Tally<EventEffect>>, order: Seq<usize>) -> bool {
    is_ranking(t.len(), order, |a: int, b: int| ranks_before(t, a, b))
}

impl RootCause {
    /// The causes that the tracker holds, from the highest score to the
    /// lowest, equal scores in the order in which their candidates were
    /// first recorded. Every candidate has evidence, so there is always a
    /// result.
    pub fn get_causes(tracker: RootCauseTracker) -> (r: Option<Vec<RootCause>>)
        requires
            tracker.wf(),
        ensures
            r is Some,
            r matches Some(causes) ==> exists|order: Seq<usize>|
                #[trigger] is_score_ranking(tracker@, order) && causes@.len() == order.len() && forall|k: int|
                    0 <= k < causes@.len() ==> reports(
                        #[trigger] causes@[k],
                        tracker@[order[k] as int],
                    ),
    {
        let t = tracker;
        let n = t.entries.len();
        let mut scores: Vec<u16> = Vec::new();
        let mut i: usize = 0;
        while i < n
            invariant
                n == t.entries@.len(),
                i <= n,
                scores@.len() == i,
                forall|k: int| 0 <= k < i ==> #[trigger] scores@[k] == t@[k].score,
            decreases n - i,
        {
            scores.push(t.entries[i].score);
            i = i + 1;
        }
        let order = rank_by_score(&scores);
        proof {
            lemma_ranking_transfer(
                n as nat,
                order@,
                |a: int, b: int| score_first(scores@, a, b),
                |a: int, b: int| ranks_before(t@, a, b),
            );
        }
        let mut causes: Vec<RootCause> = Vec::new();
        let mut k: usize = 0;
        while k < n
            invariant
                n == t.entries@.len(),
                is_ranking(n as nat, order@, |a: int, b: int| ranks_before(t@, a, b)),
                k <= n,
                causes@.len() == k,
                forall|j: int| 0 <= j < k ==> reports(#[trigger] causes@[j], t@[order@[j] as int]),
            decreases n - k,
        {
            let idx = order[k];
            let e = &t.entries[idx];
            let cause = RootCause {
                candidate: e.candidate.clone(),
                score: e.score,
                evidence: e.evidence.clone(),
            };
            proof {
                assert(cause.evidence@ =~= e.evidence@);
            }
            causes.push(cause);
            k = k + 1;
        }
        proof {
            assert(is_score_ranking(t@, order@));
        }
        Some(causes)
    }

    /// The positions of `causes` grouped by confidence: the most likely
    /// root causes, the less likely ones and the downstream symptoms (see
    /// `confidence_groups`); an empty list has no causes to rank.
    pub fn group(causes: &Vec<RootCause>) -> (r: Result<(Vec<usize>, Vec<usize>, Vec<usize>), NoCauses>)
        ensures
            match r {
                Ok(groups) => causes@.len() > 0 && (groups.0@, groups.1@, groups.2@)
                    == confidence_groups(causes@.map_values(|c: RootCause| c.score)),
                Err(_) => causes@.len() == 0,
            },
    {
        if causes.len() == 0 {
            return Err(NoCauses);
        }
        let mut scores: Vec<u16> = Vec::new();
        let mut i: usize = 0;
        while i < causes.len()
            invariant
                i <= causes@.len(),
                scores@ == causes@.take(i as int).map_values(|c: RootCause| c.score),
            decreases causes@.len() - i,
        {
            scores.push(causes[i].score);
            proof {
                assert(causes@.take(i + 1).map_values(|c: RootCause| c.score) =~= causes@.take(
                    i as int,
                ).map_values(|c: RootCause| c.score).push(causes@[i as int].score));
            }
            i = i + 1;
        }
        proof {
            assert(causes@.take(i as int) =~= causes@);
        }
        Ok(group_by_confidence(&scores))
    }
}

/// No causes were found for the network.
#[derive(Debug, Clone, Copy, PartialEq, Eq, Structural)]
pub struct NoCauses;

} // verus!
