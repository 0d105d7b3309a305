//! Replaying a stream of events over a network: every event changes the
//! topology or is observed against it, and its evidence is recorded.

use vstd::prelude::*;
use crate::rootcause::analysis::{CandidateKey, RootCauseTracker, ScoredEvidence};
use crate::rootcause::network::{after_event, effect_of, evidence_of, EventEffect, Network};
use crate::rootcause::types::Event;
use crate::tally::{
    all_have_evidence, distinct_candidates, evidence_against, lemma_recorded_keeps_evidence, is_ranking, lemma_recorded, recorded, score_of, Tally,
};
use crate::topology::Adjacency;

verus! {

/// The topology after each of `events` in turn.
pub open spec fn run(g: Adjacency, events: Seq<Event>) -> Adjacency
    decreases events.len(),
{
    if events.len() == 0 {
        g
    } else {
        after_event(run(g, events.drop_last()), events.last())
    }
}

/// The evidence that an effect gives, none where it gives nothing.
pub open spec fn evidence_list(effect: EventEffect) -> Seq<ScoredEvidence> {
    match evidence_of(effect) {
        Some(s) => s,
        None => Seq::empty(),
    }
}

/// The evidence that `events` give in turn, each event meeting the
/// topology that the events before it left.
pub open spec fn trail(g: Adjacency, events: Seq<Event>) -> Seq<ScoredEvidence>
    decreases events.len(),
{
    if events.len() == 0 {
        Seq::empty()
    } else {
        trail(g, events.drop_last()) + evidence_list(
            effect_of(run(g, events.drop_last()), events.last()),
        )
    }
}

/// The tallies after each piece of evidence is recorded in turn.
pub open spec fn tally_of(ses: Seq<ScoredEvidence>) -> Seq<Tally<EventEffect>>
    decreases ses.len(),
{
    if ses.len() == 0 {
        Seq::empty()
    } else {
        let x = ses.last();
        recorded(tally_of(ses.drop_last()), x.candidate@, x.delta as int, x.evidence)
    }
}

/// The sum of the deltas of the evidence against `c`.
pub open spec fn delta_sum(ses: Seq<ScoredEvidence>, c: CandidateKey) -> int
    decreases ses.len(),
{
    if ses.len() == 0 {
        0
    } else {
        delta_sum(ses.drop_last(), c) + if ses.last().candidate@ == c {
            ses.last().delta as int
        } else {
            0
        }
    }
}

/// The evidence against `c`, in the order given.
pub open spec fn evidence_for(ses: Seq<ScoredEvidence>, c: CandidateKey) -> Seq<EventEffect>
    decreases ses.len(),
{
    if ses.len() == 0 {
        Seq::empty()
    } else if ses.last().candidate@ == c {
        evidence_for(ses.drop_last(), c).push(ses.last().evidence)
    } else {
        evidence_for(ses.drop_last(), c)
    }
}

/// What the tracker holds after a run of records: each candidate's score
/// is the sum of the deltas recorded against it, and its evidence is the
/// evidence recorded against it, oldest first.
pub proof fn lemma_tally_of(ses: Seq<ScoredEvidence>, c: CandidateKey)
    ensures
        distinct_candidates(tally_of(ses)),
        all_have_evidence(tally_of(ses)),
        score_of(tally_of(ses), c) == delta_sum(ses, c),
        evidence_against(tally_of(ses), c) == evidence_for(ses, c),
    decreases ses.len(),
{
    if ses.len() > 0 {
        let x = ses.last();
        lemma_tally_of(ses.drop_last(), c);
        lemma_recorded(tally_of(ses.drop_last()), x.candidate@, x.delta as int, x.evidence);
        lemma_recorded_keeps_evidence(
            tally_of(ses.drop_last()),
            x.candidate@,
            x.delta as int,
            x.evidence,
        );
    }
}

/// No score goes beyond what a `u16` holds while the evidence is recorded.
pub open spec fn fits(ses: Seq<ScoredEvidence>) -> bool {
    forall|i: int|
        0 <= i < ses.len() ==> score_of(tally_of(#[trigger] ses.take(i)), ses[i].candidate@)
            + ses[i].delta <= u16::MAX
}

proof fn lemma_fits_push(s: Seq<ScoredEvidence>, x: ScoredEvidence)
    ensures
        fits(s.push(x)) == (fits(s) && score_of(tally_of(s), x.candidate@) + x.delta <= u16::MAX),
{
    let t = s.push(x);
    assert(t.take(s.len() as int) =~= s);
    assert forall|i: int| 0 <= i < s.len() implies #[trigger] t.take(i) == s.take(i) by {
        assert(t.take(i) =~= s.take(i));
    }
    if fits(t) {
        assert forall|i: int| 0 <= i < s.len() implies score_of(
            tally_of(#[trigger] s.take(i)),
            s[i].candidate@,
        ) + s[i].delta <= u16::MAX by {
            assert(t.take(i) == s.take(i));
            assert(t[i] == s[i]);
        }
        assert(t[s.len() as int] == x);
    }
    if fits(s) && score_of(tally_of(s), x.candidate@) + x.delta <= u16::MAX {
        assert forall|i: int| 0 <= i < t.len() implies score_of(
            tally_of(#[trigger] t.take(i)),
            t[i].candidate@,
        ) + t[i].delta <= u16::MAX by {
            if i < s.len() {
                assert(t.take(i) == s.take(i));
                assert(t[i] == s[i]);
                assert(score_of(tally_of(s.take(i)), s[i].candidate@) + s[i].delta <= u16::MAX);
            }
        }
    }
}

/// Some candidate's score would go beyond what a `u16` holds.
#[derive(Debug, Clone, Copy, PartialEq, Eq, Structural)]
pub struct ScoreOverflow;

/// Applies `events`, in the order given, to `network`, and records the
/// evidence of each against the candidate root causes; fails where some
/// score would go beyond what a `u16` holds.
#[verifier::loop_isolation(false)]
pub fn replay(network: Network, events: &Vec<Event>) -> (r: Result<
    (Network, RootCauseTracker),
    ScoreOverflow,
>)
    requires
        network.wf(),
    ensures
        match r {
            Ok((after, tracker)) => fits(trail(network@, events@)) && after.wf() && after@ == run(
                network@,
                events@,
            ) && tracker.wf() && tracker@ == tally_of(trail(network@, events@)),
            Err(_) => !fits(trail(network@, events@)),
        },
{
    let ghost g0 = network@;
    let mut network = network;
    let mut tracker = RootCauseTracker::new();
    let mut i: usize = 0;
    proof {
        assert(events@.take(0) =~= Seq::<Event>::empty());
        assert(fits(Seq::<ScoredEvidence>::empty()));
    }
    while i < events.len()
        invariant
            i <= events@.len(),
            network.wf(),
            tracker.wf(),
            network@ == run(g0, events@.take(i as int)),
            fits(trail(g0, events@.take(i as int))),
            tracker@ == tally_of(trail(g0, events@.take(i as int))),
        decreases events@.len() - i,
    {
        let ghost before = events@.take(i as int);
        let ghost done = trail(g0, before);
        let event = &events[i];
        proof {
            assert(events@.take(i + 1).drop_last() =~= before);
            assert(events@.take(i + 1).last() == *event);
        }
        let effect = network.apply_event(event);
        let ghost items = evidence_list(effect);
        proof {
            assert(trail(g0, events@.take(i + 1)) == done + items);
            assert(network@ == run(g0, events@.take(i + 1)));
        }
        match effect.candidate() {
            Some(list) => {
                let mut m: usize = 0;
                proof {
                    assert(items == list@);
                    assert(done + list@.take(0) =~= done);
                }
                while m < list.len()
                    invariant
                        m <= list@.len(),
                        items == list@,
                        i < events@.len(),
                        trail(g0, events@.take(i + 1)) == done + items,
                        tracker.wf(),
                        fits(done + list@.take(m as int)),
                        tracker@ == tally_of(done + list@.take(m as int)),
                    decreases list@.len() - m,
                {
                    let se = &list[m];
                    let ghost sofar = done + list@.take(m as int);
                    proof {
                        assert(sofar.push(*se) =~= done + list@.take(m + 1));
                        assert((done + list@.take(m + 1)).drop_last() =~= sofar);
                        lemma_fits_push(sofar, *se);
                    }
                    let current = tracker.score(&se.candidate);
                    if current > u16::MAX - se.delta {
                        proof {
                            let next = trail(g0, events@.take(i + 1));
                            assert(next == done + items);
                            let part = done + list@.take(m + 1);
                            assert(part =~= next.take(part.len() as int));
                            if fits(trail(g0, events@)) {
                                lemma_trail_prefix(g0, events@, i + 1);
                                assert(trail(g0, events@).take(next.len() as int) == next);
                                lemma_fits_prefix(trail(g0, events@), next.len() as int);
                                lemma_fits_prefix(next, part.len() as int);
                            }
                        }
                        return Err(ScoreOverflow);
                    }
                    tracker.record(se);
                    m = m + 1;
                }
                proof {
                    assert(list@.take(m as int) =~= list@);
                }
            },
            None => {
                proof {
                    assert(items =~= Seq::<ScoredEvidence>::empty());
                    assert(done + items =~= done);
                }
            },
        }
        i = i + 1;
    }
    proof {
        assert(events@.take(i as int) =~= events@);
    }
    Ok((network, tracker))
}

/// Event `a` comes before event `b`: it happened earlier, or at the same
/// time and it stands first.
pub open spec fn happens_first(events: Seq<Event>, a: int, b: int) -> bool {
    events[a].timestamp < events[b].timestamp || (events[a].timestamp == events[b].timestamp
        && a < b)
}

/// The events are listed in the order in which they happened.
pub open spec fn sorted_by_time(events: Seq<Event>) -> bool {
    forall|a: int, b: int|
        0 <= a < b < events.len() ==> #[trigger] events[a].timestamp <= #[trigger] events[b].timestamp
}

/// `order` ranks the events by `happens_first`.
pub open spec fn is_time_ranking(events: Seq<Event>, order: Seq<usize>) -> bool {
    is_ranking(events.len(), order, |a: int, b: int| happens_first(events, a, b))
}

/// The events in the order in which they happened, those that happened
/// at the same time in the order in which they are given.
pub fn chronological(events: &Vec<Event>) -> (r: Vec<Event>)
    ensures
        sorted_by_time(r@),
        exists|order: Seq<usize>|
            #[trigger] is_time_ranking(events@, order) && r@ == order.map_values(
                |i: usize| events@[i as int],
            ),
{
    let n = events.len();
    let mut order: Vec<usize> = Vec::new();
    let mut j: usize = 0;
    while j < n
        invariant
            n == events@.len(),
            j <= n,
            order@.len() == j,
            forall|k: int| 0 <= k < order@.len() ==> #[trigger] order@[k] < j,
            forall|i: int| 0 <= i < j ==> #[trigger] order@.contains(i as usize),
            forall|k: int, l: int|
                0 <= k < l < order@.len() ==> happens_first(
                    events@,
                    #[trigger] order@[k] as int,
                    #[trigger] order@[l] as int,
                ),
        decreases n - j,
    {
        let mut p: usize = 0;
        while p < order.len() && events[order[p]].timestamp <= events[j].timestamp
            invariant
                n == events@.len(),
                j < n,
                p <= order@.len(),
                forall|k: int| 0 <= k < order@.len() ==> #[trigger] order@[k] < j,
                forall|k: int|
                    0 <= k < p ==> events@[#[trigger] order@[k] as int].timestamp
                        <= events@[j as int].timestamp,
            decreases order@.len() - p,
        {
            p = p + 1;
        }
        let ghost before = order@;
        order.insert(p, j);
        proof {
            before.insert_ensures(p as int, j);
            assert forall|k: int| 0 <= k < order@.len() implies #[trigger] order@[k] < j + 1 by {
                if k < p {
                    assert(order@[k] == before[k]);
                } else if k > p {
                    assert(order@[k] == before[k - 1]);
                }
            }
            assert forall|i: int| 0 <= i < j + 1 implies #[trigger] order@.contains(i as usize) by {
                if i == j {
                    assert(order@[p as int] == j);
                } else {
                    assert(before.contains(i as usize));
                    let k = choose|k: int| 0 <= k < before.len() && before[k] == i as usize;
                    if k < p {
                        assert(order@[k] == before[k]);
                    } else {
                        assert(order@[k + 1] == before[k]);
                    }
                }
            }
            assert forall|k: int, l: int| 0 <= k < l < order@.len() implies happens_first(
                events@,
                #[trigger] order@[k] as int,
                #[trigger] order@[l] as int,
            ) by {
                if l < p {
                    assert(order@[k] == before[k] && order@[l] == before[l]);
                } else if l == p {
                    assert(order@[k] == before[k]);
                } else if k < p {
                    assert(order@[k] == before[k] && order@[l] == before[l - 1]);
                } else if k == p {
                    assert(order@[l] == before[l - 1]);
                    if l - 1 > p {
                        assert(happens_first(
                            events@,
                            before[p as int] as int,
                            before[l - 1] as int,
                        ));
                    }
                } else {
                    assert(order@[k] == before[k - 1] && order@[l] == before[l - 1]);
                }
            }
        }
        j = j + 1;
    }
    let mut r: Vec<Event> = Vec::new();
    let mut k: usize = 0;
    while k < n
        invariant
            n == events@.len(),
            is_ranking(n as nat, order@, |a: int, b: int| happens_first(events@, a, b)),
            k <= n,
            r@ == order@.take(k as int).map_values(|i: usize| events@[i as int]),
        decreases n - k,
    {
        r.push(events[order[k]].clone());
        proof {
            assert(order@.take(k + 1).map_values(|i: usize| events@[i as int]) =~= order@.take(
                k as int,
            ).map_values(|i: usize| events@[i as int]).push(events@[order@[k as int] as int]));
        }
        k = k + 1;
    }
    proof {
        assert(order@.take(n as int) =~= order@);
        assert(is_time_ranking(events@, order@));
        assert forall|a: int, b: int| 0 <= a < b < r@.len() implies #[trigger] r@[a].timestamp
            <= #[trigger] r@[b].timestamp by {
            assert(happens_first(events@, order@[a] as int, order@[b] as int));
        }
    }
    r
}

/// When the event behind an effect happened; an ignored event has no time
/// and counts as happening at the epoch.
pub open spec fn effect_time(effect: EventEffect) -> int {
    match effect {
        EventEffect::TopologyChanged { event } => event.timestamp as int,
        EventEffect::Observation { event, .. } => event.timestamp as int,
        EventEffect::Ignored => 0,
    }
}

/// The effects are listed in the order in which their events happened.
pub open spec fn in_time_order(effects: Seq<EventEffect>) -> bool {
    forall|a: int, b: int|
        0 <= a < b < effects.len() ==> effect_time(#[trigger] effects[a]) <= effect_time(
            #[trigger] effects[b],
        )
}

/// The evidence is listed in the order in which its events happened.
spec fn trail_in_time_order(ses: Seq<ScoredEvidence>) -> bool {
    forall|a: int, b: int|
        0 <= a < b < ses.len() ==> effect_time(#[trigger] ses[a].evidence) <= effect_time(
            #[trigger] ses[b].evidence,
        )
}

/// Each piece of evidence that an event gives has that event behind it.
proof fn lemma_evidence_list_time(g: Adjacency, event: Event)
    ensures
        forall|k: int|
            0 <= k < evidence_list(effect_of(g, event)).len() ==> effect_time(
                #[trigger] evidence_list(effect_of(g, event))[k].evidence,
            ) == event.timestamp,
{
}

/// The evidence of events that happened in order comes in that order, and
/// each piece of it happened at the time of one of the events.
proof fn lemma_trail_time(g: Adjacency, events: Seq<Event>)
    requires
        sorted_by_time(events),
    ensures
        trail_in_time_order(trail(g, events)),
        forall|k: int|
            0 <= k < trail(g, events).len() ==> exists|i: int|
                0 <= i < events.len() && effect_time(#[trigger] trail(g, events)[k].evidence)
                    == events[i].timestamp,
    decreases events.len(),
{
    if events.len() > 0 {
        let d = events.drop_last();
        let e = events.last();
        assert(sorted_by_time(d)) by {
            assert forall|a: int, b: int| 0 <= a < b < d.len() implies #[trigger] d[a].timestamp
                <= #[trigger] d[b].timestamp by {
                assert(events[a].timestamp <= events[b].timestamp);
            }
        }
        lemma_trail_time(g, d);
        lemma_evidence_list_time(run(g, d), e);
        let before = trail(g, d);
        let items = evidence_list(effect_of(run(g, d), e));
        let t = trail(g, events);
        assert(t == before + items);
        assert forall|k: int| 0 <= k < t.len() implies exists|i: int|
            0 <= i < events.len() && effect_time(#[trigger] t[k].evidence) == events[i].timestamp by {
            if k < before.len() {
                assert(t[k] == before[k]);
                let i = choose|i: int|
                    0 <= i < d.len() && effect_time(before[k].evidence) == d[i].timestamp;
                assert(events[i] == d[i]);
            } else {
                assert(t[k] == items[k - before.len()]);
                assert(events[events.len() - 1] == e);
            }
        }
        assert forall|a: int, b: int| 0 <= a < b < t.len() implies effect_time(
            #[trigger] t[a].evidence,
        ) <= effect_time(#[trigger] t[b].evidence) by {
            if b < before.len() {
                assert(t[a] == before[a] && t[b] == before[b]);
            } else if a < before.len() {
                assert(t[a] == before[a]);
                assert(t[b] == items[b - before.len()]);
                let i = choose|i: int|
                    0 <= i < d.len() && effect_time(before[a].evidence) == d[i].timestamp;
                assert(events[i] == d[i]);
                assert(events[i].timestamp <= events[events.len() - 1].timestamp);
            } else {
                assert(t[a] == items[a - before.len()]);
                assert(t[b] == items[b - before.len()]);
            }
        }
    }
}

/// The evidence against `c` is picked out of `ses` in order: each piece of
/// it stands in `ses`, and the evidence of a run in time order is in time
/// order.
proof fn lemma_evidence_for_order(ses: Seq<ScoredEvidence>, c: CandidateKey)
    ensures
        forall|m: int|
            0 <= m < evidence_for(ses, c).len() ==> exists|k: int|
                0 <= k < ses.len() && #[trigger] evidence_for(ses, c)[m] == ses[k].evidence,
        trail_in_time_order(ses) ==> in_time_order(evidence_for(ses, c)),
    decreases ses.len(),
{
    if ses.len() > 0 {
        let d = ses.drop_last();
        let x = ses.last();
        lemma_evidence_for_order(d, c);
        let ed = evidence_for(d, c);
        let es = evidence_for(ses, c);
        assert forall|m: int| 0 <= m < es.len() implies exists|k: int|
            0 <= k < ses.len() && #[trigger] es[m] == ses[k].evidence by {
            if m < ed.len() {
                let k = choose|k: int| 0 <= k < d.len() && ed[m] == d[k].evidence;
                assert(ses[k] == d[k]);
                if x.candidate@ == c {
                    assert(es[m] == ed[m]);
                }
            } else {
                assert(ses[ses.len() - 1] == x);
            }
        }
        if trail_in_time_order(ses) {
            assert(trail_in_time_order(d)) by {
                assert forall|a: int, b: int| 0 <= a < b < d.len() implies effect_time(
                    #[trigger] d[a].evidence,
                ) <= effect_time(#[trigger] d[b].evidence) by {
                    assert(ses[a] == d[a] && ses[b] == d[b]);
                }
            }
            assert forall|a: int, b: int| 0 <= a < b < es.len() implies effect_time(
                #[trigger] es[a],
            ) <= effect_time(#[trigger] es[b]) by {
                if x.candidate@ == c && b == ed.len() {
                    assert(es[a] == ed[a]);
                    let k = choose|k: int| 0 <= k < d.len() && ed[a] == d[k].evidence;
                    assert(ses[k] == d[k]);
                    assert(ses[ses.len() - 1] == x);
                } else {
                    assert(es[a] == ed[a] && es[b] == ed[b]);
                }
            }
        }
    }
}

/// Events replayed in the order in which they happened leave, against
/// every candidate, evidence that is listed oldest first.
pub proof fn lemma_evidence_oldest_first(g: Adjacency, events: Seq<Event>, c: CandidateKey)
    requires
        sorted_by_time(events),
    ensures
        in_time_order(evidence_against(tally_of(trail(g, events)), c)),
{
    lemma_trail_time(g, events);
    lemma_evidence_for_order(trail(g, events), c);
    lemma_tally_of(trail(g, events), c);
}

/// Every prefix of evidence that fits fits too.
proof fn lemma_fits_prefix(s: Seq<ScoredEvidence>, k: int)
    requires
        fits(s),
        0 <= k <= s.len(),
    ensures
        fits(s.take(k)),
{
    let p = s.take(k);
    assert forall|i: int| 0 <= i < p.len() implies score_of(
        tally_of(#[trigger] p.take(i)),
        p[i].candidate@,
    ) + p[i].delta <= u16::MAX by {
        assert(p.take(i) =~= s.take(i));
        assert(p[i] == s[i]);
        assert(score_of(tally_of(s.take(i)), s[i].candidate@) + s[i].delta <= u16::MAX);
    }
}

/// The evidence of the first `j` events starts the evidence of them all.
proof fn lemma_trail_prefix(g: Adjacency, events: Seq<Event>, j: int)
    requires
        0 <= j <= events.len(),
    ensures
        trail(g, events.take(j)).len() <= trail(g, events).len(),
        trail(g, events).take(trail(g, events.take(j)).len() as int) == trail(g, events.take(j)),
    decreases events.len(),
{
    if j == events.len() {
        assert(events.take(j) =~= events);
        assert(trail(g, events).take(trail(g, events).len() as int) =~= trail(g, events));
    } else {
        let d = events.drop_last();
        lemma_trail_prefix(g, d, j);
        assert(d.take(j) =~= events.take(j));
        let t = trail(g, events);
        let td = trail(g, d);
        let tj = trail(g, events.take(j));
        assert(t == td + evidence_list(effect_of(run(g, d), events.last())));
        assert(t.take(tj.len() as int) =~= td.take(tj.len() as int));
    }
}

} // verus!
