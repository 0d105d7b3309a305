use rootcause::rootcause::analysis::{Candidate, NoCauses, RootCause, RootCauseTracker, ScoredEvidence};
use rootcause::rootcause::network::{EventEffect, Network};
use rootcause::rootcause::replay::{chronological, replay, ScoreOverflow};
use rootcause::rootcause::types::{event_line, Event, EventType, Graph, Link, Node};

fn node(name: &str) -> Node {
    Node(name.to_string())
}

fn event(from: &str, kind: EventType, to: &str, ms: i64) -> Event {
    Event::new(node(from), kind, node(to), ms).unwrap()
}

fn chain() -> Graph {
    Graph {
        nodes: vec![node("A"), node("B"), node("C")],
        links: vec![Link(node("A"), node("B")), Link(node("B"), node("C"))],
    }
}

#[test]
fn link_down_counts_against_the_link_and_its_target() {
    let effect = EventEffect::TopologyChanged { event: event("b", EventType::LinkDown, "a", 1) };
    let evidence = effect.candidate().unwrap();
    assert_eq!(evidence.len(), 2);
    assert_eq!(evidence[0].candidate, Candidate::Link(Link(node("a"), node("b"))));
    assert_eq!(evidence[0].delta, 1);
    assert_eq!(evidence[1].candidate, Candidate::Node(node("a")));
    assert_eq!(evidence[1].delta, 1);
}

#[test]
fn link_up_is_no_evidence() {
    let effect = EventEffect::TopologyChanged { event: event("a", EventType::LinkUp, "b", 1) };
    assert!(effect.candidate().is_none());
    assert!(EventEffect::Ignored.candidate().is_none());
}

#[test]
fn unreachable_counts_double_where_the_topology_disagrees() {
    let e = event("a", EventType::NodeUnreachable, "c", 1);
    let disagree = EventEffect::Observation { event: e.clone(), reachable: true };
    let agree = EventEffect::Observation { event: e, reachable: false };
    let d = disagree.candidate().unwrap();
    let a = agree.candidate().unwrap();
    assert_eq!(d.len(), 1);
    assert_eq!(d[0].candidate, Candidate::Node(node("c")));
    assert_eq!(d[0].delta, 2);
    assert_eq!(a[0].delta, 1);
}

#[test]
fn tracker_adds_up_scores() {
    let mut tracker = RootCauseTracker::new();
    let c = Candidate::Node(node("x"));
    assert_eq!(tracker.score(&c), 0);
    tracker.record(&ScoredEvidence::new(c.clone(), EventEffect::Ignored, 2));
    tracker.record(&ScoredEvidence::new(Candidate::Node(node("y")), EventEffect::Ignored, 1));
    tracker.record(&ScoredEvidence::new(c.clone(), EventEffect::Ignored, 3));
    assert_eq!(tracker.score(&c), 5);
    assert_eq!(tracker.score(&Candidate::Node(node("y"))), 1);
}

#[test]
fn evidence_is_kept_oldest_first() {
    let mut tracker = RootCauseTracker::new();
    let c = Candidate::Node(node("x"));
    let first = EventEffect::TopologyChanged { event: event("a", EventType::LinkDown, "x", 1) };
    let second = EventEffect::Observation {
        event: event("b", EventType::NodeUnreachable, "x", 2),
        reachable: false,
    };
    tracker.record(&ScoredEvidence::new(c.clone(), first, 1));
    tracker.record(&ScoredEvidence::new(c.clone(), second, 1));
    let causes = RootCause::get_causes(tracker).unwrap();
    assert_eq!(causes.len(), 1);
    assert!(matches!(causes[0].evidence[0], EventEffect::TopologyChanged { .. }));
    assert!(matches!(causes[0].evidence[1], EventEffect::Observation { .. }));
}

#[test]
fn causes_come_highest_score_first_ties_in_recording_order() {
    let mut tracker = RootCauseTracker::new();
    for (name, delta) in [("p", 1u16), ("q", 3), ("r", 1), ("s", 3)] {
        tracker.record(&ScoredEvidence::new(Candidate::Node(node(name)), EventEffect::Ignored, delta));
    }
    let causes = RootCause::get_causes(tracker).unwrap();
    let names: Vec<String> = causes.iter().map(|c| c.candidate.to_string()).collect();
    assert_eq!(names, vec!["Node(q)", "Node(s)", "Node(p)", "Node(r)"]);
    let scores: Vec<u16> = causes.iter().map(|c| c.score).collect();
    assert_eq!(scores, vec![3, 3, 1, 1]);
}

#[test]
fn empty_tracker_has_no_causes_to_group() {
    let causes = RootCause::get_causes(RootCauseTracker::new()).unwrap();
    assert!(causes.is_empty());
    assert_eq!(RootCause::group(&causes), Err(NoCauses));
}

fn cause(name: &str, score: u16) -> RootCause {
    RootCause { candidate: Candidate::Node(node(name)), score, evidence: vec![] }
}

#[test]
fn groups_by_confidence() {
    let causes = vec![cause("a", 3), cause("b", 3), cause("c", 2), cause("d", 0)];
    let (most, less, symptoms) = RootCause::group(&causes).unwrap();
    assert_eq!(most, vec![0, 1]);
    assert_eq!(less, vec![2]);
    assert_eq!(symptoms, vec![3]);
}

#[test]
fn all_zero_scores_are_all_symptoms() {
    let causes = vec![cause("a", 0), cause("b", 0)];
    let (most, less, symptoms) = RootCause::group(&causes).unwrap();
    assert!(most.is_empty() && less.is_empty());
    assert_eq!(symptoms, vec![0, 1]);
}

#[test]
fn zero_first_score_lands_in_two_groups() {
    let causes = vec![cause("a", 0), cause("b", 2)];
    let (most, less, symptoms) = RootCause::group(&causes).unwrap();
    assert_eq!(most, vec![0]);
    assert_eq!(less, vec![1]);
    assert_eq!(symptoms, vec![0]);
}

#[test]
fn events_are_put_in_time_order_stably() {
    let events = vec![
        event("a", EventType::LinkDown, "b", 30),
        event("c", EventType::LinkDown, "d", 10),
        event("e", EventType::LinkDown, "f", 30),
        event("g", EventType::LinkDown, "h", -5),
    ];
    let sorted = chronological(&events);
    let froms: Vec<String> = sorted.iter().map(|e| e.node.0.clone()).collect();
    assert_eq!(froms, vec!["g", "c", "a", "e"]);
}

#[test]
fn replay_scores_a_failed_link() {
    let network = Network::new(chain());
    let events = vec![
        event("B", EventType::LinkDown, "C", 1),
        event("A", EventType::NodeUnreachable, "C", 2),
        event("A", EventType::Degraded, "B", 3),
        event("A", EventType::LinkUp, "B", 4),
    ];
    let (after, tracker) = replay(network, &events).unwrap();
    assert!(!after.can_reach(&node("A"), &node("C")));
    assert_eq!(tracker.score(&Candidate::Node(node("C"))), 2);
    assert_eq!(tracker.score(&Candidate::Link(Link(node("B"), node("C")))), 1);
    assert_eq!(tracker.score(&Candidate::Node(node("B"))), 0);
    let causes = RootCause::get_causes(tracker).unwrap();
    assert_eq!(causes[0].candidate, Candidate::Node(node("C")));
    assert_eq!(causes[0].score, 2);
    assert_eq!(causes[0].evidence.len(), 2);
    assert_eq!(causes[1].candidate, Candidate::Link(Link(node("B"), node("C"))));
    let (most, less, symptoms) = RootCause::group(&causes).unwrap();
    assert_eq!(most, vec![0]);
    assert_eq!(less, vec![1]);
    assert!(symptoms.is_empty());
}

#[test]
fn replay_refuses_a_score_beyond_u16() {
    let network = Network::new(chain());
    let report = event("A", EventType::NodeUnreachable, "C", 1);
    let events = vec![report; 32768];
    assert_eq!(replay(network, &events).err(), Some(ScoreOverflow));
}

#[test]
fn replay_accepts_the_largest_score() {
    let network = Network::new(chain());
    let report = event("A", EventType::NodeUnreachable, "C", 1);
    let mut events = vec![report; 32767];
    events.push(event("A", EventType::LinkDown, "C", 2));
    let (_, tracker) = replay(network, &events).unwrap();
    assert_eq!(tracker.score(&Candidate::Node(node("C"))), 65535);
}

#[test]
fn effect_text_forms() {
    let e = event("A", EventType::NodeUnreachable, "C", 1);
    assert_eq!(
        event_line(&e, "01/01/1970 01:00:00"),
        "Reported by Node(A) at 01/01/1970 01:00:00:\n  Target: Node(C), Type: NODE_UNREACHABLE"
    );
    let seen = EventEffect::Observation { event: e.clone(), reachable: false };
    assert_eq!(
        seen.text("T"),
        "Reported by Node(A) at T:\n  Target: Node(C), Type: NODE_UNREACHABLE\n  Topology still reachable: false"
    );
    let changed = EventEffect::TopologyChanged { event: event("A", EventType::LinkUp, "B", 2) };
    assert_eq!(changed.text("T"), "Reported by Node(A) at T:\n  Target: Node(B), Type: LINK_UP");
    assert_eq!(EventEffect::Ignored.text("T"), "");
}

#[test]
fn recording_order_does_not_change_scores() {
    let x = Candidate::Node(node("x"));
    let y = Candidate::Link(Link(node("x"), node("y")));
    let mut t1 = RootCauseTracker::new();
    let mut t2 = RootCauseTracker::new();
    t1.record(&ScoredEvidence::new(x.clone(), EventEffect::Ignored, 2));
    t1.record(&ScoredEvidence::new(y.clone(), EventEffect::Ignored, 1));
    t1.record(&ScoredEvidence::new(x.clone(), EventEffect::Ignored, 3));
    t2.record(&ScoredEvidence::new(x.clone(), EventEffect::Ignored, 3));
    t2.record(&ScoredEvidence::new(x.clone(), EventEffect::Ignored, 2));
    t2.record(&ScoredEvidence::new(y.clone(), EventEffect::Ignored, 1));
    assert_eq!(t1.score(&x), t2.score(&x));
    assert_eq!(t1.score(&y), t2.score(&y));
}
