use rootcause::analysis::{
    Candidate, EventEffect, NoCauses, RootCause, RootCauseResult, RootCauseTracker,
    ScoredEvidence, LINK_DOWN, UNREACHABLE_AGREE, UNREACHABLE_DISAGREE,
};
use rootcause::helper::types::{Event, EventType, Graph, Link, Node};
use rootcause::network::Network;

fn node(name: &str) -> Node {
    Node(name.to_string())
}

fn event(from: &str, kind: EventType, to: &str, ms: i64) -> Event {
    Event::new(node(from), kind, node(to), ms).unwrap()
}

#[test]
fn from_graph_builds_the_topology() {
    let graph = Graph {
        nodes: vec![node("A"), node("B")],
        links: vec![Link(node("A"), node("B")), Link(node("B"), node("C"))],
    };
    let network = Network::from(graph);
    assert!(network.can_reach(&node("A"), &node("C")));
    assert_eq!(
        network.to_string(),
        "Node(A) -> [Node(B)]\nNode(B) -> [Node(A), Node(C)]\nNode(C) -> [Node(B)]\n"
    );
}

#[test]
fn every_event_adds_the_nodes_it_names() {
    let mut network = Network::from(Graph { nodes: vec![node("A")], links: vec![] });
    let effect = network.apply_event(&event("X", EventType::Degraded, "Y", 1));
    assert!(matches!(effect, EventEffect::Ignored));
    assert_eq!(network.to_string(), "Node(A) -> []\nNode(X) -> []\nNode(Y) -> []\n");
}

#[test]
fn observation_against_the_grown_network() {
    let mut network = Network::from(Graph { nodes: vec![], links: vec![] });
    match network.apply_event(&event("X", EventType::NodeUnreachable, "X", 1)) {
        EventEffect::Observation { reachable, .. } => assert!(reachable),
        _ => panic!("expected an observation"),
    }
    match network.apply_event(&event("X", EventType::NodeUnreachable, "Y", 2)) {
        EventEffect::Observation { reachable, .. } => assert!(!reachable),
        _ => panic!("expected an observation"),
    }
    network.apply_event(&event("X", EventType::LinkUp, "Y", 3));
    assert!(network.can_reach(&node("Y"), &node("X")));
    network.apply_event(&event("Y", EventType::LinkDown, "X", 4));
    assert!(!network.can_reach(&node("Y"), &node("X")));
}

#[test]
fn scores_of_this_variant() {
    assert_eq!(LINK_DOWN, 1);
    assert_eq!(UNREACHABLE_AGREE, 0);
    assert_eq!(UNREACHABLE_DISAGREE, 1);
    let e = event("a", EventType::NodeUnreachable, "c", 1);
    let disagree = EventEffect::Observation { event: e.clone(), reachable: true };
    let agree = EventEffect::Observation { event: e.clone(), reachable: false };
    assert_eq!(disagree.candidate().unwrap()[0].delta, 1);
    assert_eq!(agree.candidate().unwrap()[0].delta, 0);
    assert_eq!(agree.on_observation(&e, &false).unwrap()[0].delta, 0);
    let down = event("b", EventType::LinkDown, "a", 2);
    let effect = EventEffect::TopologyChanged { event: down.clone() };
    let evidence = effect.on_topology(&down).unwrap();
    assert_eq!(evidence[0].candidate, Candidate::Link(Link(node("a"), node("b"))));
    assert_eq!(evidence[1].candidate, Candidate::Node(node("a")));
    let up = event("b", EventType::LinkUp, "a", 3);
    assert!(EventEffect::TopologyChanged { event: up.clone() }.on_topology(&up).is_none());
}

#[test]
fn causes_are_ranked_by_score_then_candidate() {
    let mut tracker = RootCauseTracker::new();
    let entries = [
        (Candidate::Link(Link(node("a"), node("b"))), 2u16),
        (Candidate::Node(node("z")), 2),
        (Candidate::Node(node("m")), 5),
        (Candidate::Node(node("b")), 0),
        (Candidate::Link(Link(node("a"), node("a"))), 2),
    ];
    for (c, d) in entries.iter() {
        tracker.record(&ScoredEvidence::new(c.clone(), EventEffect::Ignored, *d));
    }
    let result = tracker.get_causes().unwrap();
    let show = |v: &Vec<RootCause>| v.iter().map(|c| c.candidate.to_string()).collect::<Vec<_>>();
    assert_eq!(show(&result.most_likely), vec!["Node(m)"]);
    assert_eq!(
        show(&result.less_likely),
        vec!["Node(z)", "Link(Node(a), Node(a))", "Link(Node(a), Node(b))"]
    );
    assert_eq!(show(&result.symptoms), vec!["Node(b)"]);
}

#[test]
fn empty_tracker_has_no_causes() {
    assert!(matches!(RootCauseTracker::new().get_causes(), Err(NoCauses)));
    assert!(matches!(RootCauseResult::new(vec![]), Err(NoCauses)));
}

#[test]
fn result_groups_ties_at_the_top() {
    let cause = |n: &str, s: u16| RootCause {
        candidate: Candidate::Node(node(n)),
        score: s,
        evidence: vec![],
    };
    let result = RootCauseResult::new(vec![cause("a", 4), cause("b", 4), cause("c", 1), cause("d", 0)])
        .unwrap();
    assert_eq!(result.most_likely.len(), 2);
    assert_eq!(result.less_likely.len(), 1);
    assert_eq!(result.less_likely[0].score, 1);
    assert_eq!(result.symptoms.len(), 1);
    assert_eq!(result.symptoms[0].candidate, Candidate::Node(node("d")));
    let cloned = result.most_likely[1].clone();
    assert_eq!(cloned.candidate, Candidate::Node(node("b")));
}

#[test]
fn all_zero_results_are_all_symptoms() {
    let cause = |n: &str| RootCause { candidate: Candidate::Node(node(n)), score: 0, evidence: vec![] };
    let result = RootCauseResult::new(vec![cause("a"), cause("b")]).unwrap();
    assert!(result.most_likely.is_empty());
    assert!(result.less_likely.is_empty());
    assert_eq!(result.symptoms.len(), 2);
    assert_eq!(result.symptoms[0].candidate, Candidate::Node(node("a")));
    assert_eq!(result.symptoms[1].candidate, Candidate::Node(node("b")));
}

#[test]
fn agreeing_reports_leave_every_candidate_a_symptom() {
    let mut network = Network::from(Graph { nodes: vec![node("A"), node("B")], links: vec![] });
    let mut tracker = RootCauseTracker::new();
    for (i, target) in ["B", "A"].iter().enumerate() {
        let effect = network.apply_event(&event("X", EventType::NodeUnreachable, target, i as i64));
        for se in effect.candidate().unwrap() {
            tracker.record(&se);
        }
    }
    let result = tracker.get_causes().unwrap();
    assert!(result.most_likely.is_empty() && result.less_likely.is_empty());
    let shown: Vec<String> = result.symptoms.iter().map(|c| c.candidate.to_string()).collect();
    assert_eq!(shown, vec!["Node(A)", "Node(B)"]);
}

#[test]
fn connect_then_disconnect_restores() {
    let mut network = Network::from(Graph { nodes: vec![node("A"), node("B")], links: vec![] });
    let before = network.to_string();
    network.connect(&node("A"), &node("B"));
    assert!(network.can_reach(&node("A"), &node("B")));
    network.disconnect(&node("B"), &node("A"));
    assert_eq!(network.to_string(), before);
}
