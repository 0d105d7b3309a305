use rootcause::rootcause::comparison::network_comparison;
use rootcause::rootcause::network::{EventEffect, Network};
use rootcause::rootcause::types::{Event, EventType, Graph, Link, Node};

fn node(name: &str) -> Node {
    Node(name.to_string())
}

fn event(from: &str, kind: EventType, to: &str, ms: i64) -> Event {
    Event::new(node(from), kind, node(to), ms).unwrap()
}

fn chain() -> Graph {
    Graph {
        nodes: vec![node("A"), node("B"), node("C")],
        links: vec![Link(node("A"), node("B")), Link(node("B"), node("C"))],
    }
}

#[test]
fn reaches_along_links() {
    let network = Network::new(chain());
    assert!(network.can_reach(&node("A"), &node("C")));
    assert!(network.can_reach(&node("C"), &node("A")));
    assert!(network.can_reach(&node("B"), &node("B")));
}

#[test]
fn every_name_reaches_itself_even_outside_the_network() {
    let network = Network::new(chain());
    assert!(network.can_reach(&node("Z"), &node("Z")));
    assert!(!network.can_reach(&node("Z"), &node("A")));
    assert!(!network.can_reach(&node("A"), &node("Z")));
}

#[test]
fn isolated_node_is_unreachable() {
    let graph = Graph {
        nodes: vec![node("A"), node("B"), node("D")],
        links: vec![Link(node("A"), node("B"))],
    };
    let network = Network::new(graph);
    assert!(!network.can_reach(&node("A"), &node("D")));
    assert!(!network.can_reach(&node("D"), &node("A")));
}

#[test]
fn link_down_cuts_the_path() {
    let mut network = Network::new(chain());
    let effect = network.apply_event(&event("A", EventType::LinkDown, "B", 1));
    assert!(matches!(effect, EventEffect::TopologyChanged { .. }));
    assert!(!network.can_reach(&node("A"), &node("C")));
    assert!(network.can_reach(&node("B"), &node("C")));
}

#[test]
fn link_down_reported_from_the_other_end_cuts_the_path() {
    let mut network = Network::new(chain());
    network.apply_event(&event("B", EventType::LinkDown, "A", 1));
    assert!(!network.can_reach(&node("C"), &node("A")));
}

#[test]
fn link_up_restores_the_path() {
    let mut network = Network::new(chain());
    network.apply_event(&event("A", EventType::LinkDown, "B", 1));
    network.apply_event(&event("B", EventType::LinkUp, "A", 2));
    assert!(network.can_reach(&node("A"), &node("C")));
}

#[test]
fn link_up_then_down_leaves_the_network_as_it_was() {
    let mut network = Network::new(chain());
    let before = network.to_string();
    network.apply_event(&event("A", EventType::LinkUp, "C", 1));
    assert_ne!(network.to_string(), before);
    network.apply_event(&event("C", EventType::LinkDown, "A", 2));
    assert_eq!(network.to_string(), before);
}

#[test]
fn link_up_adds_unknown_nodes() {
    let mut network = Network::new(chain());
    network.apply_event(&event("C", EventType::LinkUp, "D", 1));
    assert!(network.can_reach(&node("A"), &node("D")));
}

#[test]
fn link_down_between_unknown_nodes_changes_nothing() {
    let mut network = Network::new(chain());
    let before = network.to_string();
    let effect = network.apply_event(&event("X", EventType::LinkDown, "Y", 1));
    assert!(matches!(effect, EventEffect::TopologyChanged { .. }));
    assert_eq!(network.to_string(), before);
}

#[test]
fn unreachable_report_is_observed_against_the_topology() {
    let mut network = Network::new(chain());
    let e = event("A", EventType::NodeUnreachable, "C", 5);
    match network.apply_event(&e) {
        EventEffect::Observation { event, reachable } => {
            assert_eq!(event, e);
            assert!(reachable);
        }
        _ => panic!("expected an observation"),
    }
    network.apply_event(&event("B", EventType::LinkDown, "C", 6));
    match network.apply_event(&e) {
        EventEffect::Observation { reachable, .. } => assert!(!reachable),
        _ => panic!("expected an observation"),
    }
}

#[test]
fn degraded_is_ignored() {
    let mut network = Network::new(chain());
    let before = network.to_string();
    let effect = network.apply_event(&event("A", EventType::Degraded, "B", 1));
    assert!(matches!(effect, EventEffect::Ignored));
    assert_eq!(network.to_string(), before);
}

#[test]
fn shows_nodes_and_neighbours_in_order() {
    let graph = Graph {
        nodes: vec![node("B"), node("C"), node("A")],
        links: vec![Link(node("C"), node("A")), Link(node("A"), node("B"))],
    };
    let network = Network::new(graph);
    assert_eq!(
        network.to_string(),
        "Node(A) -> [Node(B), Node(C)]\nNode(B) -> [Node(A)]\nNode(C) -> [Node(A)]\n"
    );
}

#[test]
fn shows_isolated_node_with_no_neighbours() {
    let graph = Graph { nodes: vec![node("solo")], links: vec![] };
    let network = Network::new(graph);
    assert_eq!(network.to_string(), "Node(solo) -> []\n");
}

#[test]
fn empty_network_shows_nothing() {
    let network = Network::new(Graph { nodes: vec![], links: vec![] });
    assert!(network.graph.is_empty());
    assert_eq!(network.to_string(), "");
}

#[test]
fn links_name_their_nodes() {
    let graph = Graph { nodes: vec![], links: vec![Link(node("A"), node("B"))] };
    let network = Network::new(graph);
    assert_eq!(network.to_string(), "Node(A) -> [Node(B)]\nNode(B) -> [Node(A)]\n");
}

#[test]
fn clone_keeps_the_topology() {
    let network = Network::new(chain());
    let copy = network.clone();
    assert_eq!(copy.to_string(), network.to_string());
}

#[test]
fn comparison_sets_the_two_states_side_by_side() {
    let before = Network::new(chain());
    let mut after = before.clone();
    after.apply_event(&event("A", EventType::LinkDown, "B", 1));
    assert_eq!(
        network_comparison(&before, &after),
        "Initial Network State         | Modified Network State\n\
         Node(A) -> [Node(B)]          | Node(A) -> []\n\
         Node(B) -> [Node(A), Node(C)] | Node(B) -> [Node(C)]\n\
         Node(C) -> [Node(B)]          | Node(C) -> [Node(B)]\n\n"
    );
}

#[test]
fn comparison_keeps_the_heading_wider_than_short_lines() {
    let solo = Network::new(Graph { nodes: vec![node("solo")], links: vec![] });
    let pair = Network::new(chain());
    assert_eq!(
        network_comparison(&solo, &pair),
        [
            "Initial Network State | Modified Network State\n",
            "Node(solo) -> [] | Node(A) -> [Node(B)]\n",
            "                 | Node(B) -> [Node(A), Node(C)]\n",
            "                 | Node(C) -> [Node(B)]\n",
            "\n",
        ]
        .concat()
    );
}

#[test]
fn comparison_with_an_empty_network_is_empty() {
    let empty = Network::new(Graph { nodes: vec![], links: vec![] });
    let full = Network::new(chain());
    assert_eq!(network_comparison(&empty, &full), "");
    assert_eq!(network_comparison(&full, &empty), "");
}
