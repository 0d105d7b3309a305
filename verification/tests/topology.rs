use rootcause::rootcause::network::Network;
use rootcause::rootcause::types::{Graph, Link, Node};
use rootcause::topology::Topology;

fn node(name: &str) -> Node {
    Node(name.to_string())
}

#[test]
fn edges_are_recorded_one_way() {
    let mut t = Topology::new();
    assert!(t.is_empty());
    t.insert_edge(&node("a"), &node("b"));
    assert!(t.contains(&node("a")));
    assert!(!t.contains(&node("b")));
    assert!(t.reaches(&node("a"), &node("b")));
    assert!(!t.reaches(&node("b"), &node("a")));
    assert_eq!(t.neighbors(&node("a")).unwrap().len(), 1);
    assert!(t.neighbors(&node("b")).is_none());
}

#[test]
fn inserting_an_edge_twice_keeps_one() {
    let mut t = Topology::new();
    t.insert_edge(&node("a"), &node("b"));
    t.insert_edge(&node("a"), &node("b"));
    assert_eq!(t.neighbors(&node("a")).unwrap().len(), 1);
}

#[test]
fn removing_an_edge() {
    let mut t = Topology::new();
    t.add_node(&node("b"));
    t.insert_edge(&node("a"), &node("b"));
    t.insert_edge(&node("a"), &node("c"));
    t.remove_edge(&node("a"), &node("b"));
    assert!(!t.reaches(&node("a"), &node("b")));
    assert!(t.reaches(&node("a"), &node("c")));
    t.remove_edge(&node("x"), &node("a"));
    assert!(!t.contains(&node("x")));
    assert_eq!(t.render(), "Node(a) -> [Node(c)]\nNode(b) -> []\n");
}

#[test]
fn adding_a_node_twice_changes_nothing() {
    let mut t = Topology::new();
    t.insert_edge(&node("a"), &node("b"));
    t.add_node(&node("a"));
    assert_eq!(t.neighbors(&node("a")).unwrap().len(), 1);
}

#[test]
fn search_finds_long_paths_and_cycles() {
    let names: Vec<String> = (0..60).map(|i| format!("n{i}")).collect();
    let mut links: Vec<Link> = Vec::new();
    for w in names.windows(2) {
        links.push(Link(Node(w[0].clone()), Node(w[1].clone())));
    }
    links.push(Link(node("n59"), node("n0")));
    let network = Network::new(Graph { nodes: vec![node("lone")], links });
    assert!(network.can_reach(&node("n0"), &node("n59")));
    assert!(network.can_reach(&node("n30"), &node("n7")));
    assert!(!network.can_reach(&node("n30"), &node("lone")));
    assert!(network.neighbors(&node("n0")).unwrap().len() == 2);
}

#[test]
fn neighbours_are_shown_by_their_text_form() {
    // Nodes go by name ("a" before "a!"), neighbours by text form
    // ("Node(a!)" before "Node(a)").
    let graph = Graph {
        nodes: vec![],
        links: vec![Link(node("x"), node("a")), Link(node("x"), node("a!"))],
    };
    let network = Network::new(graph);
    assert_eq!(
        network.to_string(),
        "Node(a) -> [Node(x)]\nNode(a!) -> [Node(x)]\nNode(x) -> [Node(a!), Node(a)]\n"
    );
}
