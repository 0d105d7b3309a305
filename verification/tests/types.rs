use rootcause::rootcause::analysis::Candidate;
use rootcause::rootcause::types::{Event, EventType, Link, Node, TimestampOutOfRange};
use rootcause::timestamp::{MAX_MILLISECOND, MIN_MILLISECOND};

fn node(name: &str) -> Node {
    Node(name.to_string())
}

#[test]
fn link_puts_the_smaller_name_first() {
    assert_eq!(Link::new(node("b"), node("a")), Link(node("a"), node("b")));
    assert_eq!(Link::new(node("a"), node("b")), Link(node("a"), node("b")));
}

#[test]
fn link_is_the_same_either_way_round() {
    for (x, y) in [("r1", "r10"), ("r2", "r10"), ("Node", "node"), ("ab", "a"), ("é", "z")] {
        assert_eq!(Link::new(node(x), node(y)), Link::new(node(y), node(x)));
    }
}

#[test]
fn link_orders_as_strings_do() {
    let l = Link::new(node("r2"), node("r10"));
    assert_eq!(l, Link(node("r10"), node("r2")));
    let l = Link::new(node("z"), node("é"));
    assert_eq!(l, Link(node("z"), node("é")));
}

#[test]
fn link_of_a_node_with_itself() {
    assert_eq!(Link::new(node("a"), node("a")), Link(node("a"), node("a")));
}

#[test]
fn text_forms() {
    assert_eq!(node("A").to_string(), "Node(A)");
    assert_eq!(Link(node("A"), node("B")).to_string(), "Link(Node(A), Node(B))");
    assert_eq!(EventType::LinkUp.to_string(), "LINK_UP");
    assert_eq!(EventType::LinkDown.to_string(), "LINK_DOWN");
    assert_eq!(EventType::NodeUnreachable.to_string(), "NODE_UNREACHABLE");
    assert_eq!(EventType::Degraded.to_string(), "DEGRADED");
    assert_eq!(Candidate::Node(node("A")).to_string(), "Node(A)");
    assert_eq!(
        Candidate::Link(Link(node("A"), node("B"))).to_string(),
        "Link(Node(A), Node(B))"
    );
}

#[test]
fn event_keeps_its_fields() {
    let e = Event::new(node("A"), EventType::LinkDown, node("B"), 1_700_000_000_000).unwrap();
    assert_eq!(e.node, node("A"));
    assert_eq!(e.event_type, EventType::LinkDown);
    assert_eq!(e.target, node("B"));
    assert_eq!(e.timestamp, 1_700_000_000_000);
}

#[test]
fn timestamp_range_is_inclusive() {
    assert_eq!(MIN_MILLISECOND, -377_705_023_201_000);
    assert_eq!(MAX_MILLISECOND, 253_402_207_200_000);
    assert!(Event::new(node("A"), EventType::Degraded, node("B"), MIN_MILLISECOND).is_ok());
    assert!(Event::new(node("A"), EventType::Degraded, node("B"), MAX_MILLISECOND).is_ok());
    assert!(Event::new(node("A"), EventType::Degraded, node("B"), 0).is_ok());
    assert!(Event::new(node("A"), EventType::Degraded, node("B"), -1).is_ok());
}

#[test]
fn timestamps_outside_the_range_are_refused() {
    let e = Event::new(node("A"), EventType::Degraded, node("B"), MAX_MILLISECOND + 1);
    assert_eq!(e.unwrap_err(), TimestampOutOfRange { millisecond: MAX_MILLISECOND + 1 });
    let e = Event::new(node("A"), EventType::Degraded, node("B"), MIN_MILLISECOND - 1);
    assert_eq!(e.unwrap_err(), TimestampOutOfRange { millisecond: MIN_MILLISECOND - 1 });
    assert!(Event::new(node("A"), EventType::Degraded, node("B"), i64::MAX).is_err());
    assert!(Event::new(node("A"), EventType::Degraded, node("B"), i64::MIN).is_err());
}

#[test]
fn candidates_compare_by_name() {
    assert_eq!(Candidate::Node(node("A")), Candidate::Node(node("A")));
    assert_ne!(Candidate::Node(node("A")), Candidate::Node(node("B")));
    assert_ne!(
        Candidate::Node(node("A")),
        Candidate::Link(Link(node("A"), node("A")))
    );
    assert!(Candidate::Node(node("A")).same(&Candidate::Node(node("A"))));
    assert!(!Candidate::Node(node("A")).same(&Candidate::Node(node("B"))));
}

#[test]
fn string_order_agrees_with_std() {
    let words = ["", "a", "a!", "a)", "ab", "b", "B", "é", "z", "zz", "日本", "r10", "r2"];
    for x in words {
        for y in words {
            assert_eq!(rootcause::strings::str_le(x, y), x <= y, "{x:?} {y:?}");
        }
    }
}

#[test]
fn candidate_order_agrees_with_derived_ord() {
    let cands = vec![
        Candidate::Node(node("a")),
        Candidate::Node(node("b")),
        Candidate::Link(Link(node("a"), node("b"))),
        Candidate::Link(Link(node("a"), node("c"))),
        Candidate::Link(Link(node("b"), node("a"))),
        Candidate::Link(Link(node("a"), node("a"))),
    ];
    for x in &cands {
        for y in &cands {
            assert_eq!(rootcause::analysis::candidate_less(x, y), x < y);
        }
    }
}
