//! The data that the analysis reads: nodes, links, events and the
//! initial topology.

use vstd::prelude::*;
use vstd::std_specs::cmp::PartialEqSpecImpl;
use crate::strings::{lemma_lex_antisymmetric, lemma_lex_total, lex_le, str_le};
use crate::timestamp::{millisecond_in_range, MAX_MILLISECOND, MIN_MILLISECOND};

verus! {

/// A network node, named by a string.
#[derive(Debug, Eq, Hash, PartialOrd, Ord)]
pub struct Node(pub String);

impl View for Node {
    type V = Seq<char>;

    open spec fn view(&self) -> Seq<char> {
        self.0@
    }
}

impl Clone for Node {
    fn clone(&self) -> (r: Self)
        ensures
            r == *self,
    {
        Node(self.0.clone())
    }
}

impl PartialEq for Node {
    fn eq(&self, other: &Self) -> (r: bool) {
        self.0 == other.0
    }
}

impl PartialEqSpecImpl for Node {
    open spec fn obeys_eq_spec() -> bool {
        true
    }

    open spec fn eq_spec(&self, other: &Self) -> bool {
        self@ == other@
    }
}

impl Node {
    /// The node's text form, `Node(<name>)`.
    pub fn to_string(&self) -> (s: String)
        ensures
            s@ == node_text(self@),
    {
        let mut s = String::from_str("Node(");
        s.append(self.0.as_str());
        s.append(")");
        s
    }
}

/// The text form of the node named `name`.
pub open spec fn node_text(name: Seq<char>) -> Seq<char> {
    "Node("@ + name + ")"@
}

/// Different names have different text forms.
pub proof fn lemma_node_text_injective(a: Seq<char>, b: Seq<char>)
    requires
        node_text(a) == node_text(b),
    ensures
        a == b,
{
    reveal_strlit("Node(");
    reveal_strlit(")");
    let ta = node_text(a);
    assert(ta.len() == a.len() + 6);
    assert(a =~= ta.subrange(5, 5 + a.len() as int));
    assert(b =~= node_text(b).subrange(5, 5 + b.len() as int));
}

/// A link between two nodes.
#[derive(Debug, Eq, Hash, PartialOrd, Ord)]
pub struct Link(pub Node, pub Node);

impl Clone for Link {
    fn clone(&self) -> (r: Self)
        ensures
            r == *self,
    {
        Link(self.0.clone(), self.1.clone())
    }
}

impl PartialEq for Link {
    fn eq(&self, other: &Self) -> (r: bool) {
        self.0 == other.0 && self.1 == other.1
    }
}

impl PartialEqSpecImpl for Link {
    open spec fn obeys_eq_spec() -> bool {
        true
    }

    open spec fn eq_spec(&self, other: &Self) -> bool {
        self@ == other@
    }
}

impl View for Link {
    type V = (Seq<char>, Seq<char>);

    open spec fn view(&self) -> (Seq<char>, Seq<char>) {
        (self.0@, self.1@)
    }
}

/// The link between `a` and `b`, the endpoint with the smaller name first.
pub open spec fn link_between(a: Node, b: Node) -> Link {
    if lex_le(a@, b@) {
        Link(a, b)
    } else {
        Link(b, a)
    }
}

/// A link has one form whichever way round its ends are named: the link
/// from `a` to `b` has the same ends, in the same order, as the link from
/// `b` to `a`.
pub proof fn lemma_link_between_symmetric(a: Node, b: Node)
    ensures
        link_between(a, b)@ == link_between(b, a)@,
{
    lemma_lex_total(a@, b@);
    if lex_le(a@, b@) && lex_le(b@, a@) {
        lemma_lex_antisymmetric(a@, b@);
    }
}

/// The endpoints of the link between `a` and `b`, the smaller name first.
pub open spec fn ordered_pair(a: Seq<char>, b: Seq<char>) -> (Seq<char>, Seq<char>) {
    if lex_le(a, b) {
        (a, b)
    } else {
        (b, a)
    }
}

impl Link {
    /// Builds the link between `a` and `b` with its endpoints in order, the
    /// smaller name first, so that a link has one form whichever way round
    /// it was named.
    pub fn new(a: Node, b: Node) -> (r: Self)
        ensures
            lex_le(a@, b@) ==> r.0 == a && r.1 == b,
            !lex_le(a@, b@) ==> r.0 == b && r.1 == a,
            r@ == ordered_pair(a@, b@),
            r == link_between(a, b),
    {
        if str_le(a.0.as_str(), b.0.as_str()) {
            Link(a, b)
        } else {
            Link(b, a)
        }
    }

    /// The link's text form, `Link(Node(<a>), Node(<b>))`.
    pub fn to_string(&self) -> (s: String)
        ensures
            s@ == link_text(self@),
    {
        let mut s = String::from_str("Link(");
        let a = self.0.to_string();
        let b = self.1.to_string();
        s.append(a.as_str());
        s.append(", ");
        s.append(b.as_str());
        s.append(")");
        s
    }
}

/// The text form of the link with the given endpoints.
pub open spec fn link_text(l: (Seq<char>, Seq<char>)) -> Seq<char> {
    "Link("@ + node_text(l.0) + ", "@ + node_text(l.1) + ")"@
}

/// The kind of an event.
#[derive(Debug, Clone, Copy, PartialEq, Eq, Hash, Structural)]
pub enum EventType {
    LinkUp,
    LinkDown,
    NodeUnreachable,
    Degraded,
}

impl EventType {
    /// The event type's text form, as it is written in event files.
    pub fn to_string(&self) -> (s: String)
        ensures
            s@ == event_type_text(*self),
    {
        match self {
            EventType::LinkUp => String::from_str("LINK_UP"),
            EventType::LinkDown => String::from_str("LINK_DOWN"),
            EventType::NodeUnreachable => String::from_str("NODE_UNREACHABLE"),
            EventType::Degraded => String::from_str("DEGRADED"),
        }
    }
}

/// The text form of an event type.
pub open spec fn event_type_text(t: EventType) -> Seq<char> {
    match t {
        EventType::LinkUp => "LINK_UP"@,
        EventType::LinkDown => "LINK_DOWN"@,
        EventType::NodeUnreachable => "NODE_UNREACHABLE"@,
        EventType::Degraded => "DEGRADED"@,
    }
}

/// An event reported by `node` about `target`, at `timestamp` milliseconds
/// after the Unix epoch.
#[derive(Debug, Eq, Hash)]
pub struct Event {
    pub node: Node,
    pub event_type: EventType,
    pub target: Node,
    pub timestamp: i64,
}

impl Clone for Event {
    fn clone(&self) -> (r: Self)
        ensures
            r == *self,
    {
        Event {
            node: self.node.clone(),
            event_type: self.event_type,
            target: self.target.clone(),
            timestamp: self.timestamp,
        }
    }
}

impl PartialEq for Event {
    fn eq(&self, other: &Self) -> (r: bool) {
        self.node == other.node && self.event_type == other.event_type && self.target
            == other.target && self.timestamp == other.timestamp
    }
}

impl PartialEqSpecImpl for Event {
    open spec fn obeys_eq_spec() -> bool {
        true
    }

    open spec fn eq_spec(&self, other: &Self) -> bool {
        same_event(*self, *other)
    }
}

/// Two events name the same nodes, type and instant.
pub open spec fn same_event(a: Event, b: Event) -> bool {
    &&& a.node@ == b.node@
    &&& a.event_type == b.event_type
    &&& a.target@ == b.target@
    &&& a.timestamp == b.timestamp
}

/// The text of `event`, reported at the time written `date`.
pub open spec fn event_text(event: Event, date: Seq<char>) -> Seq<char> {
    "Reported by "@ + node_text(event.node@) + " at "@ + date + ":\n  Target: "@ + node_text(
        event.target@,
    ) + ", Type: "@ + event_type_text(event.event_type)
}

/// The text of `event`, with its time written as `date`: who reported it,
/// when, about which node, and of what type.
pub fn event_line(event: &Event, date: &str) -> (s: String)
    ensures
        s@ == event_text(*event, date@),
{
    let mut s = String::from_str("Reported by ");
    let node = event.node.to_string();
    let target = event.target.to_string();
    let kind = event.event_type.to_string();
    s.append(node.as_str());
    s.append(" at ");
    s.append(date);
    s.append(":\n  Target: ");
    s.append(target.as_str());
    s.append(", Type: ");
    s.append(kind.as_str());
    s
}

/// A timestamp that names an instant outside the supported range.
#[derive(Debug, Clone, Copy, PartialEq, Eq, Structural)]
pub struct TimestampOutOfRange {
    pub millisecond: i64,
}

impl Event {
    /// Builds an event at `timestamp` milliseconds after the Unix epoch;
    /// fails where no timestamp represents that instant.
    pub fn new(node: Node, event_type: EventType, target: Node, timestamp: i64) -> (r: Result<
        Event,
        TimestampOutOfRange,
    >)
        ensures
            match r {
                Ok(e) => MIN_MILLISECOND <= timestamp <= MAX_MILLISECOND && e == (Event {
                    node,
                    event_type,
                    target,
                    timestamp,
                }),
                Err(err) => !(MIN_MILLISECOND <= timestamp <= MAX_MILLISECOND) && err.millisecond
                    == timestamp,
            },
    {
        if millisecond_in_range(timestamp) {
            Ok(Event { node, event_type, target, timestamp })
        } else {
            Err(TimestampOutOfRange { millisecond: timestamp })
        }
    }
}

/// The initial topology: its nodes and the links between them.
#[derive(Debug)]
pub struct Graph {
    pub nodes: Vec<Node>,
    pub links: Vec<Link>,
}

} // verus!
