//! The network as it evolves under events, and the effect of each event.

use vstd::prelude::*;
use vstd::std_specs::cmp::PartialEqSpecImpl;
use crate::rootcause::analysis::{Candidate, ScoredEvidence};
use crate::rootcause::types::{
    event_line, event_text, lemma_link_between_symmetric, link_between, same_event, Event, EventType, Graph,
    Link, Node,
};
use crate::strings::{ends_with, lemma_ends_with_last_part, lemma_lex_total, lex_le};
use crate::topology::{
    has_edge, lemma_linked_symmetric, lemma_reachable_self, lemma_reachable_step, lemma_topology_of_empty, lemma_topology_of_push_link,
    lemma_topology_of_push_node, lemma_unlinked_symmetric, linked, name_set, reachable, render_topology, symmetric,
    topology_of, unlinked, Adjacency, Topology,
};

verus! {

/// A network: its nodes and, for each, the set of nodes it is linked to.
#[derive(Debug)]
pub struct Network {
    pub graph: Topology,
}

impl Clone for Network {
    fn clone(&self) -> (r: Self)
        ensures
            self.wf() ==> r.wf() && r@ == self@,
    {
        Network { graph: self.graph.clone() }
    }
}

impl View for Network {
    type V = Adjacency;

    open spec fn view(&self) -> Adjacency {
        self.graph@
    }
}

/// The topology after `event`: a link that goes down is removed, one that
/// comes up is added; other events leave the topology as it is.
pub open spec fn after_event(g: Adjacency, event: Event) -> Adjacency {
    match event.event_type {
        EventType::LinkDown => unlinked(g, event.node@, event.target@),
        EventType::LinkUp => linked(g, event.node@, event.target@),
        _ => g,
    }
}

/// What `event` means, given the topology `g` it meets: a change of the
/// topology, an observation together with whether the topology still
/// lets the reporting node reach the target, or nothing.
pub open spec fn effect_of(g: Adjacency, event: Event) -> EventEffect {
    match event.event_type {
        EventType::LinkDown => EventEffect::TopologyChanged { event },
        EventType::LinkUp => EventEffect::TopologyChanged { event },
        EventType::NodeUnreachable => EventEffect::Observation {
            event,
            reachable: reachable(g, event.node@, event.target@),
        },
        EventType::Degraded => EventEffect::Ignored,
    }
}

/// Every event keeps a topology symmetric: links stay recorded on both
/// sides.
pub proof fn lemma_event_keeps_symmetric(g: Adjacency, event: Event)
    requires
        symmetric(g),
    ensures
        symmetric(after_event(g, event)),
{
    match event.event_type {
        EventType::LinkDown => lemma_unlinked_symmetric(g, event.node@, event.target@),
        EventType::LinkUp => lemma_linked_symmetric(g, event.node@, event.target@),
        _ => {},
    }
}

/// A link that comes up between two nodes that were not linked and then
/// goes down, reported from either end, leaves the topology as it was.
pub proof fn lemma_link_up_then_down(g: Adjacency, up: Event, down: Event)
    requires
        symmetric(g),
        up.event_type == EventType::LinkUp,
        down.event_type == EventType::LinkDown,
        g.dom().contains(up.node@),
        g.dom().contains(up.target@),
        !has_edge(g, up.node@, up.target@),
        (down.node@ == up.node@ && down.target@ == up.target@) || (down.node@ == up.target@
            && down.target@ == up.node@),
    ensures
        after_event(after_event(g, up), down) == g,
{
    let a = up.node@;
    let b = up.target@;
    let h = after_event(after_event(g, up), down);
    assert(!has_edge(g, b, a));
    assert forall|x: Seq<char>| #[trigger] h.dom().contains(x) implies h[x] =~= g[x] by {}
    assert(h =~= g);
}

/// A report that a node is unreachable, or that it is degraded, leaves
/// the topology exactly as it was.
pub proof fn lemma_reports_keep_topology(g: Adjacency, event: Event)
    requires
        event.event_type == EventType::NodeUnreachable || event.event_type == EventType::Degraded,
    ensures
        after_event(g, event) == g,
{
}

/// An event changes no link but the one it names: after a link goes down
/// its ends are linked on neither side, after it comes up they are linked
/// on both, and every other pair of names is linked as it was.
pub proof fn lemma_event_changes_only_its_link(
    g: Adjacency,
    event: Event,
    a: Seq<char>,
    b: Seq<char>,
)
    ensures
        event.event_type == EventType::LinkDown ==> !has_edge(
            after_event(g, event),
            event.node@,
            event.target@,
        ) && !has_edge(after_event(g, event), event.target@, event.node@),
        event.event_type == EventType::LinkUp ==> has_edge(
            after_event(g, event),
            event.node@,
            event.target@,
        ) && has_edge(after_event(g, event), event.target@, event.node@),
        !((a == event.node@ && b == event.target@) || (a == event.target@ && b == event.node@))
            ==> has_edge(after_event(g, event), a, b) == has_edge(g, a, b),
{
}

/// Whether a report that a node is unreachable is borne out is judged by
/// every walk through the links, not by direct links alone: where the
/// reporter is linked to some node that is linked to the target, the
/// topology still reaches the target.
pub proof fn lemma_report_follows_links(g: Adjacency, event: Event, mid: Seq<char>)
    requires
        event.event_type == EventType::NodeUnreachable,
        has_edge(g, event.node@, mid),
        has_edge(g, mid, event.target@),
    ensures
        effect_of(g, event) matches EventEffect::Observation { event: e, reachable: r } && e == event
            && r,
{
    lemma_reachable_self(g, event.node@);
    lemma_reachable_step(g, event.node@, event.node@, mid);
    lemma_reachable_step(g, event.node@, mid, event.target@);
}

/// A report that a node is unreachable is an observation of that event,
/// which tells whether some walk through the links leads from the reporter
/// to the target.
pub proof fn lemma_report_is_observation(g: Adjacency, event: Event)
    requires
        event.event_type == EventType::NodeUnreachable,
    ensures
        effect_of(g, event) matches EventEffect::Observation { event: e, reachable: r } && e == event
            && (r <==> exists|p: Seq<Seq<char>>|
            p.len() > 0 && p[0] == event.node@ && p.last() == event.target@ && forall|i: int|
                0 <= i < p.len() - 1 ==> #[trigger] has_edge(g, p[i], p[i + 1])),
{
    let r = reachable(g, event.node@, event.target@);
    if r {
        let p = choose|p: Seq<Seq<char>>|
            #[trigger] crate::topology::is_walk(g, p) && p[0] == event.node@ && p.last() == event.target@;
        assert forall|i: int| 0 <= i < p.len() - 1 implies #[trigger] has_edge(g, p[i], p[i + 1]) by {
            assert(has_edge(g, p[i], p[i + 1]));
        }
    }
    if exists|p: Seq<Seq<char>>|
        p.len() > 0 && p[0] == event.node@ && p.last() == event.target@ && forall|i: int|
            0 <= i < p.len() - 1 ==> #[trigger] has_edge(g, p[i], p[i + 1]) {
        let p = choose|p: Seq<Seq<char>>|
            p.len() > 0 && p[0] == event.node@ && p.last() == event.target@ && forall|i: int|
                0 <= i < p.len() - 1 ==> #[trigger] has_edge(g, p[i], p[i + 1]);
        assert(crate::topology::is_walk(g, p));
    }
}

/// A link that goes down or comes up is a change of the topology carrying
/// that event; only a degraded node is ignored.
pub proof fn lemma_link_events_change_topology(g: Adjacency, event: Event)
    ensures
        event.event_type == EventType::LinkDown || event.event_type == EventType::LinkUp
            ==> effect_of(g, event) == (EventEffect::TopologyChanged { event }),
        effect_of(g, event) is Ignored <==> event.event_type == EventType::Degraded,
{
}

/// A link that goes down, reported by one of its ends, counts once against
/// the link, named with the end whose name comes first as its first end,
/// and once against the target node.
pub proof fn lemma_link_down_blames_link_and_target(g: Adjacency, event: Event)
    requires
        event.event_type == EventType::LinkDown,
    ensures
        evidence_of(effect_of(g, event)) is Some,
        evidence_of(effect_of(g, event)).unwrap().len() == 2,
        evidence_of(effect_of(g, event)).unwrap()[0].candidate matches Candidate::Link(l) && lex_le(
            l.0@,
            l.1@,
        ) && ((l.0@ == event.node@ && l.1@ == event.target@) || (l.0@ == event.target@ && l.1@
            == event.node@)),
        evidence_of(effect_of(g, event)).unwrap()[0].delta == 1,
        evidence_of(effect_of(g, event)).unwrap()[1].candidate == Candidate::Node(event.target),
        evidence_of(effect_of(g, event)).unwrap()[1].delta == 1,
{
    lemma_lex_total(event.node@, event.target@);
}

/// A link that goes down names one candidate whichever of its ends
/// reports it, so the reports of both ends add up against one link.
pub proof fn lemma_link_down_same_from_either_end(g: Adjacency, h: Adjacency, e1: Event, e2: Event)
    requires
        e1.event_type == EventType::LinkDown,
        e2.event_type == EventType::LinkDown,
        e2.node@ == e1.target@,
        e2.target@ == e1.node@,
    ensures
        evidence_of(effect_of(g, e1)).unwrap()[0].candidate@ == evidence_of(
            effect_of(h, e2),
        ).unwrap()[0].candidate@,
{
    lemma_link_between_symmetric(e1.node, e1.target);
    lemma_link_between_symmetric(e2.node, e2.target);
}

impl Network {
    /// The topology is well formed and records each link on both sides.
    pub open spec fn wf(&self) -> bool {
        self.graph.wf() && symmetric(self.graph@)
    }

    /// The network of `graph`: its nodes, and both ends of each link.
    pub fn new(graph: Graph) -> (network: Self)
        ensures
            network.wf(),
            network@ == topology_of(graph.nodes@, graph.links@),
    {
        let mut network = Network { graph: Topology::new() };
        proof {
            lemma_topology_of_empty();
        }
        let mut i: usize = 0;
        while i < graph.nodes.len()
            invariant
                i <= graph.nodes@.len(),
                network.wf(),
                network@ == topology_of(graph.nodes@.take(i as int), Seq::empty()),
            decreases graph.nodes@.len() - i,
        {
            proof {
                lemma_topology_of_push_node(graph.nodes@.take(i as int), graph.nodes@[i as int]);
                assert(graph.nodes@.take(i as int).push(graph.nodes@[i as int]) =~= graph.nodes@.take(
                    i + 1,
                ));
            }
            network.add_node(&graph.nodes[i]);
            i = i + 1;
        }
        assert(graph.nodes@.take(i as int) =~= graph.nodes@);
        assert(graph.links@.take(0) =~= Seq::<Link>::empty());
        let mut j: usize = 0;
        while j < graph.links.len()
            invariant
                j <= graph.links@.len(),
                network.wf(),
                network@ == topology_of(graph.nodes@, graph.links@.take(j as int)),
            decreases graph.links@.len() - j,
        {
            let link = &graph.links[j];
            proof {
                lemma_topology_of_push_link(graph.nodes@, graph.links@.take(j as int), *link);
                assert(graph.links@.take(j as int).push(*link) =~= graph.links@.take(j + 1));
            }
            network.connect(&link.0, &link.1);
            j = j + 1;
        }
        assert(graph.links@.take(j as int) =~= graph.links@);
        network
    }

    /// Adds `node`, unless it is a node already.
    fn add_node(&mut self, node: &Node)
        requires
            old(self).wf(),
        ensures
            final(self).wf(),
            final(self)@ == (if old(self)@.dom().contains(node@) {
                old(self)@
            } else {
                old(self)@.insert(node@, Set::empty())
            }),
    {
        self.graph.add_node(node);
        proof {
            let g = old(self)@;
            let h = self@;
            assert forall|a: Seq<char>, b: Seq<char>| #[trigger] has_edge(h, a, b) implies has_edge(
                h,
                b,
                a,
            ) by {
                assert(has_edge(g, a, b));
            }
        }
    }

    /// Links `a` and `b`, on both sides.
    pub fn connect(&mut self, a: &Node, b: &Node)
        requires
            old(self).wf(),
        ensures
            final(self).wf(),
            final(self)@ == linked(old(self)@, a@, b@),
    {
        self.graph.insert_edge(a, b);
        self.graph.insert_edge(b, a);
        proof {
            lemma_linked_symmetric(old(self)@, a@, b@);
        }
    }

    /// Removes the link between `a` and `b`, on both sides.
    pub fn disconnect(&mut self, a: &Node, b: &Node)
        requires
            old(self).wf(),
        ensures
            final(self).wf(),
            final(self)@ == unlinked(old(self)@, a@, b@),
    {
        self.graph.remove_edge(a, b);
        self.graph.remove_edge(b, a);
        proof {
            lemma_unlinked_symmetric(old(self)@, a@, b@);
        }
    }

    /// The neighbours of `node`, where it is a node.
    pub fn neighbors(&self, node: &Node) -> (r: Option<&Vec<Node>>)
        requires
            self.wf(),
        ensures
            match r {
                Some(v) => self@.dom().contains(node@) && name_set(v@) == self@[node@],
                None => !self@.dom().contains(node@),
            },
    {
        self.graph.neighbors(node)
    }

    /// Applies `event` to the network and tells what it means.
    pub fn apply_event(&mut self, event: &Event) -> (effect: EventEffect)
        requires
            old(self).wf(),
        ensures
            final(self).wf(),
            final(self)@ == after_event(old(self)@, *event),
            effect == effect_of(old(self)@, *event),
            event.event_type == EventType::NodeUnreachable || event.event_type == EventType::Degraded
                ==> final(self)@ == old(self)@,
            event.event_type == EventType::LinkDown ==> !has_edge(
                final(self)@,
                event.node@,
                event.target@,
            ) && !has_edge(final(self)@, event.target@, event.node@),
            event.event_type == EventType::LinkUp ==> has_edge(
                final(self)@,
                event.node@,
                event.target@,
            ) && has_edge(final(self)@, event.target@, event.node@),
            event.event_type == EventType::LinkDown || event.event_type == EventType::LinkUp
                ==> effect == (EventEffect::TopologyChanged { event: *event }),
            event.event_type == EventType::NodeUnreachable ==> effect == (EventEffect::Observation {
                event: *event,
                reachable: reachable(old(self)@, event.node@, event.target@),
            }),
            event.event_type == EventType::Degraded ==> effect is Ignored,
    {
        match event.event_type {
            EventType::LinkDown => {
                self.disconnect(&event.node, &event.target);
                EventEffect::TopologyChanged { event: event.clone() }
            },
            EventType::LinkUp => {
                self.connect(&event.node, &event.target);
                EventEffect::TopologyChanged { event: event.clone() }
            },
            EventType::NodeUnreachable => {
                let reachable = self.can_reach(&event.node, &event.target);
                EventEffect::Observation { event: event.clone(), reachable }
            },
            EventType::Degraded => EventEffect::Ignored,
        }
    }

    /// The text that shows the network: one line per node, in increasing
    /// order of their names, each listing the node's neighbours.
    pub fn to_string(&self) -> (s: String)
        requires
            self.wf(),
        ensures
            s@ == render_topology(self@),
    {
        self.graph.render()
    }

    /// Whether `node` can reach `target` through the network's links.
    pub fn can_reach(&self, node: &Node, target: &Node) -> (r: bool)
        requires
            self.wf(),
        ensures
            r == reachable(self@, node@, target@),
    {
        self.graph.reaches(node, target)
    }
}

/// The effect of an event on a network.
#[derive(Debug)]
pub enum EventEffect {
    TopologyChanged { event: Event },
    Observation { event: Event, reachable: bool },
    Ignored,
}

impl PartialEq for EventEffect {
    fn eq(&self, other: &Self) -> (r: bool) {
        match (self, other) {
            (
                EventEffect::TopologyChanged { event: a },
                EventEffect::TopologyChanged { event: b },
            ) => a == b,
            (
                EventEffect::Observation { event: a, reachable: ra },
                EventEffect::Observation { event: b, reachable: rb },
            ) => a == b && *ra == *rb,
            (EventEffect::Ignored, EventEffect::Ignored) => true,
            _ => false,
        }
    }
}

impl PartialEqSpecImpl for EventEffect {
    open spec fn obeys_eq_spec() -> bool {
        true
    }

    open spec fn eq_spec(&self, other: &Self) -> bool {
        match (*self, *other) {
            (
                EventEffect::TopologyChanged { event: a },
                EventEffect::TopologyChanged { event: b },
            ) => same_event(a, b),
            (
                EventEffect::Observation { event: a, reachable: ra },
                EventEffect::Observation { event: b, reachable: rb },
            ) => same_event(a, b) && ra == rb,
            (EventEffect::Ignored, EventEffect::Ignored) => true,
            _ => false,
        }
    }
}

impl Clone for EventEffect {
    fn clone(&self) -> (r: Self)
        ensures
            r == *self,
    {
        match self {
            EventEffect::TopologyChanged { event } => EventEffect::TopologyChanged {
                event: event.clone(),
            },
            EventEffect::Observation { event, reachable } => EventEffect::Observation {
                event: event.clone(),
                reachable: *reachable,
            },
            EventEffect::Ignored => EventEffect::Ignored,
        }
    }
}

/// The evidence that an effect gives: a link that went down counts once
/// against the link and once against its target node; a report that a
/// node is unreachable counts against that node, twice where the topology
/// still lets the reporter reach it and once where it does not; nothing
/// else is evidence.
pub open spec fn evidence_of(effect: EventEffect) -> Option<Seq<ScoredEvidence>> {
    match effect {
        EventEffect::Ignored => None,
        EventEffect::TopologyChanged { event } => if event.event_type == EventType::LinkDown {
            Some(
                seq![
                    ScoredEvidence {
                        candidate: Candidate::Link(link_between(event.node, event.target)),
                        evidence: effect,
                        delta: 1,
                    },
                    ScoredEvidence {
                        candidate: Candidate::Node(event.target),
                        evidence: effect,
                        delta: 1,
                    },
                ],
            )
        } else {
            None
        },
        EventEffect::Observation { event, reachable } => Some(
            seq![
                ScoredEvidence {
                    candidate: Candidate::Node(event.target),
                    evidence: effect,
                    delta: if reachable {
                        2
                    } else {
                        1
                    },
                },
            ],
        ),
    }
}

/// A report that a node is unreachable weighs more where the topology
/// still reaches the node, contradicting the report, than where it agrees.
pub proof fn lemma_contradicted_report_weighs_more(event: Event)
    ensures
        evidence_of(EventEffect::Observation { event, reachable: true }).unwrap()[0].delta
            > evidence_of(EventEffect::Observation { event, reachable: false }).unwrap()[0].delta,
        evidence_of(EventEffect::Observation { event, reachable: true }).unwrap().len() == 1,
        evidence_of(EventEffect::Observation { event, reachable: true }).unwrap()[0].candidate
            == Candidate::Node(event.target),
        evidence_of(EventEffect::Observation { event, reachable: false }).unwrap().len() == 1,
        evidence_of(EventEffect::Observation { event, reachable: false }).unwrap()[0].candidate
            == Candidate::Node(event.target),
{
}

/// The text of an observation ends with whether the topology still
/// reaches the target: `true` where it does and `false` where it does not.
pub proof fn lemma_observation_text_tells_reachable(event: Event, date: Seq<char>, reachable: bool)
    ensures
        reachable ==> ends_with(effect_text(EventEffect::Observation { event, reachable }, date), "true"@),
        !reachable ==> ends_with(effect_text(EventEffect::Observation { event, reachable }, date), "false"@),
{
    let head = event_text(event, date) + "\n  Topology still reachable: "@;
    lemma_ends_with_last_part(head, "true"@);
    lemma_ends_with_last_part(head, "false"@);
}

/// The text of `effect`, its event's time written as `date`: the event,
/// and for an observation whether the topology still reaches the target;
/// an ignored event has no text.
pub open spec fn effect_text(effect: EventEffect, date: Seq<char>) -> Seq<char> {
    match effect {
        EventEffect::TopologyChanged { event } => event_text(event, date),
        EventEffect::Observation { event, reachable } => event_text(event, date)
            + "\n  Topology still reachable: "@ + if reachable {
            "true"@
        } else {
            "false"@
        },
        EventEffect::Ignored => Seq::empty(),
    }
}

impl EventEffect {
    /// The text of this effect, its event's time written as `date`.
    pub fn text(&self, date: &str) -> (s: String)
        ensures
            s@ == effect_text(*self, date@),
            match *self {
                EventEffect::Observation { reachable, .. } => if reachable {
                    ends_with(s@, "true"@)
                } else {
                    ends_with(s@, "false"@)
                },
                _ => true,
            },
    {
        match self {
            EventEffect::TopologyChanged { event } => event_line(event, date),
            EventEffect::Observation { event, reachable } => {
                proof {
                    lemma_observation_text_tells_reachable(*event, date@, *reachable);
                }
                let mut s = event_line(event, date);
                s.append("\n  Topology still reachable: ");
                if *reachable {
                    s.append("true");
                } else {
                    s.append("false");
                }
                s
            },
            EventEffect::Ignored => String::new(),
        }
    }

    /// The evidence this effect gives against candidate root causes.
    pub fn candidate(&self) -> (r: Option<Vec<ScoredEvidence>>)
        ensures
            match r {
                Some(v) => evidence_of(*self) == Some(v@),
                None => evidence_of(*self) is None,
            },
    {
        match self {
            EventEffect::Ignored => None,
            EventEffect::TopologyChanged { event } => self.on_topology(event),
            EventEffect::Observation { event, reachable } => self.on_observation(event, reachable),
        }
    }

    /// Scores a link that went down against the link and its target node.
    fn on_topology(&self, event: &Event) -> (r: Option<Vec<ScoredEvidence>>)
        requires
            *self == (EventEffect::TopologyChanged { event: *event }),
        ensures
            match r {
                Some(v) => evidence_of(*self) == Some(v@),
                None => evidence_of(*self) is None,
            },
            event.event_type == EventType::LinkDown <==> r is Some,
            event.event_type == EventType::LinkDown ==> {
                let v = r.unwrap()@;
                &&& v.len() == 2
                &&& v[0].candidate matches Candidate::Link(l) && lex_le(l.0@, l.1@) && ((l.0@
                    == event.node@ && l.1@ == event.target@) || (l.0@ == event.target@ && l.1@
                    == event.node@))
                &&& v[0].delta == 1
                &&& v[1].candidate == Candidate::Node(event.target)
                &&& v[1].delta == 1
            },
    {
        proof {
            lemma_lex_total(event.node@, event.target@);
        }
        if event.event_type == EventType::LinkDown {
            let l = Link::new(event.node.clone(), event.target.clone());
            let t = event.target.clone();
            let v = vec![
                ScoredEvidence::new(Candidate::Link(l), self.clone(), 1),
                ScoredEvidence::new(Candidate::Node(t), self.clone(), 1),
            ];
            proof {
                assert(v@ =~= evidence_of(*self).unwrap());
            }
            Some(v)
        } else {
            None
        }
    }

    /// Scores a report that a node is unreachable against that node, more
    /// heavily where the topology says it is still reachable.
    fn on_observation(&self, event: &Event, reachable: &bool) -> (r: Option<
        Vec<ScoredEvidence>,
    >)
        requires
            *self == (EventEffect::Observation { event: *event, reachable: *reachable }),
        ensures
            match r {
                Some(v) => evidence_of(*self) == Some(v@),
                None => evidence_of(*self) is None,
            },
    {
        let t = event.target.clone();
        let delta: u16 = if *reachable {
            2
        } else {
            1
        };
        let v = vec![ScoredEvidence::new(Candidate::Node(t), self.clone(), delta)];
        proof {
            assert(v@ =~= evidence_of(*self).unwrap());
        }
        Some(v)
    }
}

} // verus!
