//! A network that adds every node an event names before it applies the
//! event.

use vstd::prelude::*;
use vstd::std_specs::convert::FromSpecImpl;
use crate::analysis::{evidence_of, Candidate, EventEffect};
use crate::strings::{lemma_lex_total, lex_le};
use crate::rootcause::network::after_event;
use crate::rootcause::types::{Event, EventType, Graph, Node};
use crate::topology::{
    lemma_linked_symmetric, lemma_reachable_self, lemma_reachable_step, lemma_topology_of_empty, lemma_topology_of_push_link,
    lemma_topology_of_push_node, lemma_unlinked_symmetric, linked, name_set, reachable, render_topology, symmetric,
    topology_of, unlinked, has_edge, Adjacency, Topology,
};

verus! {

/// A network: its nodes and, for each, the set of nodes it is linked to.
/// Every node it meets in an event becomes one of its nodes.
#[derive(Debug)]
pub struct Network {
    pub graph: Topology,
}

impl Clone for Network {
    fn clone(&self) -> (r: Self)
        ensures
            self.wf() ==> r.wf() && r@ == self@,
    {
        Network { graph: self.graph.clone() }
    }
}

impl View for Network {
    type V = Adjacency;

    open spec fn view(&self) -> Adjacency {
        self.graph@
    }
}

/// `g` with `name` as a node, one without neighbours where it was none.
pub open spec fn with_node(g: Adjacency, name: Seq<char>) -> Adjacency {
    if g.dom().contains(name) {
        g
    } else {
        g.insert(name, Set::empty())
    }
}

/// The topology that `event` meets: the one given, with both nodes that
/// the event names added.
pub open spec fn met_by(g: Adjacency, event: Event) -> Adjacency {
    with_node(with_node(g, event.node@), event.target@)
}

/// What `event` means, given the topology `g` it meets.
pub open spec fn effect_of(g: Adjacency, event: Event) -> EventEffect {
    match event.event_type {
        EventType::LinkDown => EventEffect::TopologyChanged { event },
        EventType::LinkUp => EventEffect::TopologyChanged { event },
        EventType::NodeUnreachable => EventEffect::Observation {
            event,
            reachable: reachable(g, event.node@, event.target@),
        },
        EventType::Degraded => EventEffect::Ignored,
    }
}

proof fn lemma_with_node_symmetric(g: Adjacency, name: Seq<char>)
    requires
        symmetric(g),
    ensures
        symmetric(with_node(g, name)),
{
    let h = with_node(g, name);
    assert forall|a: Seq<char>, b: Seq<char>| #[trigger] has_edge(h, a, b) implies has_edge(
        h,
        b,
        a,
    ) by {
        assert(has_edge(g, a, b));
    }
}

/// Adding the ends of a link as nodes first changes nothing that linking
/// them does not.
proof fn lemma_linked_absorbs_nodes(g: Adjacency, a: Seq<char>, b: Seq<char>)
    ensures
        linked(with_node(with_node(g, a), b), a, b) == linked(g, a, b),
{
    assert(linked(with_node(with_node(g, a), b), a, b) =~= linked(g, a, b));
}

/// The topology an event meets has both nodes the event names, and the
/// links of the topology it was given, no more and no fewer.
pub proof fn lemma_met_by_keeps_links(g: Adjacency, event: Event, a: Seq<char>, b: Seq<char>)
    ensures
        met_by(g, event).dom() == g.dom().insert(event.node@).insert(event.target@),
        has_edge(met_by(g, event), a, b) == has_edge(g, a, b),
{
    assert(met_by(g, event).dom() =~= g.dom().insert(event.node@).insert(event.target@));
}

/// Whether a report that a node is unreachable is borne out is judged by
/// every walk through the links, not by direct links alone: where the
/// reporter is linked to some node that is linked to the target, the
/// topology still reaches the target and the report counts against it.
pub proof fn lemma_report_follows_links(g: Adjacency, event: Event, mid: Seq<char>)
    requires
        event.event_type == EventType::NodeUnreachable,
        has_edge(g, event.node@, mid),
        has_edge(g, mid, event.target@),
    ensures
        effect_of(g, event) matches EventEffect::Observation { event: e, reachable: r } && e == event
            && r,
        evidence_of(effect_of(g, event)).unwrap()[0].delta == 1,
{
    lemma_reachable_self(g, event.node@);
    lemma_reachable_step(g, event.node@, event.node@, mid);
    lemma_reachable_step(g, event.node@, mid, event.target@);
}

/// A report that a node is unreachable is an observation of that event,
/// which tells whether some walk through the links leads from the reporter
/// to the target.
pub proof fn lemma_report_is_observation(g: Adjacency, event: Event)
    requires
        event.event_type == EventType::NodeUnreachable,
    ensures
        effect_of(g, event) matches EventEffect::Observation { event: e, reachable: r } && e == event
            && (r <==> exists|p: Seq<Seq<char>>|
            p.len() > 0 && p[0] == event.node@ && p.last() == event.target@ && forall|i: int|
                0 <= i < p.len() - 1 ==> #[trigger] has_edge(g, p[i], p[i + 1])),
{
    let r = reachable(g, event.node@, event.target@);
    if r {
        let p = choose|p: Seq<Seq<char>>|
            #[trigger] crate::topology::is_walk(g, p) && p[0] == event.node@ && p.last() == event.target@;
        assert forall|i: int| 0 <= i < p.len() - 1 implies #[trigger] has_edge(g, p[i], p[i + 1]) by {
            assert(has_edge(g, p[i], p[i + 1]));
        }
    }
    if exists|p: Seq<Seq<char>>|
        p.len() > 0 && p[0] == event.node@ && p.last() == event.target@ && forall|i: int|
            0 <= i < p.len() - 1 ==> #[trigger] has_edge(g, p[i], p[i + 1]) {
        let p = choose|p: Seq<Seq<char>>|
            p.len() > 0 && p[0] == event.node@ && p.last() == event.target@ && forall|i: int|
                0 <= i < p.len() - 1 ==> #[trigger] has_edge(g, p[i], p[i + 1]);
        assert(crate::topology::is_walk(g, p));
    }
}

/// A link that goes down or comes up is a change of the topology carrying
/// that event; only a degraded node is ignored.
pub proof fn lemma_link_events_change_topology(g: Adjacency, event: Event)
    ensures
        event.event_type == EventType::LinkDown || event.event_type == EventType::LinkUp
            ==> effect_of(g, event) == (EventEffect::TopologyChanged { event }),
        effect_of(g, event) is Ignored <==> event.event_type == EventType::Degraded,
{
}

/// A link that goes down, reported by one of its ends, counts once against
/// the link, named with the end whose name comes first as its first end,
/// and once against the target node.
pub proof fn lemma_link_down_blames_link_and_target(g: Adjacency, event: Event)
    requires
        event.event_type == EventType::LinkDown,
    ensures
        evidence_of(effect_of(g, event)) is Some,
        evidence_of(effect_of(g, event)).unwrap().len() == 2,
        evidence_of(effect_of(g, event)).unwrap()[0].candidate matches Candidate::Link(l) && lex_le(
            l.0@,
            l.1@,
        ) && ((l.0@ == event.node@ && l.1@ == event.target@) || (l.0@ == event.target@ && l.1@
            == event.node@)),
        evidence_of(effect_of(g, event)).unwrap()[0].delta == 1,
        evidence_of(effect_of(g, event)).unwrap()[1].candidate == Candidate::Node(event.target),
        evidence_of(effect_of(g, event)).unwrap()[1].delta == 1,
{
    lemma_lex_total(event.node@, event.target@);
}

impl Network {
    /// The topology is well formed and records each link on both sides.
    pub open spec fn wf(&self) -> bool {
        self.graph.wf() && symmetric(self.graph@)
    }

    /// Adds the node named `node`, unless it is a node already, and gives
    /// the node.
    fn add_node(&mut self, node: &str) -> (r: Node)
        requires
            old(self).wf(),
        ensures
            final(self).wf(),
            final(self)@ == with_node(old(self)@, node@),
            r@ == node@,
    {
        let n = Node(String::from_str(node));
        self.graph.add_node(&n);
        proof {
            lemma_with_node_symmetric(old(self)@, node@);
        }
        n
    }

    /// Links `a` and `b`, on both sides.
    pub fn connect(&mut self, a: &Node, b: &Node)
        requires
            old(self).wf(),
        ensures
            final(self).wf(),
            final(self)@ == linked(old(self)@, a@, b@),
    {
        self.graph.insert_edge(a, b);
        self.graph.insert_edge(b, a);
        proof {
            lemma_linked_symmetric(old(self)@, a@, b@);
        }
    }

    /// Removes the link between `a` and `b`, on both sides.
    pub fn disconnect(&mut self, a: &Node, b: &Node)
        requires
            old(self).wf(),
        ensures
            final(self).wf(),
            final(self)@ == unlinked(old(self)@, a@, b@),
    {
        self.graph.remove_edge(a, b);
        self.graph.remove_edge(b, a);
        proof {
            lemma_unlinked_symmetric(old(self)@, a@, b@);
        }
    }

    /// The neighbours of `node`, where it is a node.
    pub fn neighbors(&self, node: &Node) -> (r: Option<&Vec<Node>>)
        requires
            self.wf(),
        ensures
            match r {
                Some(v) => self@.dom().contains(node@) && name_set(v@) == self@[node@],
                None => !self@.dom().contains(node@),
            },
    {
        self.graph.neighbors(node)
    }

    /// Adds both nodes that `event` names, applies the event to the
    /// network and tells what it means.
    pub fn apply_event(&mut self, event: &Event) -> (effect: EventEffect)
        requires
            old(self).wf(),
        ensures
            final(self).wf(),
            final(self)@ == after_event(met_by(old(self)@, *event), *event),
            effect == effect_of(met_by(old(self)@, *event), *event),
            final(self)@.dom() == old(self)@.dom().insert(event.node@).insert(event.target@),
            event.event_type == EventType::NodeUnreachable || event.event_type == EventType::Degraded
                ==> forall|a: Seq<char>, b: Seq<char>|
                #![trigger has_edge(final(self)@, a, b)]
                has_edge(final(self)@, a, b) == has_edge(old(self)@, a, b),
            event.event_type == EventType::LinkDown ==> !has_edge(
                final(self)@,
                event.node@,
                event.target@,
            ) && !has_edge(final(self)@, event.target@, event.node@),
            event.event_type == EventType::LinkUp ==> has_edge(
                final(self)@,
                event.node@,
                event.target@,
            ) && has_edge(final(self)@, event.target@, event.node@),
            event.event_type == EventType::LinkDown || event.event_type == EventType::LinkUp
                ==> effect == (EventEffect::TopologyChanged { event: *event }),
            event.event_type == EventType::NodeUnreachable ==> effect == (EventEffect::Observation {
                event: *event,
                reachable: reachable(final(self)@, event.node@, event.target@),
            }),
            event.event_type == EventType::Degraded ==> effect is Ignored,
    {
        proof {
            assert forall|a: Seq<char>, b: Seq<char>|
                #![trigger has_edge(met_by(old(self)@, *event), a, b)]
                has_edge(met_by(old(self)@, *event), a, b) == has_edge(old(self)@, a, b) by {
                lemma_met_by_keeps_links(old(self)@, *event, a, b);
            }
            lemma_met_by_keeps_links(old(self)@, *event, event.node@, event.target@);
        }
        let node = &self.add_node(event.node.0.as_str());
        let target = &self.add_node(event.target.0.as_str());
        match event.event_type {
            EventType::LinkDown => {
                self.disconnect(node, target);
                EventEffect::TopologyChanged { event: event.clone() }
            },
            EventType::LinkUp => {
                self.connect(node, target);
                EventEffect::TopologyChanged { event: event.clone() }
            },
            EventType::NodeUnreachable => {
                let reachable = self.can_reach(node, target);
                EventEffect::Observation { event: event.clone(), reachable }
            },
            EventType::Degraded => EventEffect::Ignored,
        }
    }

    /// The text that shows the network: one line per node, in increasing
    /// order of their names, each listing the node's neighbours.
    pub fn to_string(&self) -> (s: String)
        requires
            self.wf(),
        ensures
            s@ == render_topology(self@),
    {
        self.graph.render()
    }

    /// Whether `node` can reach `target` through the network's links.
    pub fn can_reach(&self, node: &Node, target: &Node) -> (r: bool)
        requires
            self.wf(),
        ensures
            r == reachable(self@, node@, target@),
    {
        self.graph.reaches(node, target)
    }
}

impl From<Graph> for Network {
    /// The network of `graph`: its nodes, and both ends of each link.
    fn from(graph: Graph) -> (network: Self)
        ensures
            network.wf(),
            network@ == topology_of(graph.nodes@, graph.links@),
    {
        let mut network = Network { graph: Topology::new() };
        proof {
            lemma_topology_of_empty();
        }
        let mut i: usize = 0;
        while i < graph.nodes.len()
            invariant
                i <= graph.nodes@.len(),
                network.wf(),
                network@ == topology_of(graph.nodes@.take(i as int), Seq::empty()),
            decreases graph.nodes@.len() - i,
        {
            proof {
                lemma_topology_of_push_node(graph.nodes@.take(i as int), graph.nodes@[i as int]);
                assert(graph.nodes@.take(i as int).push(graph.nodes@[i as int]) =~= graph.nodes@.take(
                    i + 1,
                ));
            }
            let _ = network.add_node(graph.nodes[i].0.as_str());
            i = i + 1;
        }
        assert(graph.nodes@.take(i as int) =~= graph.nodes@);
        assert(graph.links@.take(0) =~= Seq::empty());
        let mut j: usize = 0;
        while j < graph.links.len()
            invariant
                j <= graph.links@.len(),
                network.wf(),
                network@ == topology_of(graph.nodes@, graph.links@.take(j as int)),
            decreases graph.links@.len() - j,
        {
            let link = &graph.links[j];
            proof {
                lemma_topology_of_push_link(graph.nodes@, graph.links@.take(j as int), *link);
                assert(graph.links@.take(j as int).push(*link) =~= graph.links@.take(j + 1));
            }
            let a = network.add_node(link.0.0.as_str());
            let b = network.add_node(link.1.0.as_str());
            proof {
                lemma_linked_absorbs_nodes(
                    topology_of(graph.nodes@, graph.links@.take(j as int)),
                    a@,
                    b@,
                );
            }
            network.connect(&a, &b);
            j = j + 1;
        }
        assert(graph.links@.take(j as int) =~= graph.links@);
        network
    }
}

/// `from` is described by the `ensures` of its own implementation, over
/// the view of the network it builds; no spec function names the built
/// value itself, whose entries come in the order in which they were added.
impl FromSpecImpl<Graph> for Network {
    open spec fn obeys_from_spec() -> bool {
        false
    }

    open spec fn from_spec(graph: Graph) -> Network {
        arbitrary()
    }
}

} // verus!
