//! The adjacency structure of a network: every node with the set of the
//! nodes it is linked to, and the search for a path between two nodes.

use vstd::prelude::*;
use crate::rootcause::types::{lemma_node_text_injective, node_text, Link, Node};
use crate::strings::{
    concat, is_listing, join, join_strings, lemma_is_the_listing, listing, sort_strings, views,
};

verus! {

/// A topology as a mathematical object: each node's name mapped to the
/// names of its neighbours.
pub type Adjacency = Map<Seq<char>, Set<Seq<char>>>;

/// Some node of `s` has the name `x`.
pub open spec fn has_name(s: Seq<Node>, x: Seq<char>) -> bool {
    exists|j: int| 0 <= j < s.len() && #[trigger] s[j]@ == x
}

/// The names of the nodes of `s`.
pub open spec fn name_set(s: Seq<Node>) -> Set<Seq<char>> {
    Set::new(|x: Seq<char>| has_name(s, x))
}

/// No two nodes of `s` share a name.
pub open spec fn distinct_names(s: Seq<Node>) -> bool {
    forall|i: int, j: int|
        0 <= i < s.len() && 0 <= j < s.len() && i != j ==> #[trigger] s[i]@ != #[trigger] s[j]@
}

/// The neighbours of `a` in `g`, none where `a` is not a node of `g`.
pub open spec fn neighbours_of(g: Adjacency, a: Seq<char>) -> Set<Seq<char>> {
    if g.dom().contains(a) {
        g[a]
    } else {
        Set::empty()
    }
}

/// `g` records a link from `a` to `b`.
pub open spec fn has_edge(g: Adjacency, a: Seq<char>, b: Seq<char>) -> bool {
    g.dom().contains(a) && g[a].contains(b)
}

/// `p` is a walk through `g`: each name of it is linked to the next.
pub open spec fn is_walk(g: Adjacency, p: Seq<Seq<char>>) -> bool {
    &&& p.len() > 0
    &&& forall|i: int, j: int|
        0 <= i && j == i + 1 && j < p.len() ==> #[trigger] has_edge(g, p[i], p[j])
}

/// Some walk through `g` leads from `a` to `b`. Every name reaches itself,
/// whether or not it is a node of `g`.
pub open spec fn reachable(g: Adjacency, a: Seq<char>, b: Seq<char>) -> bool {
    exists|p: Seq<Seq<char>>| #[trigger] is_walk(g, p) && p[0] == a && p.last() == b
}

/// Every name reaches itself.
pub proof fn lemma_reachable_self(g: Adjacency, a: Seq<char>)
    ensures
        reachable(g, a, a),
{
    let p = seq![a];
    assert(is_walk(g, p));
}

/// A walk extended by one link is a walk.
pub proof fn lemma_reachable_step(g: Adjacency, a: Seq<char>, x: Seq<char>, y: Seq<char>)
    requires
        reachable(g, a, x),
        has_edge(g, x, y),
    ensures
        reachable(g, a, y),
{
    let p = choose|p: Seq<Seq<char>>| #[trigger] is_walk(g, p) && p[0] == a && p.last() == x;
    let q = p.push(y);
    assert forall|i: int, j: int|
        0 <= i && j == i + 1 && j < q.len() implies #[trigger] has_edge(g, q[i], q[j]) by {
        if j < p.len() {
            assert(has_edge(g, p[i], p[j]));
        }
    }
    assert(is_walk(g, q));
}

/// A walk that leaves a name other than its start begins at a node of `g`.
proof fn lemma_walk_starts_at_node(g: Adjacency, a: Seq<char>, b: Seq<char>)
    requires
        a != b,
        !g.dom().contains(a),
    ensures
        !reachable(g, a, b),
{
    if reachable(g, a, b) {
        let p = choose|p: Seq<Seq<char>>| #[trigger] is_walk(g, p) && p[0] == a && p.last() == b;
        assert(p.len() > 1);
        assert(has_edge(g, p[0], p[1]));
    }
}

/// A set `r` of names that holds the start of a walk and is closed under
/// the links of `g` (up to names that are no nodes), none of which leads
/// to `t`, keeps every walk from reaching `t`.
proof fn lemma_closed_walk(g: Adjacency, r: Set<Seq<char>>, t: Seq<char>, p: Seq<Seq<char>>, k: int)
    requires
        is_walk(g, p),
        r.contains(p[0]),
        !r.contains(t),
        forall|x: Seq<char>, y: Seq<char>|
            r.contains(x) && #[trigger] has_edge(g, x, y) ==> y != t && (g.dom().contains(y)
                ==> r.contains(y)),
        0 <= k < p.len(),
    ensures
        (k == 0 || g.dom().contains(p[k])) ==> r.contains(p[k]),
        p[k] != t,
    decreases k,
{
    if k > 0 {
        lemma_closed_walk(g, r, t, p, k - 1);
        assert(has_edge(g, p[k - 1], p[k]));
    }
}

/// `g` after a link between `a` and `b` is recorded on both sides, each
/// endpoint becoming a node where it is none.
pub open spec fn linked(g: Adjacency, a: Seq<char>, b: Seq<char>) -> Adjacency {
    let g1 = g.insert(a, neighbours_of(g, a).insert(b));
    g1.insert(b, neighbours_of(g1, b).insert(a))
}

/// `g` after the link between `a` and `b` is removed from each side that
/// is a node.
pub open spec fn unlinked(g: Adjacency, a: Seq<char>, b: Seq<char>) -> Adjacency {
    let g1 = if g.dom().contains(a) {
        g.insert(a, g[a].remove(b))
    } else {
        g
    };
    if g1.dom().contains(b) {
        g1.insert(b, g1[b].remove(a))
    } else {
        g1
    }
}

/// Every link of `g` is recorded on both of its sides.
pub open spec fn symmetric(g: Adjacency) -> bool {
    forall|a: Seq<char>, b: Seq<char>| #[trigger] has_edge(g, a, b) ==> has_edge(g, b, a)
}

/// Recording a link on both sides keeps a topology symmetric.
pub proof fn lemma_linked_symmetric(g: Adjacency, a: Seq<char>, b: Seq<char>)
    requires
        symmetric(g),
    ensures
        symmetric(linked(g, a, b)),
        has_edge(linked(g, a, b), a, b),
        has_edge(linked(g, a, b), b, a),
{
    let h = linked(g, a, b);
    assert forall|x: Seq<char>, y: Seq<char>| #[trigger] has_edge(h, x, y) implies has_edge(
        h,
        y,
        x,
    ) by {
        if !((x == a && y == b) || (x == b && y == a)) {
            assert(has_edge(g, x, y));
            assert(has_edge(g, y, x));
        }
    }
}

/// Removing a link from both sides keeps a topology symmetric.
pub proof fn lemma_unlinked_symmetric(g: Adjacency, a: Seq<char>, b: Seq<char>)
    requires
        symmetric(g),
    ensures
        symmetric(unlinked(g, a, b)),
        !has_edge(unlinked(g, a, b), a, b),
        !has_edge(unlinked(g, a, b), b, a),
{
    let h = unlinked(g, a, b);
    assert forall|x: Seq<char>, y: Seq<char>| #[trigger] has_edge(h, x, y) implies has_edge(
        h,
        y,
        x,
    ) by {
        assert(has_edge(g, x, y));
        assert(has_edge(g, y, x));
    }
}

/// Linking two nodes that were not linked and then unlinking them gives
/// back the topology.
pub proof fn lemma_unlinked_undoes_linked(g: Adjacency, a: Seq<char>, b: Seq<char>)
    requires
        symmetric(g),
        g.dom().contains(a),
        g.dom().contains(b),
        !has_edge(g, a, b),
    ensures
        unlinked(linked(g, a, b), a, b) == g,
{
    assert(!has_edge(g, b, a));
    let h = unlinked(linked(g, a, b), a, b);
    assert forall|x: Seq<char>| #[trigger] h.dom().contains(x) implies h[x] =~= g[x] by {}
    assert(h =~= g);
}

/// In a symmetric topology a walk can be walked back: `b` reaches `a`
/// whenever `a` reaches `b`.
pub proof fn lemma_reachable_symmetric(g: Adjacency, a: Seq<char>, b: Seq<char>)
    requires
        symmetric(g),
        reachable(g, a, b),
    ensures
        reachable(g, b, a),
{
    let p = choose|p: Seq<Seq<char>>| #[trigger] is_walk(g, p) && p[0] == a && p.last() == b;
    let q = p.reverse();
    assert forall|i: int, j: int|
        0 <= i && j == i + 1 && j < q.len() implies #[trigger] has_edge(g, q[i], q[j]) by {
        let pi = p.len() - 1 - j;
        let pj = p.len() - 1 - i;
        assert(has_edge(g, p[pi], p[pj]));
    }
    assert(is_walk(g, q));
}

/// Walks compose: if `a` reaches `b` and `b` reaches `c`, `a` reaches `c`.
pub proof fn lemma_reachable_transitive(g: Adjacency, a: Seq<char>, b: Seq<char>, c: Seq<char>)
    requires
        reachable(g, a, b),
        reachable(g, b, c),
    ensures
        reachable(g, a, c),
{
    let p = choose|p: Seq<Seq<char>>| #[trigger] is_walk(g, p) && p[0] == a && p.last() == b;
    let q = choose|q: Seq<Seq<char>>| #[trigger] is_walk(g, q) && q[0] == b && q.last() == c;
    let w = p + q.drop_first();
    assert forall|i: int, j: int|
        0 <= i && j == i + 1 && j < w.len() implies #[trigger] has_edge(g, w[i], w[j]) by {
        if j < p.len() {
            assert(has_edge(g, p[i], p[j]));
        } else {
            assert(has_edge(g, q[i - p.len() + 1], q[j - p.len() + 1]));
        }
    }
    assert(is_walk(g, w));
    if q.len() == 1 {
        assert(w.last() == p.last());
    }
}

/// The `j`-th of `links` has `x` as an end.
pub open spec fn link_ends(links: Seq<Link>, j: int, x: Seq<char>) -> bool {
    links[j].0@ == x || links[j].1@ == x
}

/// The `j`-th of `links` joins `x` and `y`, in either direction.
pub open spec fn link_joins(links: Seq<Link>, j: int, x: Seq<char>, y: Seq<char>) -> bool {
    (links[j].0@ == x && links[j].1@ == y) || (links[j].1@ == x && links[j].0@ == y)
}

/// The topology of the given nodes and links: its nodes are the given
/// nodes and the ends of every link, and each node neighbours the other
/// end of every link it is an end of.
pub open spec fn topology_of(nodes: Seq<Node>, links: Seq<Link>) -> Adjacency {
    Map::new(
        |x: Seq<char>|
            has_name(nodes, x) || exists|j: int|
                0 <= j < links.len() && #[trigger] link_ends(links, j, x),
        |x: Seq<char>|
            Set::new(
                |y: Seq<char>|
                    exists|j: int| 0 <= j < links.len() && #[trigger] link_joins(links, j, x, y),
            ),
    )
}

pub(crate) proof fn lemma_topology_of_empty()
    ensures
        topology_of(Seq::empty(), Seq::empty()) == Map::<Seq<char>, Set<Seq<char>>>::empty(),
{
    assert(topology_of(Seq::empty(), Seq::empty()) =~= Map::<Seq<char>, Set<Seq<char>>>::empty());
}

pub(crate) proof fn lemma_topology_of_push_node(nodes: Seq<Node>, n: Node)
    ensures
        topology_of(nodes.push(n), Seq::empty()) == (if topology_of(
            nodes,
            Seq::empty(),
        ).dom().contains(n@) {
            topology_of(nodes, Seq::empty())
        } else {
            topology_of(nodes, Seq::empty()).insert(n@, Set::empty())
        }),
{
    let g = topology_of(nodes, Seq::empty());
    let h = topology_of(nodes.push(n), Seq::empty());
    assert forall|x: Seq<char>| h.dom().contains(x) <==> g.dom().contains(x) || x == n@ by {
        if has_name(nodes, x) {
            let j = choose|j: int| 0 <= j < nodes.len() && #[trigger] nodes[j]@ == x;
            assert(nodes.push(n)[j] == nodes[j]);
        }
        if x == n@ {
            assert(nodes.push(n)[nodes.len() as int]@ == x);
        }
        if has_name(nodes.push(n), x) && x != n@ {
            let j = choose|j: int| 0 <= j < nodes.push(n).len() && #[trigger] nodes.push(n)[j]@ == x;
            assert(nodes[j]@ == x);
        }
    }
    assert forall|x: Seq<char>| h.dom().contains(x) implies h[x] =~= Set::empty() by {}
    if g.dom().contains(n@) {
        assert(h =~= g);
    } else {
        assert(h =~= g.insert(n@, Set::empty()));
    }
}

pub(crate) proof fn lemma_topology_of_push_link(nodes: Seq<Node>, links: Seq<Link>, l: Link)
    ensures
        topology_of(nodes, links.push(l)) == linked(topology_of(nodes, links), l.0@, l.1@),
{
    let g = topology_of(nodes, links);
    let ls = links.push(l);
    let h = topology_of(nodes, ls);
    let k = linked(g, l.0@, l.1@);
    let last = links.len() as int;
    assert(ls[last] == l);
    assert forall|j: int| 0 <= j < last implies ls[j] == links[j] by {}
    assert forall|x: Seq<char>| h.dom().contains(x) <==> k.dom().contains(x) by {
        if exists|j: int| 0 <= j < ls.len() && #[trigger] link_ends(ls, j, x) {
            let j = choose|j: int| 0 <= j < ls.len() && #[trigger] link_ends(ls, j, x);
            if j < last {
                assert(link_ends(links, j, x));
            }
        }
        if exists|j: int| 0 <= j < links.len() && #[trigger] link_ends(links, j, x) {
            let j = choose|j: int| 0 <= j < links.len() && #[trigger] link_ends(links, j, x);
            assert(link_ends(ls, j, x));
        }
        if x == l.0@ || x == l.1@ {
            assert(link_ends(ls, last, x));
        }
    }
    assert forall|x: Seq<char>| #[trigger] h.dom().contains(x) implies h[x] =~= k[x] by {
        assert forall|y: Seq<char>| h[x].contains(y) <==> k[x].contains(y) by {
            if exists|j: int| 0 <= j < links.len() && #[trigger] link_joins(links, j, x, y) {
                let j = choose|j: int| 0 <= j < links.len() && #[trigger] link_joins(links, j, x, y);
                assert(link_joins(ls, j, x, y));
                assert(link_ends(links, j, x));
                assert(g.dom().contains(x));
                assert(g[x].contains(y));
            }
            if h[x].contains(y) {
                let j = choose|j: int| 0 <= j < ls.len() && #[trigger] link_joins(ls, j, x, y);
                if j < last {
                    assert(link_joins(links, j, x, y));
                }
            }
            if (x == l.0@ && y == l.1@) || (x == l.1@ && y == l.0@) {
                assert(link_joins(ls, last, x, y));
            }
        }
    }
    assert(h =~= k);
}

/// The text forms of the neighbours of `x`.
pub open spec fn neighbour_texts(g: Adjacency, x: Seq<char>) -> Set<Seq<char>> {
    g[x].map(|y: Seq<char>| node_text(y))
}

/// The line that shows node `x`: its text form, then the text forms of
/// its neighbours in increasing order, comma separated, in brackets.
pub open spec fn render_line(g: Adjacency, x: Seq<char>) -> Seq<char> {
    node_text(x) + " -> ["@ + join(listing(neighbour_texts(g, x)), ", "@) + "]\n"@
}

/// The text that shows a topology: the line of each node, the nodes in
/// increasing order of their names.
pub open spec fn render_topology(g: Adjacency) -> Seq<char> {
    concat(listing(g.dom()).map_values(|x: Seq<char>| render_line(g, x)))
}

/// The number of entries of `v` that are still `false`.
spec fn count_false(v: Seq<bool>) -> nat
    decreases v.len(),
{
    if v.len() == 0 {
        0
    } else {
        count_false(v.drop_last()) + if v.last() {
            0nat
        } else {
            1nat
        }
    }
}

proof fn lemma_count_false_mark(v: Seq<bool>, j: int)
    requires
        0 <= j < v.len(),
        !v[j],
    ensures
        count_false(v.update(j, true)) + 1 == count_false(v),
    decreases v.len(),
{
    if j == v.len() - 1 {
        assert(v.update(j, true).drop_last() =~= v.drop_last());
    } else {
        assert(v.update(j, true).drop_last() =~= v.drop_last().update(j, true));
        lemma_count_false_mark(v.drop_last(), j);
    }
}

/// The nodes of a network with, for each, the list of its neighbours.
#[derive(Debug)]
pub struct Topology {
    nodes: Vec<Node>,
    neighbors: Vec<Vec<Node>>,
}

impl View for Topology {
    type V = Adjacency;

    closed spec fn view(&self) -> Adjacency {
        Map::new(
            |x: Seq<char>| has_name(self.nodes@, x),
            |x: Seq<char>| name_set(self.neighbors@[self.index_of(x)]@),
        )
    }
}

impl Clone for Topology {
    fn clone(&self) -> (r: Self)
        ensures
            self.wf() ==> r.wf() && r@ == self@,
    {
        let nodes = self.nodes.clone();
        let neighbors = self.neighbors.clone();
        let r = Topology { nodes, neighbors };
        proof {
            assert(r.nodes@ =~= self.nodes@);
            assert forall|i: int| 0 <= i < r.neighbors@.len() implies #[trigger] r.neighbors@[i]@
                == self.neighbors@[i]@ by {
                assert(r.neighbors@[i]@ =~= self.neighbors@[i]@);
            }
            assert forall|x: Seq<char>|
                self.wf() && #[trigger] r@.dom().contains(x) implies r@[x] == self@[x] by {
                assert(r.index_of(x) == self.index_of(x));
                let k = self.index_of(x);
                assert(has_name(self.nodes@, x));
                assert(0 <= k < self.nodes@.len());
                assert(r.neighbors@[k]@ == self.neighbors@[k]@);
            }
            if self.wf() {
                assert(r@ =~= self@);
            }
        }
        r
    }
}

/// Finds the node of `list` named `name`.
fn find(list: &Vec<Node>, name: &Node) -> (r: Option<usize>)
    ensures
        match r {
            Some(j) => j < list@.len() && list@[j as int]@ == name@,
            None => !has_name(list@, name@),
        },
{
    let mut j: usize = 0;
    while j < list.len()
        invariant
            j <= list@.len(),
            forall|k: int| 0 <= k < j ==> #[trigger] list@[k]@ != name@,
        decreases list@.len() - j,
    {
        if list[j].0 == name.0 {
            return Some(j);
        }
        j = j + 1;
    }
    None
}

impl Topology {
    /// Each node has one entry, and each neighbour list names a node once.
    pub closed spec fn wf(&self) -> bool {
        &&& self.nodes@.len() == self.neighbors@.len()
        &&& distinct_names(self.nodes@)
        &&& forall|i: int|
            0 <= i < self.neighbors@.len() ==> distinct_names(#[trigger] self.neighbors@[i]@)
    }

    spec fn index_of(&self, x: Seq<char>) -> int {
        choose|i: int| 0 <= i < self.nodes@.len() && self.nodes@[i]@ == x
    }

    proof fn lemma_entry(&self, i: int)
        requires
            self.wf(),
            0 <= i < self.nodes@.len(),
        ensures
            self@.dom().contains(self.nodes@[i]@),
            self@[self.nodes@[i]@] == name_set(self.neighbors@[i]@),
    {
        let x = self.nodes@[i]@;
        assert(has_name(self.nodes@, x));
        let k = self.index_of(x);
        assert(0 <= k < self.nodes@.len() && self.nodes@[k]@ == x);
        assert(k == i);
    }

    proof fn lemma_dom(&self, x: Seq<char>)
        ensures
            self@.dom().contains(x) == has_name(self.nodes@, x),
    {
    }

    /// The view is the map whose keys are the names of the nodes and whose
    /// entries are the names in their neighbour lists.
    proof fn lemma_view_is(&self, m: Adjacency)
        requires
            self.wf(),
            forall|x: Seq<char>| #[trigger] m.dom().contains(x) <==> has_name(self.nodes@, x),
            forall|i: int|
                0 <= i < self.nodes@.len() ==> m[#[trigger] self.nodes@[i]@] == name_set(
                    self.neighbors@[i]@,
                ),
        ensures
            self@ == m,
    {
        assert forall|x: Seq<char>| #[trigger] m.dom().contains(x) implies self@[x] == m[x] by {
            let i = choose|i: int| 0 <= i < self.nodes@.len() && #[trigger] self.nodes@[i]@ == x;
            self.lemma_entry(i);
        }
        assert forall|x: Seq<char>| #[trigger] self@.dom().contains(x) <==> m.dom().contains(x) by {
            self.lemma_dom(x);
        }
        assert(self@ =~= m);
    }

    /// An empty topology.
    pub fn new() -> (t: Self)
        ensures
            t.wf(),
            t@ == Map::<Seq<char>, Set<Seq<char>>>::empty(),
    {
        let t = Topology { nodes: Vec::new(), neighbors: Vec::new() };
        proof {
            t.lemma_view_is(Map::empty());
        }
        t
    }

    /// Whether the topology has no node.
    pub fn is_empty(&self) -> (r: bool)
        requires
            self.wf(),
        ensures
            r == (self@ == Map::<Seq<char>, Set<Seq<char>>>::empty()),
    {
        proof {
            if self.nodes@.len() > 0 {
                self.lemma_entry(0);
                assert(!(self@ =~= Map::<Seq<char>, Set<Seq<char>>>::empty()));
            } else {
                self.lemma_view_is(Map::empty());
            }
        }
        self.nodes.len() == 0
    }

    /// The position of the node named `name` among the nodes.
    fn position(&self, name: &Node) -> (r: Option<usize>)
        requires
            self.wf(),
        ensures
            match r {
                Some(i) => i < self.nodes@.len() && self.nodes@[i as int]@ == name@,
                None => !self@.dom().contains(name@),
            },
    {
        find(&self.nodes, name)
    }

    /// Whether `name` is a node of the topology.
    pub fn contains(&self, name: &Node) -> (r: bool)
        requires
            self.wf(),
        ensures
            r == self@.dom().contains(name@),
    {
        match self.position(name) {
            Some(i) => {
                proof {
                    self.lemma_entry(i as int);
                }
                true
            },
            None => false,
        }
    }

    /// Adds `node` with no neighbours, unless it is a node already.
    pub fn add_node(&mut self, node: &Node)
        requires
            old(self).wf(),
        ensures
            final(self).wf(),
            final(self)@ == (if old(self)@.dom().contains(node@) {
                old(self)@
            } else {
                old(self)@.insert(node@, Set::empty())
            }),
    {
        self.ensure_node(node);
    }

    /// Adds `node` as `add_node` does, and gives its position.
    fn ensure_node(&mut self, node: &Node) -> (i: usize)
        requires
            old(self).wf(),
        ensures
            final(self).wf(),
            final(self)@ == (if old(self)@.dom().contains(node@) {
                old(self)@
            } else {
                old(self)@.insert(node@, Set::empty())
            }),
            i < final(self).nodes@.len(),
            final(self).nodes@[i as int]@ == node@,
    {
        let ghost before = *self;
        match self.position(node) {
            Some(i) => {
                proof {
                    before.lemma_entry(i as int);
                }
                i
            },
            None => {
                self.nodes.push(node.clone());
                self.neighbors.push(Vec::new());
                proof {
                    let m = before@.insert(node@, Set::empty());
                    assert forall|x: Seq<char>| #[trigger]
                        m.dom().contains(x) <==> has_name(self.nodes@, x) by {
                        before.lemma_dom(x);
                        if has_name(before.nodes@, x) {
                            let j = choose|j: int|
                                0 <= j < before.nodes@.len() && #[trigger] before.nodes@[j]@ == x;
                            assert(self.nodes@[j] == before.nodes@[j]);
                        }
                        if x == node@ {
                            assert(self.nodes@[before.nodes@.len() as int]@ == x);
                        }
                        if has_name(self.nodes@, x) && x != node@ {
                            let j = choose|j: int|
                                0 <= j < self.nodes@.len() && #[trigger] self.nodes@[j]@ == x;
                            assert(before.nodes@[j]@ == x);
                        }
                    }
                    assert forall|i: int| 0 <= i < self.nodes@.len() implies m[
                        #[trigger] self.nodes@[i]@] == name_set(self.neighbors@[i]@) by {
                        if i < before.nodes@.len() {
                            before.lemma_entry(i);
                            assert(self.nodes@[i]@ != node@);
                        } else {
                            assert(name_set(self.neighbors@[i]@) =~= Set::empty());
                        }
                    }
                    assert forall|i: int|
                        0 <= i < self.neighbors@.len() implies distinct_names(
                        #[trigger] self.neighbors@[i]@,
                    ) by {
                        if i < before.neighbors@.len() {
                            assert(self.neighbors@[i] == before.neighbors@[i]);
                        }
                    }
                    assert(distinct_names(self.nodes@)) by {
                        assert forall|i: int, j: int|
                            0 <= i < self.nodes@.len() && 0 <= j < self.nodes@.len() && i
                                != j implies #[trigger] self.nodes@[i]@ != #[trigger] self.nodes@[j]@ by {
                            let n = before.nodes@.len() as int;
                            if i == n {
                                assert(before.nodes@[j]@ != node@);
                            } else if j == n {
                                assert(before.nodes@[i]@ != node@);
                            } else {
                                assert(before.nodes@[i]@ != before.nodes@[j]@);
                            }
                        }
                    }
                    self.lemma_view_is(m);
                }
                self.nodes.len() - 1
            },
        }
    }

    /// Records a link from `a` to `b` in the neighbours of `a`, adding `a`
    /// as a node first where it is none.
    pub fn insert_edge(&mut self, a: &Node, b: &Node)
        requires
            old(self).wf(),
        ensures
            final(self).wf(),
            final(self)@ == old(self)@.insert(a@, neighbours_of(old(self)@, a@).insert(b@)),
    {
        let i = self.ensure_node(a);
        let ghost mid = *self;
        proof {
            mid.lemma_entry(i as int);
            assert(neighbours_of(old(self)@, a@) == mid@[a@]);
        }
        match find(&self.neighbors[i], b) {
            Some(_) => {
                proof {
                    assert(has_name(mid.neighbors@[i as int]@, b@));
                    assert(mid@[a@].insert(b@) =~= mid@[a@]);
                    assert(mid@.insert(a@, mid@[a@]) =~= mid@);
                }
            },
            None => {
                self.neighbors[i].push(b.clone());
                proof {
                    let l = mid.neighbors@[i as int]@;
                    let nl = self.neighbors@[i as int]@;
                    assert(nl == l.push(*b));
                    assert(self.nodes@ == mid.nodes@);
                    assert forall|j: int|
                        0 <= j < self.neighbors@.len() implies distinct_names(
                        #[trigger] self.neighbors@[j]@,
                    ) by {
                        if j != i {
                            assert(self.neighbors@[j] == mid.neighbors@[j]);
                        } else {
                            assert forall|p: int, q: int|
                                0 <= p < nl.len() && 0 <= q < nl.len() && p
                                    != q implies #[trigger] nl[p]@ != #[trigger] nl[q]@ by {
                                if p < l.len() && q < l.len() {
                                    assert(l[p]@ != l[q]@);
                                } else if p < l.len() {
                                    assert(l[p]@ != b@);
                                } else {
                                    assert(l[q]@ != b@);
                                }
                            }
                        }
                    }
                    assert(name_set(nl) =~= name_set(l).insert(b@)) by {
                        assert forall|x: Seq<char>| name_set(nl).contains(x) <==> name_set(
                            l,
                        ).insert(b@).contains(x) by {
                            if has_name(l, x) {
                                let j = choose|j: int| 0 <= j < l.len() && #[trigger] l[j]@ == x;
                                assert(nl[j] == l[j]);
                            }
                            if x == b@ {
                                assert(nl[l.len() as int]@ == x);
                            }
                            if has_name(nl, x) && x != b@ {
                                let j = choose|j: int| 0 <= j < nl.len() && #[trigger] nl[j]@ == x;
                                assert(l[j]@ == x);
                            }
                        }
                    }
                    let m = mid@.insert(a@, mid@[a@].insert(b@));
                    assert forall|x: Seq<char>| #[trigger]
                        m.dom().contains(x) <==> has_name(self.nodes@, x) by {
                        mid.lemma_dom(x);
                    }
                    assert forall|j: int| 0 <= j < self.nodes@.len() implies m[
                        #[trigger] self.nodes@[j]@] == name_set(self.neighbors@[j]@) by {
                        mid.lemma_entry(j);
                        if j != i {
                            assert(self.nodes@[j]@ != self.nodes@[i as int]@);
                        }
                    }
                    self.lemma_view_is(m);
                }
            },
        }
    }

    /// Removes `b` from the neighbours of `a`, where `a` is a node.
    pub fn remove_edge(&mut self, a: &Node, b: &Node)
        requires
            old(self).wf(),
        ensures
            final(self).wf(),
            final(self)@ == (if old(self)@.dom().contains(a@) {
                old(self)@.insert(a@, old(self)@[a@].remove(b@))
            } else {
                old(self)@
            }),
    {
        let ghost before = *self;
        match self.position(a) {
            None => {},
            Some(i) => {
                proof {
                    before.lemma_entry(i as int);
                }
                match find(&self.neighbors[i], b) {
                    None => {
                        proof {
                            assert(before@[a@].remove(b@) =~= before@[a@]);
                            assert(before@.insert(a@, before@[a@]) =~= before@);
                        }
                    },
                    Some(k) => {
                        let _ = self.neighbors[i].remove(k);
                        proof {
                            let l = before.neighbors@[i as int]@;
                            let nl = self.neighbors@[i as int]@;
                            assert(nl == l.remove(k as int));
                            l.remove_ensures(k as int);
                            assert(self.nodes@ == before.nodes@);
                            assert forall|j: int|
                                0 <= j < self.neighbors@.len() implies distinct_names(
                                #[trigger] self.neighbors@[j]@,
                            ) by {
                                if j != i {
                                    assert(self.neighbors@[j] == before.neighbors@[j]);
                                } else {
                                    assert forall|p: int, q: int|
                                        0 <= p < nl.len() && 0 <= q < nl.len() && p
                                            != q implies #[trigger] nl[p]@ != #[trigger] nl[q]@ by {
                                        let pp = if p < k { p } else { p + 1 };
                                        let qq = if q < k { q } else { q + 1 };
                                        assert(nl[p] == l[pp]);
                                        assert(nl[q] == l[qq]);
                                        assert(l[pp]@ != l[qq]@);
                                    }
                                }
                            }
                            assert(name_set(nl) =~= name_set(l).remove(b@)) by {
                                assert forall|x: Seq<char>| name_set(nl).contains(x) <==> name_set(
                                    l,
                                ).remove(b@).contains(x) by {
                                    if has_name(nl, x) {
                                        let j = choose|j: int|
                                            0 <= j < nl.len() && #[trigger] nl[j]@ == x;
                                        let jj = if j < k { j } else { j + 1 };
                                        assert(nl[j] == l[jj]);
                                        assert(l[jj]@ != l[k as int]@);
                                    }
                                    if has_name(l, x) && x != b@ {
                                        let j = choose|j: int| 0 <= j < l.len() && #[trigger] l[j]@ == x;
                                        assert(j != k);
                                        if j < k {
                                            assert(nl[j] == l[j]);
                                        } else {
                                            assert(nl[j - 1] == l[j]);
                                        }
                                    }
                                }
                            }
                            let m = before@.insert(a@, before@[a@].remove(b@));
                            assert forall|x: Seq<char>| #[trigger]
                                m.dom().contains(x) <==> has_name(self.nodes@, x) by {
                                before.lemma_dom(x);
                            }
                            assert forall|j: int| 0 <= j < self.nodes@.len() implies m[
                                #[trigger] self.nodes@[j]@] == name_set(self.neighbors@[j]@) by {
                                before.lemma_entry(j);
                                if j != i {
                                    assert(self.nodes@[j]@ != self.nodes@[i as int]@);
                                }
                            }
                            self.lemma_view_is(m);
                        }
                    },
                }
            },
        }
    }

    /// The neighbours of `node`, where it is a node.
    pub fn neighbors(&self, node: &Node) -> (r: Option<&Vec<Node>>)
        requires
            self.wf(),
        ensures
            match r {
                Some(v) => self@.dom().contains(node@) && name_set(v@) == self@[node@]
                    && distinct_names(v@),
                None => !self@.dom().contains(node@),
            },
    {
        match self.position(node) {
            Some(i) => {
                proof {
                    self.lemma_entry(i as int);
                }
                Some(&self.neighbors[i])
            },
            None => None,
        }
    }

    /// The name `y` is not `t`, and where it names a node that node is
    /// marked in `visited`.
    spec fn settled(&self, visited: Seq<bool>, y: Seq<char>, t: Seq<char>) -> bool {
        &&& y != t
        &&& forall|k: int|
            0 <= k < self.nodes@.len() && #[trigger] self.nodes@[k]@ == y ==> visited[k]
    }

    /// Every neighbour of the node at `k` is settled.
    spec fn expanded(&self, visited: Seq<bool>, k: int, t: Seq<char>) -> bool {
        forall|j: int|
            0 <= j < self.neighbors@[k]@.len() ==> #[trigger] self.settled(
                visited,
                self.neighbors@[k]@[j]@,
                t,
            )
    }

    proof fn lemma_expanded_grows(&self, v1: Seq<bool>, v2: Seq<bool>, k: int, t: Seq<char>)
        requires
            0 <= k < self.neighbors@.len(),
            v1.len() == v2.len(),
            v1.len() == self.nodes@.len(),
            forall|i: int| 0 <= i < v1.len() && v1[i] ==> v2[i],
            self.expanded(v1, k, t),
        ensures
            self.expanded(v2, k, t),
    {
        assert forall|j: int| 0 <= j < self.neighbors@[k]@.len() implies #[trigger] self.settled(
            v2,
            self.neighbors@[k]@[j]@,
            t,
        ) by {
            let y = self.neighbors@[k]@[j]@;
            assert(self.settled(v1, y, t));
            assert forall|i: int|
                0 <= i < self.nodes@.len() && #[trigger] self.nodes@[i]@ == y implies v2[i] by {
                assert(v1[i]);
            }
        }
    }

    /// Whether some walk leads from `source` to `target`: a depth-first
    /// search that keeps the nodes still to expand on a stack and marks
    /// every node it has put there.
    pub fn reaches(&self, source: &Node, target: &Node) -> (r: bool)
        requires
            self.wf(),
        ensures
            r == reachable(self@, source@, target@),
    {
        let ghost g = self@;
        if source.0 == target.0 {
            proof {
                lemma_reachable_self(g, source@);
            }
            return true;
        }
        let start = match self.position(source) {
            Some(i) => i,
            None => {
                proof {
                    lemma_walk_starts_at_node(g, source@, target@);
                }
                return false;
            },
        };
        let n = self.nodes.len();
        let mut visited: Vec<bool> = Vec::new();
        while visited.len() < n
            invariant
                visited@.len() <= n,
                n == self.nodes@.len(),
                forall|k: int| 0 <= k < visited@.len() ==> !visited@[k],
            decreases n - visited@.len(),
        {
            visited.push(false);
        }
        proof {
            lemma_reachable_self(g, source@);
            lemma_count_false_mark(visited@, start as int);
        }
        visited.set(start, true);
        let mut stack: Vec<usize> = Vec::new();
        stack.push(start);
        proof {
            assert(stack@[0] == start);
            assert forall|k: int| 0 <= k < n && visited@[k] implies k == start by {}
        }
        while stack.len() > 0
            invariant
                self.wf(),
                g == self@,
                n == self.nodes@.len(),
                visited@.len() == n,
                source@ != target@,
                start < n,
                visited@[start as int],
                self.nodes@[start as int]@ == source@,
                forall|k: int|
                    0 <= k < n && #[trigger] visited@[k] ==> reachable(g, source@, self.nodes@[k]@)
                        && self.nodes@[k]@ != target@,
                forall|s: int|
                    0 <= s < stack@.len() ==> #[trigger] stack@[s] < n && visited@[stack@[s] as int],
                forall|k: int|
                    0 <= k < n && visited@[k] && !stack@.contains(k as usize)
                        ==> #[trigger] self.expanded(visited@, k, target@),
            decreases count_false(visited@), stack@.len(),
        {
            let ghost count0 = count_false(visited@);
            let ghost len0 = stack@.len();
            let ghost st0 = stack@;
            let u = stack.pop().unwrap();
            let ghost s0 = stack@;
            proof {
                assert(st0 =~= s0.push(u));
                self.lemma_entry(u as int);
                assert forall|k: int|
                    0 <= k < n && visited@[k] && !stack@.contains(k as usize) && k
                        != u implies #[trigger] self.expanded(visited@, k, target@) by {
                    assert(!st0.contains(k as usize)) by {
                        if st0.contains(k as usize) {
                            let s = choose|s: int| 0 <= s < st0.len() && st0[s] == k as usize;
                            if s < s0.len() {
                                assert(s0[s] == k as usize);
                            }
                        }
                    }
                }
            }
            let list = &self.neighbors[u];
            let mut m: usize = 0;
            while m < list.len()
                invariant
                    self.wf(),
                    g == self@,
                    n == self.nodes@.len(),
                    visited@.len() == n,
                    source@ != target@,
                    u < n,
                    visited@[u as int],
                    list@ == self.neighbors@[u as int]@,
                    m <= list@.len(),
                    start < n,
                    g[self.nodes@[u as int]@] == name_set(list@),
                    visited@[start as int],
                    self.nodes@[start as int]@ == source@,
                    forall|k: int|
                        0 <= k < n && #[trigger] visited@[k] ==> reachable(
                            g,
                            source@,
                            self.nodes@[k]@,
                        ) && self.nodes@[k]@ != target@,
                    forall|s: int|
                        0 <= s < stack@.len() ==> #[trigger] stack@[s] < n && visited@[stack@[s] as int],
                    forall|k: int|
                        0 <= k < n && visited@[k] && !stack@.contains(k as usize) && k != u
                            ==> #[trigger] self.expanded(visited@, k, target@),
                    forall|j: int|
                        0 <= j < m ==> #[trigger] self.settled(visited@, list@[j]@, target@),
                    stack@.len() >= s0.len(),
                    stack@.subrange(0, s0.len() as int) == s0,
                    count_false(visited@) + (stack@.len() - s0.len()) == count0,
                decreases list@.len() - m,
            {
                let ghost vm = visited@;
                let ghost sm = stack@;
                let y = &list[m];
                proof {
                    assert(has_name(list@, y@));
                    assert(has_edge(g, self.nodes@[u as int]@, y@));
                    lemma_reachable_step(g, source@, self.nodes@[u as int]@, y@);
                }
                if y.0 == target.0 {
                    return true;
                }
                match self.position(y) {
                    Some(k) => {
                        if !visited[k] {
                            proof {
                                lemma_count_false_mark(visited@, k as int);
                            }
                            visited.set(k, true);
                            stack.push(k);
                            proof {
                                assert forall|kk: int|
                                    0 <= kk < n && visited@[kk] && !stack@.contains(kk as usize)
                                        && kk != u implies #[trigger] self.expanded(
                                    visited@,
                                    kk,
                                    target@,
                                ) by {
                                    assert(stack@[stack@.len() - 1] == k);
                                    assert(kk != k);
                                    assert(!sm.contains(kk as usize)) by {
                                        if sm.contains(kk as usize) {
                                            let s = choose|s: int|
                                                0 <= s < sm.len() && sm[s] == kk as usize;
                                            assert(stack@[s] == kk as usize);
                                        }
                                    }
                                    self.lemma_expanded_grows(vm, visited@, kk, target@);
                                }
                                assert forall|j: int| 0 <= j < m + 1 implies #[trigger] self.settled(
                                    visited@,
                                    list@[j]@,
                                    target@,
                                ) by {
                                    if j < m {
                                        assert(self.settled(vm, list@[j]@, target@));
                                    } else {
                                        assert forall|kk: int|
                                            0 <= kk < self.nodes@.len() && #[trigger] self.nodes@[kk]@
                                                == list@[j]@ implies visited@[kk] by {
                                            if kk != k {
                                                assert(self.nodes@[kk]@ != self.nodes@[k as int]@);
                                            }
                                        }
                                    }
                                }
                                assert(stack@.subrange(0, s0.len() as int) =~= s0) by {
                                    assert(sm.subrange(0, s0.len() as int) == s0);
                                }
                            }
                        } else {
                            proof {
                                assert forall|kk: int|
                                    0 <= kk < self.nodes@.len() && #[trigger] self.nodes@[kk]@
                                        == list@[m as int]@ implies visited@[kk] by {
                                    if kk != k {
                                        assert(self.nodes@[kk]@ != self.nodes@[k as int]@);
                                    }
                                }
                                assert(self.settled(visited@, list@[m as int]@, target@));
                            }
                        }
                    },
                    None => {
                        proof {
                            assert forall|kk: int|
                                0 <= kk < self.nodes@.len() && #[trigger] self.nodes@[kk]@
                                    == list@[m as int]@ implies visited@[kk] by {
                                assert(has_name(self.nodes@, y@));
                            }
                            assert(self.settled(visited@, list@[m as int]@, target@));
                        }
                    },
                }
                m = m + 1;
            }
            proof {
                assert(self.expanded(visited@, u as int, target@));
                assert forall|k: int|
                    0 <= k < n && visited@[k] && !stack@.contains(k as usize) implies #[trigger] self.expanded(
                    visited@,
                    k,
                    target@,
                ) by {
                }
            }
        }
        proof {
            let rs = Set::new(
                |x: Seq<char>|
                    exists|k: int| 0 <= k < n && visited@[k] && #[trigger] self.nodes@[k]@ == x,
            );
            assert(rs.contains(source@)) by {
                assert(self.nodes@[start as int]@ == source@);
            }
            assert forall|x: Seq<char>, y: Seq<char>|
                rs.contains(x) && #[trigger] has_edge(g, x, y) implies y != target@ && (
                g.dom().contains(y) ==> rs.contains(y)) by {
                let k = choose|k: int| 0 <= k < n && visited@[k] && #[trigger] self.nodes@[k]@ == x;
                assert(!stack@.contains(k as usize));
                assert(self.expanded(visited@, k, target@));
                self.lemma_entry(k);
                let l = self.neighbors@[k]@;
                let j = choose|j: int| 0 <= j < l.len() && #[trigger] l[j]@ == y;
                assert(self.settled(visited@, l[j]@, target@));
                if g.dom().contains(y) {
                    self.lemma_dom(y);
                    let kk = choose|kk: int|
                        0 <= kk < self.nodes@.len() && #[trigger] self.nodes@[kk]@ == y;
                    assert(visited@[kk]);
                }
            }
            if reachable(g, source@, target@) {
                let p = choose|p: Seq<Seq<char>>|
                    #[trigger] is_walk(g, p) && p[0] == source@ && p.last() == target@;
                lemma_closed_walk(g, rs, target@, p, p.len() - 1);
            }
        }
        false
    }

    /// The line that shows the node at position `i`.
    fn render_entry(&self, i: usize) -> (r: String)
        requires
            self.wf(),
            i < self.nodes@.len(),
        ensures
            r@ == render_line(self@, self.nodes@[i as int]@),
    {
        let list = &self.neighbors[i];
        let ghost x = self.nodes@[i as int]@;
        let mut texts: Vec<String> = Vec::new();
        let mut m: usize = 0;
        while m < list.len()
            invariant
                m <= list@.len(),
                views(texts@) == list@.take(m as int).map_values(|n: Node| node_text(n@)),
            decreases list@.len() - m,
        {
            let ghost before = texts@;
            let t = list[m].to_string();
            texts.push(t);
            proof {
                assert(texts@ == before.push(t));
                assert(views(texts@) =~= views(before).push(t@));
                assert(list@.take(m + 1).map_values(|n: Node| node_text(n@)) =~= list@.take(
                    m as int,
                ).map_values(|n: Node| node_text(n@)).push(node_text(list@[m as int]@)));
            }
            m = m + 1;
        }
        proof {
            assert(list@.take(m as int) =~= list@);
            self.lemma_entry(i as int);
            assert(distinct_names(list@));
            assert forall|a: int, b: int| 0 <= a < b < texts@.len() implies #[trigger] texts@[a]@
                != #[trigger] texts@[b]@ by {
                assert(texts@[a]@ == views(texts@)[a]);
                assert(texts@[b]@ == views(texts@)[b]);
                if texts@[a]@ == texts@[b]@ {
                    lemma_node_text_injective(list@[a]@, list@[b]@);
                }
            }
        }
        let sorted = sort_strings(&texts);
        proof {
            let set = Set::new(|t: Seq<char>| views(texts@).contains(t));
            let want = neighbour_texts(self@, x);
            assert forall|t: Seq<char>| set.contains(t) <==> want.contains(t) by {
                if views(texts@).contains(t) {
                    let k = choose|k: int| 0 <= k < views(texts@).len() && views(texts@)[k] == t;
                    assert(name_set(list@).contains(list@[k]@));
                }
                if want.contains(t) {
                    let y = choose|y: Seq<char>| self@[x].contains(y) && node_text(y) == t;
                    let k = choose|k: int| 0 <= k < list@.len() && #[trigger] list@[k]@ == y;
                    assert(views(texts@)[k] == t);
                }
            }
            assert(set =~= want);
            lemma_is_the_listing(views(sorted@), want);
        }
        let joined = join_strings(&sorted, ", ");
        let mut r = self.nodes[i].to_string();
        r.append(" -> [");
        r.append(joined.as_str());
        r.append("]\n");
        r
    }

    /// The text that shows the topology: one line per node, in increasing
    /// order of their names, each listing the node's neighbours.
    pub fn render(&self) -> (r: String)
        requires
            self.wf(),
        ensures
            r@ == render_topology(self@),
    {
        let mut names: Vec<String> = Vec::new();
        let mut i: usize = 0;
        while i < self.nodes.len()
            invariant
                i <= self.nodes@.len(),
                views(names@) == self.nodes@.take(i as int).map_values(|n: Node| n@),
            decreases self.nodes@.len() - i,
        {
            let ghost before = names@;
            let name = self.nodes[i].0.clone();
            names.push(name);
            proof {
                assert(names@ == before.push(name));
                assert(views(names@) =~= views(before).push(name@));
                assert(self.nodes@.take(i + 1).map_values(|n: Node| n@) =~= self.nodes@.take(
                    i as int,
                ).map_values(|n: Node| n@).push(self.nodes@[i as int]@));
            }
            i = i + 1;
        }
        proof {
            assert(self.nodes@.take(i as int) =~= self.nodes@);
            assert forall|a: int, b: int| 0 <= a < b < names@.len() implies #[trigger] names@[a]@
                != #[trigger] names@[b]@ by {
                assert(names@[a]@ == views(names@)[a]);
                assert(names@[b]@ == views(names@)[b]);
            }
        }
        let sorted = sort_strings(&names);
        proof {
            let set = Set::new(|t: Seq<char>| views(names@).contains(t));
            assert forall|t: Seq<char>| set.contains(t) <==> self@.dom().contains(t) by {
                self.lemma_dom(t);
                if views(names@).contains(t) {
                    let k = choose|k: int| 0 <= k < views(names@).len() && views(names@)[k] == t;
                    assert(self.nodes@[k]@ == t);
                }
                if has_name(self.nodes@, t) {
                    let k = choose|k: int| 0 <= k < self.nodes@.len() && #[trigger] self.nodes@[k]@ == t;
                    assert(views(names@)[k] == t);
                }
            }
            assert(set =~= self@.dom());
            lemma_is_the_listing(views(sorted@), self@.dom());
        }
        let ghost order = views(sorted@);
        let mut out = String::new();
        let mut k: usize = 0;
        while k < sorted.len()
            invariant
                self.wf(),
                order == views(sorted@),
                order == listing(self@.dom()),
                is_listing(order, self@.dom()),
                k <= sorted@.len(),
                out@ == concat(order.take(k as int).map_values(|x: Seq<char>| render_line(self@, x))),
            decreases sorted@.len() - k,
        {
            let node = Node(sorted[k].clone());
            proof {
                assert(order[k as int] == sorted@[k as int]@);
                assert(self@.dom().contains(node@));
                assert(order.take(k + 1).map_values(|x: Seq<char>| render_line(self@, x)).drop_last()
                    =~= order.take(k as int).map_values(|x: Seq<char>| render_line(self@, x)));
            }
            match self.position(&node) {
                Some(p) => {
                    let line = self.render_entry(p);
                    out.append(line.as_str());
                },
                None => {},
            }
            k = k + 1;
        }
        proof {
            assert(order.take(k as int) =~= order);
        }
        out
    }
}

} // verus!
