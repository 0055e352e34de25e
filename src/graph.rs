use vstd::prelude::*;
use crate::counting::{count_where, lemma_count_push, lemma_count_update};

verus! {

broadcast use vstd::seq_lib::group_seq_properties, vstd::prelude::Seq::lemma_filter_push;

/// Stable handle of a node: the index of the slot that holds it.
/// Slots are never reused, so a handle never comes to name another node.
#[derive(Clone, Copy, Debug, PartialEq, Eq, Hash, Structural)]
pub struct NodeId {
    pub slot: usize,
}

/// An undirected edge between `a` and `b` with a non-negative weight.
#[derive(Clone, Copy, Debug, PartialEq, Eq, Structural)]
pub struct Edge {
    pub a: NodeId,
    pub b: NodeId,
    pub weight: u64,
}

/// Payload carried by a node; the algorithms never read it.
#[derive(Debug)]
pub struct Attributes {
    pub reach: Option<u32>,
    pub height: Option<u32>,
    pub category: String,
    pub organization: String,
}

/// A node's display label and its attributes.
#[derive(Debug)]
pub struct NodeData {
    pub label: String,
    pub attributes: Attributes,
}

#[derive(Clone, Copy, Debug, PartialEq, Eq, Structural)]
pub enum GraphError {
    /// An operation named a node that does not exist.
    UnknownNode,
    /// A mutation command could not be parsed.
    MalformedInput,
}

impl Attributes {
    pub fn new(reach: Option<u32>, height: Option<u32>, category: &str, organization: &str) -> (a: Attributes)
        ensures
            a.reach == reach,
            a.height == height,
            a.category@ == category@,
            a.organization@ == organization@,
    {
        Attributes { reach, height, category: category.to_owned(), organization: organization.to_owned() }
    }

    /// No reach or height, and empty category and organization.
    pub fn unknown() -> (a: Attributes)
        ensures
            a.reach is None,
            a.height is None,
            a.category@.len() == 0,
            a.organization@.len() == 0,
    {
        Attributes { reach: None, height: None, category: String::new(), organization: String::new() }
    }
}

impl NodeData {
    pub fn new(label: &str, attributes: Attributes) -> (d: NodeData)
        ensures
            d.label@ == label@,
            d.attributes == attributes,
    {
        NodeData { label: label.to_owned(), attributes }
    }
}

/// The abstract state of a graph: one entry per slot ever issued
/// (`None` once its node was removed), and the edge list in insertion order.
pub ghost struct GraphView {
    pub nodes: Seq<Option<NodeData>>,
    pub edges: Seq<Edge>,
}

pub open spec fn touches(e: Edge, v: int) -> bool {
    e.a.slot == v || e.b.slot == v
}

pub open spec fn touching(v: int) -> spec_fn(Edge) -> bool {
    |e: Edge| touches(e, v)
}

pub open spec fn avoiding(v: int) -> spec_fn(Edge) -> bool {
    |e: Edge| !touches(e, v)
}

/// `e` connects `a` and `b`, in either orientation.
pub open spec fn joins(e: Edge, a: int, b: int) -> bool {
    (e.a.slot == a && e.b.slot == b) || (e.a.slot == b && e.b.slot == a)
}

/// The endpoint of `e` seen from `v` (for a self-loop, `v` itself).
pub open spec fn other_end(e: Edge, v: int) -> NodeId {
    if e.a.slot == v {
        e.b
    } else {
        e.a
    }
}

pub open spec fn neighbor_entry(v: int) -> spec_fn(Edge) -> (NodeId, u64) {
    |e: Edge| (other_end(e, v), e.weight)
}

pub open spec fn is_present(o: Option<NodeData>) -> bool {
    o is Some
}

impl GraphView {
    pub open spec fn live(self, v: int) -> bool {
        0 <= v < self.nodes.len() && self.nodes[v] is Some
    }

    /// Every edge joins two nodes that are present.
    pub open spec fn well_formed(self) -> bool {
        forall|j: int|
            0 <= j < self.edges.len() ==> self.live(#[trigger] self.edges[j].a.slot as int)
                && self.live(self.edges[j].b.slot as int)
    }

    pub open spec fn label(self, v: int) -> Seq<char> {
        self.nodes[v]->Some_0.label@
    }

    pub open spec fn node_count(self) -> nat {
        count_where(self.nodes, |o: Option<NodeData>| is_present(o))
    }

    /// `k` is the first present node, by handle, labelled `l`.
    pub open spec fn first_labelled(self, l: Seq<char>, k: int) -> bool {
        &&& self.live(k)
        &&& self.label(k) == l
        &&& forall|j: int| 0 <= j < k && self.live(j) ==> self.label(j) != l
    }

    /// The slot of the first present node labelled `l`, if any.
    pub open spec fn label_slot(self, l: Seq<char>) -> Option<int> {
        if exists|k: int| self.first_labelled(l, k) {
            Some(choose|k: int| self.first_labelled(l, k))
        } else {
            None
        }
    }

    /// The edges that have `v` as an endpoint, in insertion order.
    pub open spec fn incident(self, v: int) -> Seq<Edge> {
        self.edges.filter(touching(v))
    }

    /// Number of incident edges: parallel edges count one each, a self-loop once.
    pub open spec fn degree(self, v: int) -> nat {
        self.incident(v).len()
    }
}

/// An undirected multigraph whose node handles stay valid across removals.
pub struct Graph {
    slots: Vec<Option<NodeData>>,
    edges: Vec<Edge>,
}

impl View for Graph {
    type V = GraphView;

    closed spec fn view(&self) -> GraphView {
        GraphView { nodes: self.slots@, edges: self.edges@ }
    }
}

impl Graph {
    pub fn new() -> (g: Graph)
        ensures
            g@.nodes.len() == 0,
            g@.edges.len() == 0,
            g@.well_formed(),
    {
        Graph { slots: Vec::new(), edges: Vec::new() }
    }

    /// Number of slots ever issued; every handle ever returned is below it.
    pub fn slot_count(&self) -> (n: usize)
        ensures
            n == self@.nodes.len(),
    {
        self.slots.len()
    }

    pub fn edge_count(&self) -> (n: usize)
        ensures
            n == self@.edges.len(),
    {
        self.edges.len()
    }

    /// The edges in insertion order.
    pub fn edge_list(&self) -> (es: &Vec<Edge>)
        ensures
            es@ == self@.edges,
    {
        &self.edges
    }

    pub fn contains(&self, id: NodeId) -> (b: bool)
        ensures
            b == self@.live(id.slot as int),
    {
        id.slot < self.slots.len() && self.slots[id.slot].is_some()
    }

    pub fn get(&self, id: NodeId) -> (d: Option<&NodeData>)
        ensures
            d is Some == self@.live(id.slot as int),
            d is Some ==> *d->Some_0 == self@.nodes[id.slot as int]->Some_0,
    {
        if id.slot < self.slots.len() {
            match &self.slots[id.slot] {
                Some(data) => Some(data),
                None => None,
            }
        } else {
            None
        }
    }

    /// Adds a node under a handle that was never issued before.
    pub fn add_node(&mut self, data: NodeData) -> (id: NodeId)
        requires
            old(self)@.well_formed(),
        ensures
            final(self)@.well_formed(),
            id.slot == old(self)@.nodes.len(),
            final(self)@.nodes == old(self)@.nodes.push(Some(data)),
            final(self)@.edges == old(self)@.edges,
            final(self)@.node_count() == old(self)@.node_count() + 1,
    {
        proof {
            lemma_count_push(self.slots@, Some(data), |o: Option<NodeData>| is_present(o));
        }
        let ghost before = self@;
        let id = NodeId { slot: self.slots.len() };
        self.slots.push(Some(data));
        proof {
            assert forall|j: int| 0 <= j < self@.edges.len() implies self@.live(
                #[trigger] self@.edges[j].a.slot as int,
            ) && self@.live(self@.edges[j].b.slot as int) by {
                assert(before.live(before.edges[j].a.slot as int));
                assert(before.live(before.edges[j].b.slot as int));
            }
        }
        id
    }

    /// Removes a node and every edge that touches it. Returns whether the node existed;
    /// if it did not, nothing changes. No other slot changes.
    pub fn remove_node(&mut self, id: NodeId) -> (removed: bool)
        requires
            old(self)@.well_formed(),
        ensures
            final(self)@.well_formed(),
            removed == old(self)@.live(id.slot as int),
            removed ==> final(self)@.nodes == old(self)@.nodes.update(id.slot as int, None),
            removed ==> final(self)@.edges == old(self)@.edges.filter(avoiding(id.slot as int)),
            removed ==> final(self)@.node_count() + 1 == old(self)@.node_count(),
            removed ==> forall|e: Edge|
                #[trigger] final(self)@.edges.contains(e) <==> old(self)@.edges.contains(e) && !touches(
                    e,
                    id.slot as int,
                ),
            removed ==> forall|k: int|
                0 <= k < old(self)@.nodes.len() && k != id.slot ==> #[trigger] final(self)@.nodes[k] == old(self)@.nodes[k],
            !removed ==> final(self)@ == old(self)@,
    {
        if !self.contains(id) {
            return false;
        }
        let ghost old_nodes = self.slots@;
        let ghost old_edges = self.edges@;
        let ghost v = id.slot as int;
        let mut kept: Vec<Edge> = Vec::new();
        let mut i: usize = 0;
        while i < self.edges.len()
            invariant
                v == id.slot as int,
                self.edges@ == old_edges,
                i <= old_edges.len(),
                kept@ == old_edges.subrange(0, i as int).filter(avoiding(v)),
            decreases self.edges.len() - i,
        {
            let e = self.edges[i];
            proof {
                assert(old_edges.subrange(0, i + 1) =~= old_edges.subrange(0, i as int).push(e));
                old_edges.subrange(0, i as int).lemma_filter_push(e, avoiding(v));
            }
            if e.a.slot != id.slot && e.b.slot != id.slot {
                kept.push(e);
            }
            i = i + 1;
        }
        proof {
            assert(old_edges.subrange(0, old_edges.len() as int) =~= old_edges);
            lemma_count_update(old_nodes, v, None, |o: Option<NodeData>| is_present(o));
        }
        self.slots.set(id.slot, None);
        self.edges = kept;
        proof {
            let k = self.edges@;
            let before = GraphView { nodes: old_nodes, edges: old_edges };
            assert forall|j: int| 0 <= j < k.len() implies self@.live(#[trigger] k[j].a.slot as int)
                && self@.live(k[j].b.slot as int) by {
                assert(k.contains(k[j]));
                old_edges.lemma_filter_contains_rev(avoiding(v), k[j]);
                let jj = choose|jj: int| 0 <= jj < old_edges.len() && old_edges[jj] == k[j];
                old_edges.lemma_filter_pred(avoiding(v), j);
                assert(avoiding(v)(k[j]));
                assert(before.live(before.edges[jj].a.slot as int));
                assert(before.live(before.edges[jj].b.slot as int));
                assert(k[j].a.slot != v && k[j].b.slot != v);
            }
            assert forall|e: Edge| #[trigger] k.contains(e) <==> old_edges.contains(e) && !touches(e, v) by {
                if k.contains(e) {
                    old_edges.lemma_filter_contains_rev(avoiding(v), e);
                    let j = choose|j: int| 0 <= j < k.len() && k[j] == e;
                    old_edges.lemma_filter_pred(avoiding(v), j);
                }
                if old_edges.contains(e) && !touches(e, v) {
                    let j = choose|j: int| 0 <= j < old_edges.len() && old_edges[j] == e;
                    old_edges.lemma_filter_contains(avoiding(v), j);
                }
            }
        }
        true
    }

    /// Adds an edge; parallel edges and self-loops are kept as they come.
    pub fn add_edge(&mut self, a: NodeId, b: NodeId, weight: u64) -> (r: Result<(), GraphError>)
        requires
            old(self)@.well_formed(),
        ensures
            final(self)@.well_formed(),
            r is Ok == (old(self)@.live(a.slot as int) && old(self)@.live(b.slot as int)),
            r is Ok ==> final(self)@.nodes == old(self)@.nodes,
            r is Ok ==> final(self)@.edges == old(self)@.edges.push(Edge { a, b, weight }),
            r is Ok ==> final(self)@.degree(a.slot as int) == old(self)@.degree(a.slot as int) + 1,
            r is Err ==> r == Err::<(), GraphError>(GraphError::UnknownNode),
            r is Err ==> final(self)@ == old(self)@,
    {
        if !self.contains(a) || !self.contains(b) {
            return Err(GraphError::UnknownNode);
        }
        let ghost before = self@;
        self.edges.push(Edge { a, b, weight });
        proof {
            before.edges.lemma_filter_push(Edge { a, b, weight }, touching(a.slot as int));
            assert forall|j: int| 0 <= j < self@.edges.len() implies self@.live(
                #[trigger] self@.edges[j].a.slot as int,
            ) && self@.live(self@.edges[j].b.slot as int) by {
                if j < before.edges.len() {
                    assert(before.live(before.edges[j].a.slot as int));
                    assert(before.live(before.edges[j].b.slot as int));
                }
            }
        }
        Ok(())
    }

    /// Removes the first edge, in insertion order, that joins `a` and `b`; later
    /// parallel edges stay. Returns whether one was removed.
    pub fn remove_edge(&mut self, a: NodeId, b: NodeId) -> (removed: bool)
        requires
            old(self)@.well_formed(),
        ensures
            final(self)@.well_formed(),
            final(self)@.nodes == old(self)@.nodes,
            removed == exists|j: int|
                0 <= j < old(self)@.edges.len() && joins(
                    #[trigger] old(self)@.edges[j],
                    a.slot as int,
                    b.slot as int,
                ),
            removed ==> exists|j: int|
                0 <= j < old(self)@.edges.len() && joins(
                    #[trigger] old(self)@.edges[j],
                    a.slot as int,
                    b.slot as int,
                ) && (forall|k: int|
                    0 <= k < j ==> !joins(#[trigger] old(self)@.edges[k], a.slot as int, b.slot as int))
                    && final(self)@.edges == old(self)@.edges.remove(j),
            !removed ==> final(self)@ == old(self)@,
    {
        let mut i: usize = 0;
        while i < self.edges.len()
            invariant
                self@ == old(self)@,
                self@.well_formed(),
                i <= self.edges.len(),
                forall|k: int| 0 <= k < i ==> !joins(#[trigger] self.edges@[k], a.slot as int, b.slot as int),
            decreases self.edges.len() - i,
        {
            let e = self.edges[i];
            if (e.a.slot == a.slot && e.b.slot == b.slot) || (e.a.slot == b.slot && e.b.slot == a.slot) {
                let ghost before = self.edges@;
                let ghost gb = self@;
                proof {
                    assert(joins(before[i as int], a.slot as int, b.slot as int));
                }
                self.edges.remove(i);
                proof {
                    assert forall|j: int| 0 <= j < self.edges@.len() implies
                        self@.live(#[trigger] self.edges@[j].a.slot as int)
                        && self@.live(self.edges@[j].b.slot as int) by {
                        if j < i {
                            assert(self.edges@[j] == before[j]);
                            assert(gb.live(gb.edges[j].a.slot as int));
                            assert(gb.live(gb.edges[j].b.slot as int));
                        } else {
                            assert(self.edges@[j] == before[j + 1]);
                            assert(gb.live(gb.edges[j + 1].a.slot as int));
                            assert(gb.live(gb.edges[j + 1].b.slot as int));
                        }
                    }
                }
                return true;
            }
            i = i + 1;
        }
        false
    }

    /// The first present node, by handle, whose label is `label`.
    pub fn find_by_label(&self, label: &str) -> (r: Option<NodeId>)
        ensures
            r is Some == self@.label_slot(label@) is Some,
            r is Some ==> r->Some_0.slot == self@.label_slot(label@)->Some_0,
            r is Some ==> self@.live(r->Some_0.slot as int) && self@.label(r->Some_0.slot as int)
                == label@,
            r is Some ==> forall|k: int|
                0 <= k < r->Some_0.slot && self@.live(k) ==> self@.label(k) != label@,
            r is None ==> forall|k: int| self@.live(k) ==> self@.label(k) != label@,
    {
        let target = label.to_owned();
        let mut i: usize = 0;
        while i < self.slots.len()
            invariant
                target@ == label@,
                i <= self.slots.len(),
                forall|k: int| 0 <= k < i && self@.live(k) ==> self@.label(k) != label@,
            decreases self.slots.len() - i,
        {
            match &self.slots[i] {
                Some(data) => {
                    if data.label == target {
                        proof {
                            let k = choose|k: int| self@.first_labelled(label@, k);
                            assert(self@.first_labelled(label@, i as int));
                            if k < i {
                            } else if k > i {
                                assert(self@.live(i as int));
                            }
                        }
                        return Some(NodeId { slot: i });
                    }
                },
                None => {},
            }
            i = i + 1;
        }
        None
    }

    /// The far endpoint and weight of each edge that touches `id`, in insertion order.
    pub fn neighbors(&self, id: NodeId) -> (r: Vec<(NodeId, u64)>)
        ensures
            r@ == self@.incident(id.slot as int).map_values(neighbor_entry(id.slot as int)),
    {
        let ghost v = id.slot as int;
        let mut r: Vec<(NodeId, u64)> = Vec::new();
        let mut i: usize = 0;
        while i < self.edges.len()
            invariant
                v == id.slot as int,
                i <= self.edges@.len(),
                r@ == self.edges@.subrange(0, i as int).filter(touching(v)).map_values(
                    neighbor_entry(v),
                ),
            decreases self.edges.len() - i,
        {
            let e = self.edges[i];
            let ghost pre = self.edges@.subrange(0, i as int).filter(touching(v));
            proof {
                assert(self.edges@.subrange(0, i + 1) =~= self.edges@.subrange(0, i as int).push(e));
                self.edges@.subrange(0, i as int).lemma_filter_push(e, touching(v));
            }
            if e.a.slot == id.slot {
                r.push((e.b, e.weight));
                proof {
                    assert(neighbor_entry(v)(e) == (e.b, e.weight));
                    assert(pre.push(e).map_values(neighbor_entry(v)) =~= pre.map_values(
                        neighbor_entry(v),
                    ).push((e.b, e.weight)));
                }
            } else if e.b.slot == id.slot {
                r.push((e.a, e.weight));
                proof {
                    assert(neighbor_entry(v)(e) == (e.a, e.weight));
                    assert(pre.push(e).map_values(neighbor_entry(v)) =~= pre.map_values(
                        neighbor_entry(v),
                    ).push((e.a, e.weight)));
                }
            }
            i = i + 1;
        }
        proof {
            assert(self.edges@.subrange(0, self.edges@.len() as int) =~= self.edges@);
        }
        r
    }

    /// Number of edges that touch `id`.
    pub fn degree(&self, id: NodeId) -> (d: usize)
        ensures
            d == self@.degree(id.slot as int),
    {
        let ghost v = id.slot as int;
        let mut d: usize = 0;
        let mut i: usize = 0;
        while i < self.edges.len()
            invariant
                v == id.slot as int,
                i <= self.edges@.len(),
                d == self.edges@.subrange(0, i as int).filter(touching(v)).len(),
                d <= i,
            decreases self.edges.len() - i,
        {
            let e = self.edges[i];
            proof {
                assert(self.edges@.subrange(0, i + 1) =~= self.edges@.subrange(0, i as int).push(e));
                self.edges@.subrange(0, i as int).lemma_filter_push(e, touching(v));
            }
            if e.a.slot == id.slot || e.b.slot == id.slot {
                d = d + 1;
            }
            i = i + 1;
        }
        proof {
            assert(self.edges@.subrange(0, self.edges@.len() as int) =~= self.edges@);
        }
        d
    }

    /// Number of nodes present.
    pub fn node_count(&self) -> (n: usize)
        ensures
            n == self@.node_count(),
    {
        let mut n: usize = 0;
        let mut i: usize = 0;
        while i < self.slots.len()
            invariant
                i <= self.slots@.len(),
                n == count_where(self.slots@.subrange(0, i as int), |o: Option<NodeData>| is_present(o)),
                n <= i,
            decreases self.slots.len() - i,
        {
            proof {
                assert(self.slots@.subrange(0, i + 1) =~= self.slots@.subrange(0, i as int).push(
                    self.slots@[i as int],
                ));
                lemma_count_push(
                    self.slots@.subrange(0, i as int),
                    self.slots@[i as int],
                    |o: Option<NodeData>| is_present(o),
                );
            }
            if self.slots[i].is_some() {
                n = n + 1;
            }
            i = i + 1;
        }
        proof {
            assert(self.slots@.subrange(0, self.slots@.len() as int) =~= self.slots@);
        }
        n
    }

    /// Handles of the nodes present, in increasing order.
    pub fn node_ids(&self) -> (ids: Vec<NodeId>)
        ensures
            forall|k: int| 0 <= k < ids@.len() ==> self@.live(#[trigger] ids@[k].slot as int),
            forall|k: int, l: int| 0 <= k < l < ids@.len() ==> ids@[k].slot < ids@[l].slot,
            forall|v: int| self@.live(v) ==> exists|k: int| 0 <= k < ids@.len() && #[trigger] ids@[k].slot == v,
    {
        let mut ids: Vec<NodeId> = Vec::new();
        let mut i: usize = 0;
        while i < self.slots.len()
            invariant
                i <= self.slots@.len(),
                forall|k: int| 0 <= k < ids@.len() ==> self@.live(#[trigger] ids@[k].slot as int),
                forall|k: int| 0 <= k < ids@.len() ==> #[trigger] ids@[k].slot < i,
                forall|k: int, l: int| 0 <= k < l < ids@.len() ==> ids@[k].slot < ids@[l].slot,
                forall|v: int|
                    0 <= v < i && self@.live(v) ==> exists|k: int| 0 <= k < ids@.len() && #[trigger] ids@[k].slot == v,
            decreases self.slots.len() - i,
        {
            let ghost prev = ids@;
            if self.slots[i].is_some() {
                ids.push(NodeId { slot: i });
            }
            proof {
                assert forall|w: int| 0 <= w < i + 1 && self@.live(w) implies exists|k: int|
                    0 <= k < ids@.len() && #[trigger] ids@[k].slot == w by {
                    if w == i {
                        assert(ids@[ids@.len() - 1].slot == w);
                    } else {
                        let k = choose|k: int| 0 <= k < prev.len() && #[trigger] prev[k].slot == w;
                        assert(ids@[k] == prev[k]);
                    }
                }
            }
            i = i + 1;
        }
        ids
    }
}

} // verus!
