use vstd::prelude::*;
use crate::counting::{count_where, lemma_count_push, lemma_count_update};
use crate::floyd::lemma_concat;
use crate::graph::{Edge, Graph, GraphView, NodeId};
use crate::paths::{flip, is_walk, lemma_walk_ends_live, lemma_walk_prepend, lemma_walk_push, usable};

verus! {

/// Some walk leads from `s` to `t`.
pub open spec fn linked(g: GraphView, s: int, t: int) -> bool {
    exists|w: Seq<Edge>| #[trigger] is_walk(g, s, t, w)
}

/// Every present node can be reached from every other.
pub open spec fn all_linked(g: GraphView) -> bool {
    forall|s: int, t: int| g.live(s) && g.live(t) ==> #[trigger] linked(g, s, t)
}

pub open spec fn reversed(w: Seq<Edge>) -> Seq<Edge>
    decreases w.len(),
{
    if w.len() == 0 {
        w
    } else {
        seq![flip(w.last())] + reversed(w.drop_last())
    }
}

/// A walk read backwards is a walk.
pub proof fn lemma_reverse(g: GraphView, s: int, t: int, w: Seq<Edge>)
    requires
        g.well_formed(),
        is_walk(g, s, t, w),
    ensures
        is_walk(g, t, s, reversed(w)),
    decreases w.len(),
{
    if w.len() > 0 {
        let e = w.last();
        let d = w.drop_last();
        lemma_reverse(g, s, e.a.slot as int, d);
        let j = choose|j: int| 0 <= j < g.edges.len() && (#[trigger] g.edges[j] == e || g.edges[j] == flip(e));
        assert(g.edges[j] == flip(flip(e)) || g.edges[j] == flip(e));
        assert(usable(g, flip(e)));
        lemma_walk_ends_live(g, s, t, w);
        lemma_walk_prepend(g, t, e.a.slot as int, s, reversed(d), flip(e));
    }
}

pub open spec fn unvisited() -> spec_fn(bool) -> bool {
    |b: bool| !b
}

/// The far end of edge `j` from `u`, when `j` touches `u`, is seen or waiting.
spec fn closed_at(g: GraphView, seen: Seq<bool>, stack: Seq<usize>, u: int) -> bool {
    forall|j: int|
        0 <= j < g.edges.len() ==> (#[trigger] g.edges[j].a.slot == u ==> seen[g.edges[j].b.slot as int] || stack.contains(
            g.edges[j].b.slot,
        )) && (g.edges[j].b.slot == u ==> seen[g.edges[j].a.slot as int] || stack.contains(g.edges[j].a.slot))
}

/// Nodes marked from a closed set contain the end of every walk from `s`.
proof fn lemma_closed_walk(g: GraphView, s: int, seen: Seq<bool>, t: int, w: Seq<Edge>)
    requires
        g.well_formed(),
        seen.len() == g.nodes.len(),
        0 <= s < seen.len(),
        seen[s],
        forall|u: int| 0 <= u < seen.len() && #[trigger] seen[u] ==> closed_at(g, seen, Seq::<usize>::empty(), u),
        is_walk(g, s, t, w),
    ensures
        0 <= t < seen.len(),
        seen[t],
    decreases w.len(),
{
    if w.len() > 0 {
        let e = w.last();
        lemma_closed_walk(g, s, seen, e.a.slot as int, w.drop_last());
        let j = choose|j: int| 0 <= j < g.edges.len() && (#[trigger] g.edges[j] == e || g.edges[j] == flip(e));
        assert(g.live(g.edges[j].a.slot as int) && g.live(g.edges[j].b.slot as int));
        assert(closed_at(g, seen, Seq::<usize>::empty(), e.a.slot as int));
    }
}

/// The first present node, if any.
fn first_present(g: &Graph) -> (r: Option<usize>)
    ensures
        r is Some ==> g@.live(r->Some_0 as int),
        r is None ==> forall|v: int| !g@.live(v),
{
    let n = g.slot_count();
    let mut i: usize = 0;
    while i < n
        invariant
            n == g@.nodes.len(),
            i <= n,
            forall|v: int| 0 <= v < i ==> !g@.live(v),
        decreases n - i,
    {
        if g.contains(NodeId { slot: i }) {
            return Some(i);
        }
        i = i + 1;
    }
    None
}

/// Whether every present node can be reached from every other (true for no nodes).
pub fn is_fully_connected(g: &Graph) -> (r: bool)
    requires
        g@.well_formed(),
    ensures
        r == all_linked(g@),
{
    let ghost gv = g@;
    let s = match first_present(g) {
        Some(s) => s,
        None => {
            return true;
        },
    };
    let n = g.slot_count();
    let edges = g.edge_list();
    let mut seen: Vec<bool> = Vec::new();
    let mut i: usize = 0;
    while i < n
        invariant
            n == gv.nodes.len(),
            i <= n,
            seen@.len() == i,
            forall|k: int| 0 <= k < i ==> !#[trigger] seen@[k],
            count_where(seen@, unvisited()) == i,
        decreases n - i,
    {
        proof {
            lemma_count_push(seen@, false, unvisited());
        }
        seen.push(false);
        i = i + 1;
    }
    let mut stack: Vec<usize> = Vec::new();
    stack.push(s);
    proof {
        let empty = Seq::<Edge>::empty();
        assert(is_walk(gv, s as int, s as int, empty));
        assert(stack@[0] == s);
    }
    while stack.len() > 0
        invariant
            gv == g@,
            gv.well_formed(),
            edges@ == gv.edges,
            n == gv.nodes.len(),
            s < n,
            seen@.len() == n,
            forall|k: int| 0 <= k < stack@.len() ==> (#[trigger] stack@[k]) < n && linked(gv, s as int, stack@[k] as int),
            forall|v: int| 0 <= v < n && #[trigger] seen@[v] ==> linked(gv, s as int, v),
            forall|v: int| 0 <= v < n && #[trigger] seen@[v] ==> closed_at(gv, seen@, stack@, v),
            seen@[s as int] || stack@.contains(s),
        decreases count_where(seen@, unvisited()), stack@.len(),
    {
        let ghost st_old = stack@;
        let ghost seen_old = seen@;
        let v = stack.pop().unwrap();
        let ghost st_base = stack@;
        proof {
            assert(st_old =~= st_base.push(v));
            assert forall|x: usize| #[trigger] st_old.contains(x) implies x == v || st_base.contains(x) by {
                let k = choose|k: int| 0 <= k < st_old.len() && st_old[k] == x;
                if k < st_base.len() {
                    assert(st_base[k] == x);
                }
            }
            assert(st_old[st_old.len() - 1] == v);
        }
        if !seen[v] {
            proof {
                lemma_count_update(seen@, v as int, true, unvisited());
            }
            seen.set(v, true);
            let mut j: usize = 0;
            while j < edges.len()
                invariant
                    gv == g@,
                    gv.well_formed(),
                    edges@ == gv.edges,
                    n == gv.nodes.len(),
                    v < n,
                    seen@.len() == n,
                    seen@[v as int],
                    j <= edges@.len(),
                    linked(gv, s as int, v as int),
                    stack@.len() >= st_base.len(),
                    stack@.subrange(0, st_base.len() as int) == st_base,
                    forall|k: int| 0 <= k < stack@.len() ==> (#[trigger] stack@[k]) < n && linked(gv, s as int, stack@[k] as int),
                    forall|i: int|
                        0 <= i < j ==> (#[trigger] gv.edges[i].a.slot == v ==> stack@.contains(gv.edges[i].b.slot))
                            && (gv.edges[i].b.slot == v ==> stack@.contains(gv.edges[i].a.slot)),
                decreases edges.len() - j,
            {
                let e = edges[j];
                let ghost st_j = stack@;
                proof {
                    assert(gv.edges[j as int] == e);
                    assert(gv.live(e.a.slot as int) && gv.live(e.b.slot as int));
                    assert(usable(gv, e) && usable(gv, flip(e))) by {
                        assert(gv.edges[j as int] == flip(flip(e)));
                    }
                }
                if e.a.slot == v {
                    proof {
                        let w = choose|w: Seq<Edge>| #[trigger] is_walk(gv, s as int, v as int, w);
                        lemma_walk_push(gv, s as int, v as int, w, e);
                    }
                    stack.push(e.b.slot);
                }
                if e.b.slot == v {
                    proof {
                        let w = choose|w: Seq<Edge>| #[trigger] is_walk(gv, s as int, v as int, w);
                        lemma_walk_push(gv, s as int, v as int, w, flip(e));
                    }
                    stack.push(e.a.slot);
                }
                proof {
                    assert forall|x: usize| #[trigger] st_j.contains(x) implies stack@.contains(x) by {
                        let k = choose|k: int| 0 <= k < st_j.len() && st_j[k] == x;
                        assert(stack@[k] == x);
                    }
                    if e.a.slot == v || e.b.slot == v {
                        assert(stack@[stack@.len() - 1] == if e.b.slot == v { e.a.slot } else { e.b.slot });
                    }
                    if e.a.slot == v && e.b.slot == v {
                        assert(stack@.contains(e.b.slot));
                    } else if e.a.slot == v {
                        assert(stack@[stack@.len() - 1] == e.b.slot);
                    } else if e.b.slot == v {
                        assert(stack@[stack@.len() - 1] == e.a.slot);
                    }
                    assert(stack@.subrange(0, st_base.len() as int) =~= st_base) by {
                        assert forall|k: int| 0 <= k < st_base.len() implies stack@[k] == st_base[k] by {
                            assert(st_j[k] == st_base[k]);
                        }
                    }
                }
                j = j + 1;
            }
        }
        proof {
            assert forall|x: usize| #[trigger] st_base.contains(x) implies stack@.contains(x) by {
                let k = choose|k: int| 0 <= k < st_base.len() && st_base[k] == x;
                assert(stack@[k] == x);
            }
            assert forall|u: int| 0 <= u < n && #[trigger] seen@[u] implies closed_at(gv, seen@, stack@, u) by {
                if u != v || seen_old[v as int] {
                    assert(seen_old[u]);
                    assert(closed_at(gv, seen_old, st_old, u));
                }
            }
        }
    }
    proof {
        assert(stack@ =~= Seq::<usize>::empty());
    }
    let mut all = true;
    let mut v: usize = 0;
    while v < n
        invariant
            gv == g@,
            n == gv.nodes.len(),
            v <= n,
            seen@.len() == n,
            all == forall|k: int| 0 <= k < v && gv.live(k) ==> #[trigger] seen@[k],
        decreases n - v,
    {
        if g.contains(NodeId { slot: v }) && !seen[v] {
            all = false;
        }
        v = v + 1;
    }
    proof {
        assert forall|u: int| 0 <= u < n && #[trigger] seen@[u] implies closed_at(gv, seen@, Seq::<usize>::empty(), u) by {
            assert(closed_at(gv, seen@, stack@, u));
        }
        if all {
            assert forall|a: int, b: int| gv.live(a) && gv.live(b) implies #[trigger] linked(gv, a, b) by {
                assert(seen@[a] && seen@[b]);
                let wa = choose|w: Seq<Edge>| #[trigger] is_walk(gv, s as int, a, w);
                let wb = choose|w: Seq<Edge>| #[trigger] is_walk(gv, s as int, b, w);
                lemma_reverse(gv, s as int, a, wa);
                lemma_concat(gv, a, s as int, b, reversed(wa), wb);
            }
        } else {
            let k = choose|k: int| 0 <= k < n && gv.live(k) && !#[trigger] seen@[k];
            if all_linked(gv) {
                assert(linked(gv, s as int, k));
                let w = choose|w: Seq<Edge>| #[trigger] is_walk(gv, s as int, k, w);
                lemma_closed_walk(gv, s as int, seen@, k, w);
            }
        }
    }
    all
}

} // verus!
