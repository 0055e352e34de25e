use vstd::prelude::*;
use crate::counting::lemma_count_three;
use crate::graph::{is_present, Edge, Graph, GraphView, NodeData, NodeId};
use crate::floyd::all_pairs_distances;
use crate::paths::{fitted_distance, is_shortest, is_walk, lemma_walk_ends_live, walk_weight};

verus! {

/// An exact fraction `num / den`, with `den > 0`.
#[derive(Clone, Copy, Debug, PartialEq, Eq, Structural)]
pub struct Ratio {
    pub num: u128,
    pub den: u128,
}

/// Closeness of a node as this library defines it: the reciprocal of its degree,
/// and zero for a node without edges.
pub fn closeness(g: &Graph, id: NodeId) -> (r: Ratio)
    ensures
        g@.degree(id.slot as int) == 0 ==> r == (Ratio { num: 0, den: 1 }),
        g@.degree(id.slot as int) > 0 ==> r == (Ratio { num: 1, den: g@.degree(id.slot as int) as u128 }),
{
    let d = g.degree(id);
    if d == 0 {
        Ratio { num: 0, den: 1 }
    } else {
        Ratio { num: 1, den: d as u128 }
    }
}

/// `v` lies strictly inside a shortest walk between `s` and `t`, with `s < t`:
/// the distances through `v` add up to the distance between them.
pub open spec fn through(g: GraphView, s: int, v: int, t: int) -> bool {
    &&& 0 <= s < t
    &&& s != v && t != v
    &&& fitted_distance(g, s, t) is Some
    &&& fitted_distance(g, s, v) is Some
    &&& fitted_distance(g, v, t) is Some
    &&& fitted_distance(g, s, v)->Some_0 + fitted_distance(g, v, t)->Some_0 == fitted_distance(g, s, t)->Some_0
}

/// Number of `t' < t` such that `v` lies between `s` and `t'`.
pub open spec fn row_count(g: GraphView, v: int, s: int, t: int) -> nat
    decreases t,
{
    if t <= 0 {
        0
    } else {
        row_count(g, v, s, t - 1) + if through(g, s, v, t - 1) {
            1nat
        } else {
            0nat
        }
    }
}

/// Number of pairs `(s', t')` with `s' < s` such that `v` lies between them.
pub open spec fn rows_count(g: GraphView, v: int, s: int) -> nat
    decreases s,
{
    if s <= 0 {
        0
    } else {
        rows_count(g, v, s - 1) + row_count(g, v, s - 1, g.nodes.len() as int)
    }
}

/// How many pairs of nodes `v` lies between.
pub open spec fn between_count(g: GraphView, v: int) -> nat {
    rows_count(g, v, g.nodes.len() as int)
}

/// The normalising denominator `(N - 1)(N - 2)` for `N` nodes, or 1 when `N < 3`.
pub open spec fn pair_norm(n: nat) -> nat {
    if n < 3 {
        1
    } else {
        ((n - 1) * (n - 2)) as nat
    }
}

proof fn lemma_reported_live(g: GraphView, s: int, t: int)
    requires
        g.well_formed(),
        fitted_distance(g, s, t) is Some,
    ensures
        g.live(s),
        g.live(t),
{
    let d = choose|d: nat| is_shortest(g, s, t, d);
    let w = choose|w: Seq<Edge>| #[trigger] is_walk(g, s, t, w) && walk_weight(w) == d;
    lemma_walk_ends_live(g, s, t, w);
}

/// With fewer than three nodes no node lies between two others.
pub proof fn lemma_between_small(g: GraphView, v: int)
    requires
        g.well_formed(),
        g.node_count() < 3,
    ensures
        between_count(g, v) == 0,
{
    assert forall|s: int, t: int| !#[trigger] through(g, s, v, t) by {
        if through(g, s, v, t) {
            lemma_reported_live(g, s, t);
            lemma_reported_live(g, s, v);
            let p = |o: Option<NodeData>| is_present(o);
            assert(p(g.nodes[s]) && p(g.nodes[t]) && p(g.nodes[v]));
            if v < s {
                lemma_count_three(g.nodes, p, v, s, t);
            } else if v < t {
                lemma_count_three(g.nodes, p, s, v, t);
            } else {
                lemma_count_three(g.nodes, p, s, t, v);
            }
        }
    }
    lemma_rows_zero(g, v, g.nodes.len() as int);
}

proof fn lemma_rows_zero(g: GraphView, v: int, s: int)
    requires
        forall|s: int, t: int| !#[trigger] through(g, s, v, t),
    ensures
        rows_count(g, v, s) == 0,
    decreases s,
{
    if s > 0 {
        lemma_rows_zero(g, v, s - 1);
        lemma_row_zero(g, v, s - 1, g.nodes.len() as int);
    }
}

proof fn lemma_row_zero(g: GraphView, v: int, s: int, t: int)
    requires
        forall|s: int, t: int| !#[trigger] through(g, s, v, t),
    ensures
        row_count(g, v, s, t) == 0,
    decreases t,
{
    if t > 0 {
        lemma_row_zero(g, v, s, t - 1);
    }
}

/// Betweenness of every slot: `r[v]` is the number of node pairs that `v` lies between,
/// over `(N - 1)(N - 2)` for `N` nodes; all zero when `N < 3`.
pub fn betweenness_centrality(g: &Graph) -> (r: Vec<Ratio>)
    requires
        g@.well_formed(),
    ensures
        r@.len() == g@.nodes.len(),
        forall|v: int|
            0 <= v < r@.len() ==> (#[trigger] r@[v]).num == between_count(g@, v) && r@[v].den == pair_norm(
                g@.node_count(),
            ),
        g@.node_count() < 3 ==> forall|v: int| 0 <= v < r@.len() ==> (#[trigger] r@[v]).num == 0,
{
    let n = g.slot_count();
    let live = g.node_count();
    proof {
        crate::counting::lemma_count_le_len(g@.nodes, |o: Option<NodeData>| is_present(o));
    }
    let m = all_pairs_distances(g);
    let mut counts: Vec<u128> = Vec::new();
    let mut i: usize = 0;
    while i < n
        invariant
            i <= n,
            counts@.len() == i,
            forall|v: int| 0 <= v < i ==> #[trigger] counts@[v] == 0,
        decreases n - i,
    {
        counts.push(0);
        i = i + 1;
    }
    let ghost gv = g@;
    let mut s: usize = 0;
    while s < n
        invariant
            gv == g@,
            n == gv.nodes.len(),
            m@.len() == n,
            forall|a: int| 0 <= a < n ==> (#[trigger] m@[a])@.len() == n,
            forall|a: int, b: int| 0 <= a < n && 0 <= b < n ==> #[trigger] m@[a]@[b] == fitted_distance(gv, a, b),
            s <= n,
            counts@.len() == n,
            forall|v: int| 0 <= v < n ==> #[trigger] counts@[v] == rows_count(gv, v, s as int),
            forall|v: int| 0 <= v < n ==> #[trigger] counts@[v] <= s * n,
        decreases n - s,
    {
        let mut t: usize = 0;
        while t < n
            invariant
                gv == g@,
                n == gv.nodes.len(),
                m@.len() == n,
                forall|a: int| 0 <= a < n ==> (#[trigger] m@[a])@.len() == n,
                forall|a: int, b: int| 0 <= a < n && 0 <= b < n ==> #[trigger] m@[a]@[b] == fitted_distance(gv, a, b),
                s < n,
                t <= n,
                counts@.len() == n,
                forall|v: int|
                    0 <= v < n ==> #[trigger] counts@[v] == rows_count(gv, v, s as int) + row_count(
                        gv,
                        v,
                        s as int,
                        t as int,
                    ),
                forall|v: int| 0 <= v < n ==> #[trigger] counts@[v] <= s * n + t,
            decreases n - t,
        {
            let mut v: usize = 0;
            while v < n
                invariant
                    gv == g@,
                    n == gv.nodes.len(),
                    m@.len() == n,
                    forall|a: int| 0 <= a < n ==> (#[trigger] m@[a])@.len() == n,
                    forall|a: int, b: int|
                        0 <= a < n && 0 <= b < n ==> #[trigger] m@[a]@[b] == fitted_distance(gv, a, b),
                    s < n,
                    t < n,
                    v <= n,
                    counts@.len() == n,
                    forall|x: int|
                        0 <= x < v ==> #[trigger] counts@[x] == rows_count(gv, x, s as int) + row_count(
                            gv,
                            x,
                            s as int,
                            t + 1,
                        ),
                    forall|x: int|
                        v <= x < n ==> #[trigger] counts@[x] == rows_count(gv, x, s as int) + row_count(
                            gv,
                            x,
                            s as int,
                            t as int,
                        ),
                    forall|x: int| 0 <= x < v ==> #[trigger] counts@[x] <= s * n + t + 1,
                    forall|x: int| v <= x < n ==> #[trigger] counts@[x] <= s * n + t,
                decreases n - v,
            {
                let hit = if s < t && v != s && v != t {
                    match (m[s][t], m[s][v], m[v][t]) {
                        (Some(st), Some(sv), Some(vt)) => sv as u128 + vt as u128 == st as u128,
                        _ => false,
                    }
                } else {
                    false
                };
                proof {
                    assert(hit == through(gv, s as int, v as int, t as int));
                    assert(s * n + t + 1 <= n * n) by (nonlinear_arith)
                        requires
                            s < n,
                            t < n,
                    ;
                    assert(n * n <= 0xffff_ffff_ffff_ffffu128 * 0xffff_ffff_ffff_ffffu128) by (nonlinear_arith)
                        requires
                            n <= 0xffff_ffff_ffff_ffffu128,
                    ;
                    assert(counts@[v as int] <= s * n + t);
                }
                if hit {
                    let c = counts[v];
                    counts.set(v, c + 1);
                }
                v = v + 1;
            }
            t = t + 1;
        }
        proof {
            assert forall|v: int| 0 <= v < n implies #[trigger] counts@[v] <= (s + 1) * n by {
                assert(s * n + n == (s + 1) * n) by (nonlinear_arith);
            }
        }
        s = s + 1;
    }
    let den: u128 = if live < 3 {
        1
    } else {
        proof {
            assert((live - 1) * (live - 2) <= 0xffff_ffff_ffff_ffffu128 * 0xffff_ffff_ffff_ffffu128) by (nonlinear_arith)
                requires
                    live <= 0xffff_ffff_ffff_ffffu128,
                    live >= 3,
            ;
        }
        (live as u128 - 1) * (live as u128 - 2)
    };
    let mut r: Vec<Ratio> = Vec::new();
    let mut k: usize = 0;
    while k < n
        invariant
            gv == g@,
            gv.well_formed(),
            n == gv.nodes.len(),
            live == gv.node_count(),
            den == pair_norm(live as nat),
            counts@.len() == n,
            forall|v: int| 0 <= v < n ==> #[trigger] counts@[v] == between_count(gv, v),
            k <= n,
            r@.len() == k,
            forall|v: int|
                0 <= v < k ==> (#[trigger] r@[v]).num == between_count(gv, v) && r@[v].den == pair_norm(
                    gv.node_count(),
                ),
        decreases n - k,
    {
        r.push(Ratio { num: counts[k], den });
        k = k + 1;
    }
    proof {
        if gv.node_count() < 3 {
            assert forall|v: int| 0 <= v < r@.len() implies (#[trigger] r@[v]).num == 0 by {
                lemma_between_small(gv, v);
            }
        }
    }
    r
}

} // verus!
