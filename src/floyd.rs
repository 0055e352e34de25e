use vstd::prelude::*;
use crate::graph::{Edge, Graph, GraphView, NodeId};
use crate::paths::{
    fitted_distance, flip, is_walk, lemma_fitted_from_bounds, lemma_fitted_none, lemma_walk_ends_live, reaches,
    usable, walk_weight,
};

verus! {

/// The node a walk from `s` has reached after `p` steps.
pub open spec fn at(s: int, w: Seq<Edge>, p: int) -> int {
    if p == 0 {
        s
    } else {
        w[p - 1].b.slot as int
    }
}

/// Every node that `w` passes through strictly between its ends is below `k`.
pub open spec fn inner_below(w: Seq<Edge>, k: int) -> bool {
    forall|x: int| 0 <= x < w.len() - 1 ==> (#[trigger] w[x]).b.slot < k
}

/// Each step of a walk starts where the previous one ended and uses an edge of `g`.
proof fn lemma_walk_steps(g: GraphView, s: int, t: int, w: Seq<Edge>)
    requires
        is_walk(g, s, t, w),
    ensures
        forall|x: int| 0 <= x < w.len() ==> (#[trigger] w[x]).a.slot == at(s, w, x) && usable(g, w[x]),
    decreases w.len(),
{
    if w.len() > 0 {
        let d = w.drop_last();
        lemma_walk_steps(g, s, w.last().a.slot as int, d);
        reveal_with_fuel(is_walk, 2);
        if w.len() == 1 {
            assert(d.len() == 0);
        } else {
            assert(d.last().b.slot == w.last().a.slot);
            assert(d.last() == w[w.len() - 2]);
        }
        assert forall|x: int| 0 <= x < w.len() implies (#[trigger] w[x]).a.slot == at(s, w, x) && usable(g, w[x]) by {
            if x < w.len() - 1 {
                assert(w[x] == d[x]);
                if x > 0 {
                    assert(w[x - 1] == d[x - 1]);
                }
            }
        }
    }
}

proof fn lemma_prefix(g: GraphView, s: int, t: int, w: Seq<Edge>, p: int)
    requires
        is_walk(g, s, t, w),
        0 <= p <= w.len(),
    ensures
        is_walk(g, s, at(s, w, p), w.subrange(0, p)),
    decreases w.len(),
{
    if p == w.len() {
        assert(w.subrange(0, p) =~= w);
        if p > 0 {
            assert(w.last() == w[p - 1]);
        }
    } else {
        let d = w.drop_last();
        lemma_prefix(g, s, w.last().a.slot as int, d, p);
        assert(d.subrange(0, p) =~= w.subrange(0, p));
        if p > 0 {
            assert(d[p - 1] == w[p - 1]);
        }
    }
}

proof fn lemma_suffix(g: GraphView, s: int, t: int, w: Seq<Edge>, p: int)
    requires
        g.well_formed(),
        is_walk(g, s, t, w),
        0 <= p <= w.len(),
    ensures
        is_walk(g, at(s, w, p), t, w.subrange(p, w.len() as int)),
    decreases w.len(),
{
    let sw = w.subrange(p, w.len() as int);
    if p == w.len() {
        lemma_walk_ends_live(g, s, t, w);
        assert(sw =~= Seq::<Edge>::empty());
        if p > 0 {
            assert(w.last() == w[p - 1]);
        }
    } else {
        let d = w.drop_last();
        if p == w.len() - 1 {
            lemma_walk_steps(g, s, t, w);
            lemma_walk_ends_live(g, s, w.last().a.slot as int, d);
            assert(sw.drop_last() =~= Seq::<Edge>::empty());
            assert(sw.last() == w.last());
            assert(w[p] == w.last());
            assert(w[p].a.slot == at(s, w, p));
            assert(is_walk(g, at(s, w, p), w.last().a.slot as int, sw.drop_last()));
        } else {
            lemma_suffix(g, s, w.last().a.slot as int, d, p);
            assert(sw.drop_last() =~= d.subrange(p, d.len() as int));
            assert(sw.last() == w.last());
            if p > 0 {
                assert(d[p - 1] == w[p - 1]);
            }
            assert(at(s, d, p) == at(s, w, p));
            assert(is_walk(g, at(s, w, p), w.last().a.slot as int, sw.drop_last()));
        }
    }
}

pub proof fn lemma_concat(g: GraphView, s: int, m: int, t: int, w1: Seq<Edge>, w2: Seq<Edge>)
    requires
        is_walk(g, s, m, w1),
        is_walk(g, m, t, w2),
    ensures
        is_walk(g, s, t, w1 + w2),
        walk_weight(w1 + w2) == walk_weight(w1) + walk_weight(w2),
    decreases w2.len(),
{
    if w2.len() == 0 {
        assert(w1 + w2 =~= w1);
    } else {
        lemma_concat(g, s, m, w2.last().a.slot as int, w1, w2.drop_last());
        assert((w1 + w2).drop_last() =~= w1 + w2.drop_last());
        assert((w1 + w2).last() == w2.last());
    }
}

proof fn lemma_split_weight(w: Seq<Edge>, p: int)
    requires
        0 <= p <= w.len(),
    ensures
        walk_weight(w) == walk_weight(w.subrange(0, p)) + walk_weight(w.subrange(p, w.len() as int)),
    decreases w.len(),
{
    if p == w.len() {
        assert(w.subrange(0, p) =~= w);
        assert(w.subrange(p, w.len() as int) =~= Seq::<Edge>::empty());
    } else {
        let d = w.drop_last();
        lemma_split_weight(d, p);
        assert(d.subrange(0, p) =~= w.subrange(0, p));
        assert(w.subrange(p, w.len() as int).drop_last() =~= d.subrange(p, d.len() as int));
        assert(w.subrange(p, w.len() as int).last() == w.last());
    }
}

/// `v` is what Floyd–Warshall holds for `i` and `j` once the nodes below `k` may be
/// passed through: the least weight of such a walk, when that fits in `u64`.
spec fn bounds_below(g: GraphView, i: int, j: int, k: int, v: Option<u64>) -> bool {
    match v {
        Some(d) => (exists|w: Seq<Edge>|
            #[trigger] is_walk(g, i, j, w) && inner_below(w, k) && walk_weight(w) == d) && forall|w: Seq<Edge>|
            #[trigger] is_walk(g, i, j, w) && inner_below(w, k) && walk_weight(w) <= u64::MAX ==> d <= walk_weight(w),
        None => forall|w: Seq<Edge>| #[trigger] is_walk(g, i, j, w) && inner_below(w, k) ==> walk_weight(w) > u64::MAX,
    }
}

/// The better of going directly and going through `k`.
spec fn combine(vij: Option<u64>, vik: Option<u64>, vkj: Option<u64>) -> Option<u64> {
    let through = match (vik, vkj) {
        (Some(a), Some(b)) => if a + b <= u64::MAX {
            Some((a + b) as u64)
        } else {
            None
        },
        _ => None,
    };
    match (vij, through) {
        (Some(x), Some(y)) => if y < x {
            Some(y)
        } else {
            Some(x)
        },
        (None, t) => t,
        (x, None) => x,
    }
}

proof fn lemma_first_hit(w: Seq<Edge>, k: int, x: int)
    requires
        0 <= x < w.len() - 1,
        w[x].b.slot == k,
    ensures
        exists|f: int|
            0 <= f <= x && (#[trigger] w[f]).b.slot == k && forall|y: int| 0 <= y < f ==> (#[trigger] w[y]).b.slot != k,
    decreases x,
{
    if exists|y: int| 0 <= y < x && (#[trigger] w[y]).b.slot == k {
        let y = choose|y: int| 0 <= y < x && (#[trigger] w[y]).b.slot == k;
        lemma_first_hit(w, k, y);
    } else {
        assert(w[x].b.slot == k);
    }
}

proof fn lemma_last_hit(w: Seq<Edge>, k: int, x: int)
    requires
        0 <= x < w.len() - 1,
        w[x].b.slot == k,
    ensures
        exists|l: int|
            x <= l < w.len() - 1 && (#[trigger] w[l]).b.slot == k && forall|y: int|
                l < y < w.len() - 1 ==> (#[trigger] w[y]).b.slot != k,
    decreases w.len() - x,
{
    if exists|y: int| x < y < w.len() - 1 && (#[trigger] w[y]).b.slot == k {
        let y = choose|y: int| x < y < w.len() - 1 && (#[trigger] w[y]).b.slot == k;
        lemma_last_hit(w, k, y);
    } else {
        assert(w[x].b.slot == k);
    }
}

/// Two walks through nodes below `k`, joined at `k`, pass only through nodes below `k + 1`.
proof fn lemma_join(g: GraphView, i: int, k: int, j: int, w1: Seq<Edge>, w2: Seq<Edge>)
    requires
        is_walk(g, i, k, w1),
        is_walk(g, k, j, w2),
        inner_below(w1, k),
        inner_below(w2, k),
    ensures
        is_walk(g, i, j, w1 + w2),
        inner_below(w1 + w2, k + 1),
        walk_weight(w1 + w2) == walk_weight(w1) + walk_weight(w2),
{
    lemma_concat(g, i, k, j, w1, w2);
    let w = w1 + w2;
    assert forall|x: int| 0 <= x < w.len() - 1 implies (#[trigger] w[x]).b.slot < k + 1 by {
        if x < w1.len() - 1 {
            assert(w[x] == w1[x]);
        } else if x == w1.len() - 1 {
            assert(w[x] == w1.last());
            lemma_walk_last(g, i, k, w1);
        } else {
            assert(w[x] == w2[x - w1.len()]);
        }
    }
}

/// A walk that passes through `k` (and otherwise only below `k + 1`) contains a walk to
/// `k` and a walk from `k`, both through nodes below `k`, that weigh no more together.
#[verifier::rlimit(40)]
proof fn lemma_split_at(g: GraphView, i: int, j: int, k: int, w: Seq<Edge>, x: int)
    requires
        g.well_formed(),
        is_walk(g, i, j, w),
        inner_below(w, k + 1),
        0 <= x < w.len() - 1,
        w[x].b.slot == k,
    ensures
        exists|pre: Seq<Edge>, post: Seq<Edge>|
            #[trigger] is_walk(g, i, k, pre) && #[trigger] is_walk(g, k, j, post) && inner_below(pre, k) && inner_below(
                post,
                k,
            ) && walk_weight(pre) + walk_weight(post) <= walk_weight(w),
{
    lemma_first_hit(w, k, x);
    lemma_last_hit(w, k, x);
    let f = choose|f: int|
        0 <= f <= x && (#[trigger] w[f]).b.slot == k && forall|y: int| 0 <= y < f ==> (#[trigger] w[y]).b.slot != k;
    let l = choose|l: int|
        x <= l < w.len() - 1 && (#[trigger] w[l]).b.slot == k && forall|y: int|
            l < y < w.len() - 1 ==> (#[trigger] w[y]).b.slot != k;
    let pre = w.subrange(0, f + 1);
    let tail = w.subrange(f + 1, w.len() as int);
    let post = w.subrange(l + 1, w.len() as int);
    lemma_prefix(g, i, j, w, f + 1);
    lemma_suffix(g, i, j, w, l + 1);
    assert forall|y: int| 0 <= y < pre.len() - 1 implies (#[trigger] pre[y]).b.slot < k by {
        assert(pre[y] == w[y]);
    }
    assert forall|y: int| 0 <= y < post.len() - 1 implies (#[trigger] post[y]).b.slot < k by {
        assert(post[y] == w[l + 1 + y]);
    }
    lemma_split_weight(w, f + 1);
    lemma_split_weight(tail, l - f);
    assert(tail.subrange(l - f, tail.len() as int) =~= post);
    assert(is_walk(g, i, k, pre) && is_walk(g, k, j, post));
}

/// The Floyd–Warshall update keeps its meaning when `k` joins the nodes that may be
/// passed through.
proof fn lemma_step(
    g: GraphView,
    i: int,
    j: int,
    k: int,
    vij: Option<u64>,
    vik: Option<u64>,
    vkj: Option<u64>,
)
    requires
        g.well_formed(),
        0 <= k,
        bounds_below(g, i, j, k, vij),
        bounds_below(g, i, k, k, vik),
        bounds_below(g, k, j, k, vkj),
    ensures
        bounds_below(g, i, j, k + 1, combine(vij, vik, vkj)),
{
    let r = combine(vij, vik, vkj);
    if vik is Some && vkj is Some && vik->Some_0 + vkj->Some_0 <= u64::MAX {
        let w1 = choose|w: Seq<Edge>| #[trigger] is_walk(g, i, k, w) && inner_below(w, k) && walk_weight(w) == vik->Some_0;
        let w2 = choose|w: Seq<Edge>| #[trigger] is_walk(g, k, j, w) && inner_below(w, k) && walk_weight(w) == vkj->Some_0;
        lemma_join(g, i, k, j, w1, w2);
    }
    if vij is Some {
        let w0 = choose|w: Seq<Edge>| #[trigger] is_walk(g, i, j, w) && inner_below(w, k) && walk_weight(w) == vij->Some_0;
        assert(inner_below(w0, k + 1));
    }
    assert forall|w: Seq<Edge>| #[trigger] is_walk(g, i, j, w) && inner_below(w, k + 1) && walk_weight(w) <= u64::MAX
        implies r is Some && r->Some_0 <= walk_weight(w) by {
        if exists|x: int| 0 <= x < w.len() - 1 && (#[trigger] w[x]).b.slot == k {
            let x = choose|x: int| 0 <= x < w.len() - 1 && (#[trigger] w[x]).b.slot == k;
            lemma_split_at(g, i, j, k, w, x);
            let (pre, post) = choose|pre: Seq<Edge>, post: Seq<Edge>|
                #[trigger] is_walk(g, i, k, pre) && #[trigger] is_walk(g, k, j, post) && inner_below(pre, k)
                    && inner_below(post, k) && walk_weight(pre) + walk_weight(post) <= walk_weight(w);
            assert(vik is Some && vik->Some_0 <= walk_weight(pre));
            assert(vkj is Some && vkj->Some_0 <= walk_weight(post));
        } else {
            assert(inner_below(w, k));
        }
    }
    if r is None {
        assert forall|w: Seq<Edge>| #[trigger] is_walk(g, i, j, w) && inner_below(w, k + 1) implies walk_weight(w)
            > u64::MAX by {
            if walk_weight(w) <= u64::MAX {
                assert(r is Some);
            }
        }
    }
}

proof fn lemma_walk_last(g: GraphView, s: int, t: int, w: Seq<Edge>)
    requires
        is_walk(g, s, t, w),
        w.len() > 0,
    ensures
        w.last().b.slot == t,
{
}

/// `e`, read from `i`, leads to `j`.
spec fn leads(e: Edge, i: int, j: int) -> bool {
    (e.a.slot == i && e.b.slot == j) || (e.b.slot == i && e.a.slot == j)
}

/// `row` holds, for each `j`, the lightest of the first `q` edges from `i` to `j`
/// (zero for `i` itself).
spec fn row_inv(g: GraphView, i: int, row: Seq<Option<u64>>, q: int) -> bool {
    &&& row.len() == g.nodes.len()
    &&& forall|j: int|
        0 <= j < row.len() ==> {
            &&& (#[trigger] row[j]) is Some ==> (i == j && g.live(i) && row[j]->Some_0 == 0) || exists|e: int|
                0 <= e < q && leads(g.edges[e], i, j) && g.edges[e].weight == row[j]->Some_0
            &&& i == j && g.live(i) ==> row[j] == Some(0u64)
            &&& forall|e: int|
                0 <= e < q && leads(#[trigger] g.edges[e], i, j) ==> row[j] is Some && row[j]->Some_0
                    <= g.edges[e].weight
        }
}

/// Lowers `row[j]` to `w` if that is smaller.
fn lower_to(row: &mut Vec<Option<u64>>, j: usize, w: u64)
    requires
        j < old(row)@.len(),
    ensures
        final(row)@ == old(row)@.update(
            j as int,
            match old(row)@[j as int] {
                Some(d) => if w < d {
                    Some(w)
                } else {
                    Some(d)
                },
                None => Some(w),
            },
        ),
{
    let better = match row[j] {
        Some(d) => w < d,
        None => true,
    };
    if better {
        row.set(j, Some(w));
    } else {
        proof {
            assert(old(row)@.update(j as int, old(row)@[j as int]) =~= old(row)@);
        }
    }
}

/// The distances from `i` that use at most one edge.
fn first_row(g: &Graph, i: usize) -> (row: Vec<Option<u64>>)
    requires
        g@.well_formed(),
        i < g@.nodes.len(),
    ensures
        row_inv(g@, i as int, row@, g@.edges.len() as int),
{
    let n = g.slot_count();
    let edges = g.edge_list();
    let ghost gv = g@;
    let mut row: Vec<Option<u64>> = Vec::new();
    let mut j: usize = 0;
    while j < n
        invariant
            n == gv.nodes.len(),
            j <= n,
            row@.len() == j,
            forall|x: int| 0 <= x < j ==> (#[trigger] row@[x]) is None,
        decreases n - j,
    {
        row.push(None);
        j = j + 1;
    }
    if g.contains(NodeId { slot: i }) {
        row.set(i, Some(0));
    }
    let mut q: usize = 0;
    while q < edges.len()
        invariant
            gv == g@,
            gv.well_formed(),
            edges@ == gv.edges,
            n == gv.nodes.len(),
            i < n,
            q <= edges@.len(),
            row_inv(gv, i as int, row@, q as int),
        decreases edges.len() - q,
    {
        let e = edges[q];
        let ghost r0 = row@;
        proof {
            assert(gv.edges[q as int] == e);
            assert(gv.live(e.a.slot as int) && gv.live(e.b.slot as int));
        }
        if e.a.slot == i {
            lower_to(&mut row, e.b.slot, e.weight);
        }
        let ghost r1 = row@;
        if e.b.slot == i {
            lower_to(&mut row, e.a.slot, e.weight);
        }
        proof {
            assert forall|j: int| 0 <= j < row@.len() implies {
                &&& (#[trigger] row@[j]) is Some ==> (i == j && gv.live(i as int) && row@[j]->Some_0 == 0) || exists|x: int|
                    0 <= x < q + 1 && leads(gv.edges[x], i as int, j) && gv.edges[x].weight == row@[j]->Some_0
                &&& i == j && gv.live(i as int) ==> row@[j] == Some(0u64)
                &&& forall|x: int|
                    0 <= x < q + 1 && leads(#[trigger] gv.edges[x], i as int, j) ==> row@[j] is Some && row@[j]->Some_0
                        <= gv.edges[x].weight
            } by {
                assert(r0[j] is Some ==> r1[j] is Some && r1[j]->Some_0 <= r0[j]->Some_0);
                assert(r1[j] is Some ==> row@[j] is Some && row@[j]->Some_0 <= r1[j]->Some_0);
                if row@[j] is Some && row@[j] != r0[j] {
                    assert(leads(gv.edges[q as int], i as int, j) && gv.edges[q as int].weight == row@[j]->Some_0);
                }
                if i == j && gv.live(i as int) {
                    assert(r0[j] == Some(0u64));
                }
                assert forall|x: int|
                    0 <= x < q + 1 && leads(#[trigger] gv.edges[x], i as int, j) implies row@[j] is Some
                        && row@[j]->Some_0 <= gv.edges[x].weight by {
                    if x < q {
                        assert(r0[j] is Some && r0[j]->Some_0 <= gv.edges[x].weight);
                    }
                }
            }
        }
        q = q + 1;
    }
    row
}

/// Walks that pass through no node at all are the empty walk and single edges.
proof fn lemma_row_bounds(g: GraphView, i: int, row: Seq<Option<u64>>, j: int)
    requires
        g.well_formed(),
        row_inv(g, i, row, g.edges.len() as int),
        0 <= j < row.len(),
    ensures
        bounds_below(g, i, j, 0, row[j]),
{
    reveal_with_fuel(is_walk, 2);
    assert(row[j] is Some ==> (i == j && g.live(i) && row[j]->Some_0 == 0) || exists|e: int|
        0 <= e < g.edges.len() && leads(g.edges[e], i, j) && g.edges[e].weight == row[j]->Some_0);
    if row[j] is Some {
        let d = row[j]->Some_0;
        if i == j && g.live(i) && d == 0 {
            let empty = Seq::<Edge>::empty();
            assert(is_walk(g, i, j, empty) && inner_below(empty, 0) && walk_weight(empty) == d);
        } else {
            let e = choose|e: int| 0 <= e < g.edges.len() && leads(g.edges[e], i, j) && g.edges[e].weight == d;
            let ge = g.edges[e];
            let o = if ge.a.slot == i { ge } else { flip(ge) };
            assert(g.edges[e] == o || g.edges[e] == flip(o));
            assert(usable(g, o));
            assert(g.live(ge.a.slot as int) && g.live(ge.b.slot as int));
            let w = seq![o];
            assert(o.a.slot == i && o.b.slot == j);
            assert(w.drop_last() =~= Seq::<Edge>::empty());
            assert(w.last() == o);
            assert(is_walk(g, i, o.a.slot as int, w.drop_last()));
            assert(walk_weight(w) == walk_weight(w.drop_last()) + o.weight);
            assert(is_walk(g, i, j, w) && inner_below(w, 0) && walk_weight(w) == d);
        }
    }
    assert forall|w: Seq<Edge>| #[trigger] is_walk(g, i, j, w) && inner_below(w, 0) implies row[j] is Some && row[j]->Some_0
        <= walk_weight(w) by {
        if w.len() >= 2 {
            assert(w[0].b.slot < 0);
        } else if w.len() == 0 {
            assert(row[j] == Some(0u64));
        } else {
            assert(w.drop_last() =~= Seq::<Edge>::empty());
            let o = w[0];
            assert(o == w.last());
            let e = choose|e: int| 0 <= e < g.edges.len() && (#[trigger] g.edges[e] == o || g.edges[e] == flip(o));
            assert(leads(g.edges[e], i, j));
            assert(walk_weight(w) == o.weight);
        }
    }
}

/// Once every node may be passed through, what is held is the reported distance.
proof fn lemma_all_below(g: GraphView, i: int, j: int, v: Option<u64>)
    requires
        g.well_formed(),
        bounds_below(g, i, j, g.nodes.len() as int, v),
    ensures
        v == fitted_distance(g, i, j),
{
    let n = g.nodes.len() as int;
    assert forall|w: Seq<Edge>| #[trigger] is_walk(g, i, j, w) implies inner_below(w, n) by {
        lemma_walk_steps(g, i, j, w);
        assert forall|x: int| 0 <= x < w.len() - 1 implies (#[trigger] w[x]).b.slot < n by {
            assert(usable(g, w[x]));
            let e = choose|e: int| 0 <= e < g.edges.len() && (#[trigger] g.edges[e] == w[x] || g.edges[e] == flip(w[x]));
            assert(g.live(g.edges[e].a.slot as int) && g.live(g.edges[e].b.slot as int));
        }
    }
    match v {
        Some(d) => {
            let w = choose|w: Seq<Edge>| #[trigger] is_walk(g, i, j, w) && inner_below(w, n) && walk_weight(w) == d;
            assert(reaches(g, i, j, d as int));
            lemma_fitted_from_bounds(g, i, j, d);
        },
        None => {
            lemma_fitted_none(g, i, j);
        },
    }
}

fn combine_exec(vij: Option<u64>, vik: Option<u64>, vkj: Option<u64>) -> (r: Option<u64>)
    ensures
        r == combine(vij, vik, vkj),
{
    let through = match (vik, vkj) {
        (Some(a), Some(b)) => a.checked_add(b),
        _ => None,
    };
    match (vij, through) {
        (Some(x), Some(y)) => if y < x {
            Some(y)
        } else {
            Some(x)
        },
        (None, t) => t,
        (x, None) => x,
    }
}

/// Shortest distances between every ordered pair of slots, by Floyd–Warshall:
/// `m[s][t]` is the distance from `s` to `t` (`None` where unreachable or absent).
pub fn all_pairs_distances(g: &Graph) -> (m: Vec<Vec<Option<u64>>>)
    requires
        g@.well_formed(),
    ensures
        m@.len() == g@.nodes.len(),
        forall|s: int| 0 <= s < m@.len() ==> (#[trigger] m@[s])@.len() == g@.nodes.len(),
        forall|s: int, t: int|
            0 <= s < m@.len() && 0 <= t < g@.nodes.len() ==> #[trigger] m@[s]@[t] == fitted_distance(g@, s, t),
{
    let n = g.slot_count();
    let ghost gv = g@;
    let mut m: Vec<Vec<Option<u64>>> = Vec::new();
    let mut i: usize = 0;
    while i < n
        invariant
            gv == g@,
            gv.well_formed(),
            n == gv.nodes.len(),
            i <= n,
            m@.len() == i,
            forall|a: int| 0 <= a < i ==> (#[trigger] m@[a])@.len() == n,
            forall|a: int, b: int| 0 <= a < i && 0 <= b < n ==> bounds_below(gv, a, b, 0, #[trigger] m@[a]@[b]),
        decreases n - i,
    {
        let row = first_row(g, i);
        proof {
            assert forall|b: int| 0 <= b < n implies bounds_below(gv, i as int, b, 0, #[trigger] row@[b]) by {
                lemma_row_bounds(gv, i as int, row@, b);
            }
        }
        m.push(row);
        i = i + 1;
    }
    let mut k: usize = 0;
    while k < n
        invariant
            gv == g@,
            gv.well_formed(),
            n == gv.nodes.len(),
            k <= n,
            m@.len() == n,
            forall|a: int| 0 <= a < n ==> (#[trigger] m@[a])@.len() == n,
            forall|a: int, b: int| 0 <= a < n && 0 <= b < n ==> bounds_below(gv, a, b, k as int, #[trigger] m@[a]@[b]),
        decreases n - k,
    {
        let mut next: Vec<Vec<Option<u64>>> = Vec::new();
        let mut a: usize = 0;
        while a < n
            invariant
                gv == g@,
                gv.well_formed(),
                n == gv.nodes.len(),
                k < n,
                a <= n,
                m@.len() == n,
                forall|x: int| 0 <= x < n ==> (#[trigger] m@[x])@.len() == n,
                forall|x: int, y: int| 0 <= x < n && 0 <= y < n ==> bounds_below(gv, x, y, k as int, #[trigger] m@[x]@[y]),
                next@.len() == a,
                forall|x: int| 0 <= x < a ==> (#[trigger] next@[x])@.len() == n,
                forall|x: int, y: int|
                    0 <= x < a && 0 <= y < n ==> bounds_below(gv, x, y, k + 1, #[trigger] next@[x]@[y]),
            decreases n - a,
        {
            let mut row: Vec<Option<u64>> = Vec::new();
            let mut b: usize = 0;
            while b < n
                invariant
                    gv == g@,
                    gv.well_formed(),
                    n == gv.nodes.len(),
                    k < n,
                    a < n,
                    b <= n,
                    m@.len() == n,
                    forall|x: int| 0 <= x < n ==> (#[trigger] m@[x])@.len() == n,
                    forall|x: int, y: int|
                        0 <= x < n && 0 <= y < n ==> bounds_below(gv, x, y, k as int, #[trigger] m@[x]@[y]),
                    row@.len() == b,
                    forall|y: int| 0 <= y < b ==> bounds_below(gv, a as int, y, k + 1, #[trigger] row@[y]),
                decreases n - b,
            {
                let v = combine_exec(m[a][b], m[a][k], m[k][b]);
                proof {
                    lemma_step(gv, a as int, b as int, k as int, m@[a as int]@[b as int], m@[a as int]@[k as int], m@[k as int]@[b as int]);
                }
                row.push(v);
                b = b + 1;
            }
            next.push(row);
            a = a + 1;
        }
        m = next;
        k = k + 1;
    }
    proof {
        assert forall|s: int, t: int| 0 <= s < n && 0 <= t < n implies #[trigger] m@[s]@[t] == fitted_distance(gv, s, t) by {
            lemma_all_below(gv, s, t, m@[s]@[t]);
        }
    }
    m
}

} // verus!
