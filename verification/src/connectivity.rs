//! Connected components of an undirected graph on vertices `0..n`, given as
//! a list of edges (index pairs). Used for alert clusters (H⁰) and for the
//! components of an event complex.

use vstd::prelude::*;

verus! {

/// The edge list seen as pairs of mathematical integers.
pub open spec fn int_edges(edges: Seq<(usize, usize)>) -> Seq<(int, int)> {
    edges.map_values(|e: (usize, usize)| (e.0 as int, e.1 as int))
}

/// Edge `e` joins `a` and `b` (in either direction).
pub open spec fn joins(edges: Seq<(int, int)>, e: int, a: int, b: int) -> bool {
    (edges[e].0 == a && edges[e].1 == b) || (edges[e].0 == b && edges[e].1 == a)
}

/// Some edge joins `a` and `b`.
pub open spec fn adjacent(edges: Seq<(int, int)>, a: int, b: int) -> bool {
    exists|e: int| 0 <= e < edges.len() && #[trigger] joins(edges, e, a, b)
}

/// Consecutive vertices `p[k]` and `p[k + 1]` of a walk are adjacent.
pub open spec fn step_ok(edges: Seq<(int, int)>, p: Seq<int>, k: int) -> bool {
    adjacent(edges, p[k], p[k + 1])
}

/// `p` is a nonempty walk in the graph on `0..n`.
pub open spec fn is_walk(n: int, edges: Seq<(int, int)>, p: Seq<int>) -> bool {
    &&& p.len() > 0
    &&& forall|k: int| 0 <= k < p.len() ==> 0 <= #[trigger] p[k] < n
    &&& forall|k: int| 0 <= k < p.len() - 1 ==> #[trigger] step_ok(edges, p, k)
}

/// `a` and `b` lie in the same connected component.
pub open spec fn linked(n: int, edges: Seq<(int, int)>, a: int, b: int) -> bool {
    exists|p: Seq<int>| #[trigger] is_walk(n, edges, p) && p[0] == a && p[p.len() - 1] == b
}

/// `i` is the smallest vertex of its component.
pub open spec fn is_leader(n: int, edges: Seq<(int, int)>, i: int) -> bool {
    forall|j: int| 0 <= j < i ==> !#[trigger] linked(n, edges, j, i)
}

/// Number of components among the vertices `0..m` counted by their leaders.
pub open spec fn leaders_below(n: int, edges: Seq<(int, int)>, m: int) -> nat
    decreases m,
{
    if m <= 0 {
        0
    } else {
        leaders_below(n, edges, m - 1) + if is_leader(n, edges, m - 1) {
            1nat
        } else {
            0nat
        }
    }
}

/// Number of connected components of the graph on `0..n`.
pub open spec fn component_count(n: int, edges: Seq<(int, int)>) -> nat {
    leaders_below(n, edges, n)
}

/// Every edge of the list stays inside `0..n`.
pub open spec fn edges_within(n: int, edges: Seq<(usize, usize)>) -> bool {
    forall|e: int| 0 <= e < edges.len() ==> (#[trigger] edges[e]).0 < n && edges[e].1 < n
}

/// Every vertex is linked to itself.
pub proof fn lemma_linked_refl(n: int, edges: Seq<(int, int)>, a: int)
    requires
        0 <= a < n,
    ensures
        linked(n, edges, a, a),
{
    let p = seq![a];
    assert(is_walk(n, edges, p));
}

/// Adjacent vertices are linked.
pub proof fn lemma_adjacent_linked(n: int, edges: Seq<(int, int)>, a: int, b: int)
    requires
        0 <= a < n,
        0 <= b < n,
        adjacent(edges, a, b),
    ensures
        linked(n, edges, a, b),
{
    let p = seq![a, b];
    assert(step_ok(edges, p, 0));
    assert(is_walk(n, edges, p));
}

/// Linkage is symmetric.
pub proof fn lemma_linked_sym(n: int, edges: Seq<(int, int)>, a: int, b: int)
    requires
        linked(n, edges, a, b),
    ensures
        linked(n, edges, b, a),
{
    let p = choose|p: Seq<int>| #[trigger] is_walk(n, edges, p) && p[0] == a && p[p.len() - 1] == b;
    let len = p.len();
    let q = Seq::new(len as nat, |k: int| p[len - 1 - k]);
    assert forall|k: int| 0 <= k < q.len() - 1 implies #[trigger] step_ok(edges, q, k) by {
        let j = len - 2 - k;
        assert(step_ok(edges, p, j));
        let e = choose|e: int| 0 <= e < edges.len() && #[trigger] joins(edges, e, p[j], p[j + 1]);
        assert(joins(edges, e, q[k], q[k + 1]));
    }
    assert(is_walk(n, edges, q));
}

/// Linkage is transitive.
pub proof fn lemma_linked_trans(n: int, edges: Seq<(int, int)>, a: int, b: int, c: int)
    requires
        linked(n, edges, a, b),
        linked(n, edges, b, c),
    ensures
        linked(n, edges, a, c),
{
    let p = choose|p: Seq<int>| #[trigger] is_walk(n, edges, p) && p[0] == a && p[p.len() - 1] == b;
    let q = choose|q: Seq<int>| #[trigger] is_walk(n, edges, q) && q[0] == b && q[q.len() - 1] == c;
    let r = p + q.skip(1);
    assert forall|k: int| 0 <= k < r.len() - 1 implies #[trigger] step_ok(edges, r, k) by {
        if k < p.len() - 1 {
            assert(step_ok(edges, p, k));
        } else if k == p.len() - 1 {
            assert(step_ok(edges, q, 0));
        } else {
            let j = k - p.len() + 1;
            assert(step_ok(edges, q, j));
        }
    }
    assert forall|k: int| 0 <= k < r.len() implies 0 <= #[trigger] r[k] < n by {
        if k < p.len() {
            assert(0 <= p[k] < n);
        } else {
            assert(0 <= q[k - p.len() + 1] < n);
        }
    }
    assert(is_walk(n, edges, r));
}

/// When every edge joins vertices of equal label, every walk stays inside
/// one label.
proof fn lemma_walk_keeps_label(
    n: int,
    edges: Seq<(int, int)>,
    labels: Seq<usize>,
    p: Seq<int>,
    k: int,
)
    requires
        is_walk(n, edges, p),
        0 <= k < p.len(),
        labels.len() == n,
        forall|e: int|
            0 <= e < edges.len() ==> 0 <= (#[trigger] edges[e]).0 < n && 0 <= edges[e].1 < n
                && labels[edges[e].0] == labels[edges[e].1],
    ensures
        labels[p[0]] == labels[p[k]],
    decreases k,
{
    if k > 0 {
        lemma_walk_keeps_label(n, edges, labels, p, k - 1);
        assert(step_ok(edges, p, k - 1));
        let e = choose|e: int| 0 <= e < edges.len() && #[trigger] joins(edges, e, p[k - 1], p[k]);
        assert(0 <= edges[e].0 < n);
    }
}

/// Labels `labels` of the vertices `0..n` such that two vertices have the
/// same label exactly when they are linked.
pub fn component_labels(n: usize, edges: &Vec<(usize, usize)>) -> (labels: Vec<usize>)
    requires
        edges_within(n as int, edges@),
    ensures
        labels.len() == n,
        forall|a: int, b: int|
            0 <= a < n && 0 <= b < n ==> (labels[a] == labels[b] <==> linked(
                n as int,
                int_edges(edges@),
                a,
                b,
            )),
{
    let ghost g = int_edges(edges@);
    let mut labels: Vec<usize> = Vec::new();
    let mut i: usize = 0;
    while i < n
        invariant
            i <= n,
            labels.len() == i,
            forall|k: int| 0 <= k < i ==> labels[k] == k,
        decreases n - i,
    {
        labels.push(i);
        i = i + 1;
    }
    proof {
        assert forall|a: int, b: int|
            0 <= a < n && 0 <= b < n && labels[a] == labels[b] implies linked(n as int, g, a, b) by {
            lemma_linked_refl(n as int, g, a);
        }
    }
    let mut e: usize = 0;
    while e < edges.len()
        invariant
            g == int_edges(edges@),
            edges_within(n as int, edges@),
            e <= edges.len(),
            labels.len() == n,
            forall|a: int, b: int|
                0 <= a < n && 0 <= b < n && labels[a] == labels[b] ==> linked(n as int, g, a, b),
            forall|f: int|
                0 <= f < e ==> labels[(#[trigger] edges@[f]).0 as int] == labels[edges@[f].1 as int],
        decreases edges.len() - e,
    {
        let (u, v) = edges[e];
        let lu: usize = labels[u];
        let lv: usize = labels[v];
        if lu != lv {
            let ghost old_labels = labels@;
            proof {
                assert(joins(g, e as int, u as int, v as int));
                lemma_adjacent_linked(n as int, g, u as int, v as int);
            }
            let mut j: usize = 0;
            while j < n
                invariant
                    j <= n,
                    labels.len() == n,
                    old_labels.len() == n,
                    forall|k: int|
                        0 <= k < j ==> labels[k] == (if old_labels[k] == lv {
                            lu
                        } else {
                            old_labels[k]
                        }),
                    forall|k: int| j <= k < n ==> labels[k] == old_labels[k],
                decreases n - j,
            {
                if labels[j] == lv {
                    labels.set(j, lu);
                }
                j = j + 1;
            }
            proof {
                assert(old_labels[u as int] == lu);
                assert(old_labels[v as int] == lv);
                assert forall|a: int, b: int|
                    0 <= a < n && 0 <= b < n && labels[a] == labels[b] implies linked(
                    n as int,
                    g,
                    a,
                    b,
                ) by {
                    let oa = old_labels[a];
                    let ob = old_labels[b];
                    if oa == lv && ob != lv {
                        // a ~ v ~ u ~ b
                        assert(ob == lu);
                        lemma_linked_sym(n as int, g, u as int, v as int);
                        lemma_linked_trans(n as int, g, a, v as int, u as int);
                        lemma_linked_trans(n as int, g, a, u as int, b);
                    } else if oa != lv && ob == lv {
                        assert(oa == lu);
                        lemma_linked_trans(n as int, g, a, u as int, v as int);
                        lemma_linked_trans(n as int, g, a, v as int, b);
                    }
                }
                assert forall|f: int| 0 <= f < e + 1 implies labels[(#[trigger] edges@[f]).0 as int]
                    == labels[edges@[f].1 as int] by {
                    if f < e {
                        assert(old_labels[edges@[f].0 as int] == old_labels[edges@[f].1 as int]);
                    }
                }
            }
        }
        e = e + 1;
    }
    proof {
        assert forall|a: int, b: int|
            0 <= a < n && 0 <= b < n && linked(n as int, g, a, b) implies labels[a] == labels[b] by {
            let p = choose|p: Seq<int>|
                #[trigger] is_walk(n as int, g, p) && p[0] == a && p[p.len() - 1] == b;
            assert forall|f: int| 0 <= f < g.len() implies 0 <= (#[trigger] g[f]).0 < n && 0
                <= g[f].1 < n && labels@[g[f].0] == labels@[g[f].1] by {
                assert(g[f] == (edges@[f].0 as int, edges@[f].1 as int));
                assert(edges@[f].0 < n);
            }
            lemma_walk_keeps_label(n as int, g, labels@, p, p.len() - 1);
        }
    }
    labels
}

/// The number of distinct labels, counted by their first occurrence, equals
/// the number of components.
pub fn count_components(n: usize, edges: &Vec<(usize, usize)>) -> (count: usize)
    requires
        edges_within(n as int, edges@),
    ensures
        count == component_count(n as int, int_edges(edges@)),
{
    let ghost g = int_edges(edges@);
    let labels = component_labels(n, edges);
    let mut count: usize = 0;
    let mut i: usize = 0;
    while i < n
        invariant
            g == int_edges(edges@),
            labels.len() == n,
            i <= n,
            count <= i,
            count == leaders_below(n as int, g, i as int),
            forall|a: int, b: int|
                0 <= a < n && 0 <= b < n ==> (labels[a] == labels[b] <==> linked(n as int, g, a, b)),
        decreases n - i,
    {
        let mut first: bool = true;
        let mut j: usize = 0;
        while j < i
            invariant
                j <= i,
                i < n,
                labels.len() == n,
                first == (forall|k: int| 0 <= k < j ==> labels[k] != labels[i as int]),
            decreases i - j,
        {
            if labels[j] == labels[i] {
                first = false;
            }
            j = j + 1;
        }
        proof {
            if first {
                assert forall|k: int| 0 <= k < i implies !#[trigger] linked(n as int, g, k, i as int) by {
                    assert(labels[k] != labels[i as int]);
                }
                assert(is_leader(n as int, g, i as int));
            } else {
                let k = choose|k: int| 0 <= k < i && labels[k] == labels[i as int];
                assert(linked(n as int, g, k, i as int));
                assert(!is_leader(n as int, g, i as int));
            }
        }
        if first {
            count = count + 1;
        }
        i = i + 1;
    }
    count
}

/// At most `m` of the first `m` vertices lead their component.
pub proof fn lemma_component_count_bound(n: int, edges: Seq<(int, int)>, m: int)
    ensures
        leaders_below(n, edges, m) <= if m >= 0 {
            m
        } else {
            0
        },
    decreases m,
{
    if m > 0 {
        lemma_component_count_bound(n, edges, m - 1);
    }
}

/// A walk using edges adjacent in `more` is a walk of `more`.
proof fn lemma_walk_in_more(n: int, fewer: Seq<(int, int)>, more: Seq<(int, int)>, p: Seq<int>)
    requires
        forall|e: int| 0 <= e < fewer.len() ==> adjacent(more, #[trigger] fewer[e].0, fewer[e].1),
        is_walk(n, fewer, p),
    ensures
        is_walk(n, more, p),
{
    assert forall|k: int| 0 <= k < p.len() - 1 implies #[trigger] step_ok(more, p, k) by {
        assert(step_ok(fewer, p, k));
        let e = choose|e: int| 0 <= e < fewer.len() && #[trigger] joins(fewer, e, p[k], p[k + 1]);
        assert(adjacent(more, fewer[e].0, fewer[e].1));
        let f = choose|f: int| 0 <= f < more.len() && #[trigger] joins(more, f, fewer[e].0, fewer[e].1);
        assert(joins(more, f, p[k], p[k + 1]));
    }
}

/// A leader of its component in `more` leads its component in `fewer`, so
/// `more` has no more leaders among the first `m` vertices.
proof fn lemma_leaders_fewer(n: int, fewer: Seq<(int, int)>, more: Seq<(int, int)>, m: int)
    requires
        forall|e: int| 0 <= e < fewer.len() ==> adjacent(more, #[trigger] fewer[e].0, fewer[e].1),
    ensures
        leaders_below(n, more, m) <= leaders_below(n, fewer, m),
    decreases m,
{
    if m > 0 {
        lemma_leaders_fewer(n, fewer, more, m - 1);
        if is_leader(n, more, m - 1) {
            assert forall|j: int| 0 <= j < m - 1 implies !#[trigger] linked(n, fewer, j, m - 1) by {
                if linked(n, fewer, j, m - 1) {
                    let p = choose|p: Seq<int>|
                        #[trigger] is_walk(n, fewer, p) && p[0] == j && p[p.len() - 1] == m - 1;
                    lemma_walk_in_more(n, fewer, more, p);
                    assert(linked(n, more, j, m - 1));
                }
            }
        }
    }
}

/// Adding edges never adds components: when every edge of `fewer` joins
/// vertices adjacent in `more`, `more` has at most as many components.
pub proof fn law_more_edges_fewer_components(n: int, fewer: Seq<(int, int)>, more: Seq<(int, int)>)
    requires
        forall|e: int| 0 <= e < fewer.len() ==> adjacent(more, #[trigger] fewer[e].0, fewer[e].1),
    ensures
        component_count(n, more) <= component_count(n, fewer),
{
    lemma_leaders_fewer(n, fewer, more, n);
}

/// A nonempty graph has between one and `n` components: vertex 0 always
/// leads its component.
pub proof fn law_component_count_range(n: int, edges: Seq<(int, int)>)
    requires
        n >= 1,
    ensures
        1 <= component_count(n, edges) <= n,
{
    lemma_component_count_bound(n, edges, n);
    lemma_leaders_at_least_one(n, edges, n);
}

/// Among the first `m >= 1` vertices at least one (vertex 0) leads.
proof fn lemma_leaders_at_least_one(n: int, edges: Seq<(int, int)>, m: int)
    requires
        m >= 1,
    ensures
        leaders_below(n, edges, m) >= 1,
    decreases m,
{
    if m > 1 {
        lemma_leaders_at_least_one(n, edges, m - 1);
    } else {
        assert(is_leader(n, edges, 0));
    }
}

/// Without edges every vertex is its own component: `n` components.
pub proof fn law_no_edges_isolated(n: int, a: int, b: int)
    requires
        0 <= n,
    ensures
        linked(n, Seq::empty(), a, b) ==> a == b,
        component_count(n, Seq::empty()) == n,
{
    if linked(n, Seq::empty(), a, b) {
        let p = choose|p: Seq<int>| #[trigger] is_walk(n, Seq::empty(), p) && p[0] == a && p[p.len() - 1] == b;
        if p.len() > 1 {
            assert(step_ok(Seq::empty(), p, 0));
        }
    }
    lemma_isolated_count(n, n);
}

/// Without edges each of the first `m` vertices leads its component.
proof fn lemma_isolated_count(n: int, m: int)
    requires
        0 <= m <= n,
    ensures
        leaders_below(n, Seq::empty(), m) == m,
    decreases m,
{
    if m > 0 {
        lemma_isolated_count(n, m - 1);
        assert forall|j: int| 0 <= j < m - 1 implies !#[trigger] linked(n, Seq::empty(), j, m - 1) by {
            if linked(n, Seq::empty(), j, m - 1) {
                let p = choose|p: Seq<int>|
                    #[trigger] is_walk(n, Seq::empty(), p) && p[0] == j && p[p.len() - 1] == m - 1;
                assert(step_ok(Seq::empty(), p, 0));
            }
        }
    }
}

} // verus!
