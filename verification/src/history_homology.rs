//! Homology of the PLATO event history: a Vietoris–Rips complex built from
//! the temporal proximity of events, its boundary matrices, Betti numbers
//! and connected components.
//!
//! Which pairs of events are within the proximity threshold is decided by
//! the numeric front end and handed in as a boolean matrix; everything
//! combinatorial from there on happens here.

use vstd::prelude::*;
use crate::connectivity;
use crate::binary64;
use crate::gf2;
use crate::matrix::{self, IntMatrix, entries, column_count, has_shape};

verus! {

/// A PLATO event. `timestamp` is a binary64 bit pattern.
#[derive(Debug, Clone)]
pub struct HistoryEvent {
    pub id: String,
    pub timestamp: u64,
    pub event_type: String,
    pub payload: String,
}

/// A simplex: its vertex indices in strictly increasing order. (A sorted
/// vector stands for a vertex set because the specifications of `BTreeSet`
/// give no order, equality or union to reason with.)
pub type Simplex = Vec<usize>;

/// A simplicial complex built from event history.
#[derive(Debug, Clone)]
pub struct EventComplex {
    /// Vertices (events).
    pub events: Vec<HistoryEvent>,
    /// Simplices, indexed by dimension.
    pub simplices: Vec<Vec<Simplex>>,
}

/// The vertices are strictly increasing.
pub open spec fn increasing(s: Seq<usize>) -> bool {
    forall|i: int, j: int| 0 <= i < j < s.len() ==> #[trigger] s[i] < #[trigger] s[j]
}

/// Lexicographic order of vertex lists (the order of vertex sets).
pub open spec fn simplex_lt(a: Seq<usize>, b: Seq<usize>) -> bool
    decreases a.len(),
{
    if a.len() == 0 {
        b.len() > 0
    } else if b.len() == 0 {
        false
    } else if a[0] != b[0] {
        a[0] < b[0]
    } else {
        simplex_lt(a.drop_first(), b.drop_first())
    }
}

/// The list is sorted strictly increasingly in lexicographic order.
pub open spec fn lex_sorted(l: Seq<Seq<usize>>) -> bool {
    forall|i: int, j: int| 0 <= i < j < l.len() ==> simplex_lt(#[trigger] l[i], #[trigger] l[j])
}

/// Views of a list of simplices.
pub open spec fn simplex_views(l: Seq<Simplex>) -> Seq<Seq<usize>> {
    l.map_values(|s: Simplex| s@)
}

/// The face of `s` opposite its `p`-th vertex.
pub open spec fn face(s: Seq<usize>, p: int) -> Seq<usize> {
    s.remove(p)
}

/// `u` has the `target + 1` vertices of the union of two distinct members
/// of `lower` and every face of `u` is in `lower`, counting only the pairs
/// of members `(a, b)`, `a < b`, that come before `(i, j)`.
pub open spec fn fills_before(
    lower: Seq<Seq<usize>>,
    target: int,
    u: Seq<usize>,
    i: int,
    j: int,
) -> bool {
    &&& increasing(u)
    &&& u.len() == target + 1
    &&& forall|p: int| 0 <= p < u.len() ==> lower.contains(#[trigger] face(u, p))
    &&& exists|a: int, b: int|
        #![trigger lower[a], lower[b]]
        0 <= a < b < lower.len() && (a < i || (a == i && b < j)) && u.to_set() == lower[a].to_set()
            + lower[b].to_set()
}

/// `u` is a `target`-simplex whose faces all lie in `lower` and whose
/// vertices are the union of two members of `lower`.
pub open spec fn fills(lower: Seq<Seq<usize>>, target: int, u: Seq<usize>) -> bool {
    fills_before(lower, target, u, lower.len() as int, 0)
}

/// `next` lists, sorted and without repetition, exactly the simplices
/// that fill `lower` at dimension `target`.
pub open spec fn is_next_level(lower: Seq<Seq<usize>>, target: int, next: Seq<Seq<usize>>) -> bool {
    &&& lex_sorted(next)
    &&& forall|u: Seq<usize>| next.contains(u) <==> fills(lower, target, u)
}

/// The edges `[i, j]`, `i < j < n`, of row `i` with `j < m` whose events
/// are within the threshold.
pub open spec fn row_edges(within: Seq<Vec<bool>>, i: int, m: int) -> Seq<Seq<usize>>
    decreases m,
{
    if m <= 0 || m <= i + 1 {
        Seq::empty()
    } else {
        let rest = row_edges(within, i, m - 1);
        if within[i]@[m - 1] {
            rest.push(seq![i as usize, (m - 1) as usize])
        } else {
            rest
        }
    }
}

/// The edges of the rows `0..m`, row by row.
pub open spec fn edges_upto(within: Seq<Vec<bool>>, n: int, m: int) -> Seq<Seq<usize>>
    decreases m,
{
    if m <= 0 {
        Seq::empty()
    } else {
        edges_upto(within, n, m - 1) + row_edges(within, m - 1, n)
    }
}

/// The sign of the `p`-th face in a boundary.
pub open spec fn face_sign(p: int) -> int {
    if p % 2 == 0 {
        1
    } else {
        -1
    }
}

/// The first position of `x` in `l`, or -1.
pub open spec fn first_pos(l: Seq<Seq<usize>>, x: Seq<usize>) -> int
    decreases l.len(),
{
    if l.len() == 0 {
        -1
    } else {
        let r = first_pos(l.drop_last(), x);
        if r >= 0 {
            r
        } else if l.last() == x {
            l.len() - 1
        } else {
            -1
        }
    }
}

/// The sum of the signs of the faces among the first `m` faces of `s`
/// that are found at position `r` of `lower`.
pub open spec fn face_sum(lower: Seq<Seq<usize>>, s: Seq<usize>, r: int, m: int) -> int
    decreases m,
{
    if m <= 0 {
        0
    } else {
        face_sum(lower, s, r, m - 1) + if first_pos(lower, face(s, m - 1)) == r {
            face_sign(m - 1)
        } else {
            0
        }
    }
}

/// Entry `(r, j)` of the boundary map from the simplices `upper` to the
/// simplices `lower`: the signed count of the faces of `upper[j]` whose
/// first occurrence in `lower` is at position `r`.
pub open spec fn boundary_entry(lower: Seq<Seq<usize>>, upper: Seq<Seq<usize>>, r: int, j: int) -> int {
    face_sum(lower, upper[j], r, upper[j].len() as int)
}

/// The boundary map from `upper` to `lower` reduced mod 2, row by row.
pub open spec fn boundary_bits(lower: Seq<Seq<usize>>, upper: Seq<Seq<usize>>) -> Seq<Seq<bool>> {
    Seq::new(
        lower.len(),
        |r: int| Seq::new(upper.len(), |j: int| boundary_entry(lower, upper, r, j) % 2 != 0),
    )
}

/// `a - b`, or 0 when `b > a`.
pub open spec fn monus(a: int, b: int) -> int {
    if a >= b {
        a - b
    } else {
        0
    }
}

/// The edge list of the complex: the first two vertices of each
/// 1-simplex that has at least two.
pub open spec fn one_skeleton(ones: Seq<Seq<usize>>) -> Seq<(usize, usize)>
    decreases ones.len(),
{
    if ones.len() == 0 {
        Seq::empty()
    } else {
        let rest = one_skeleton(ones.drop_last());
        if ones.last().len() >= 2 {
            rest.push((ones.last()[0], ones.last()[1]))
        } else {
            rest
        }
    }
}

/// Lexicographic order is irreflexive.
pub proof fn lemma_simplex_lt_irreflexive(a: Seq<usize>)
    ensures
        !simplex_lt(a, a),
    decreases a.len(),
{
    if a.len() > 0 {
        lemma_simplex_lt_irreflexive(a.drop_first());
    }
}

/// Lexicographic order is transitive.
pub proof fn lemma_simplex_lt_transitive(a: Seq<usize>, b: Seq<usize>, c: Seq<usize>)
    requires
        simplex_lt(a, b),
        simplex_lt(b, c),
    ensures
        simplex_lt(a, c),
    decreases a.len(),
{
    if a.len() > 0 && b.len() > 0 && c.len() > 0 && a[0] == b[0] && b[0] == c[0] {
        lemma_simplex_lt_transitive(a.drop_first(), b.drop_first(), c.drop_first());
    }
}

/// Distinct vertex lists are ordered one way or the other.
pub proof fn lemma_simplex_lt_total(a: Seq<usize>, b: Seq<usize>)
    requires
        a != b,
    ensures
        simplex_lt(a, b) || simplex_lt(b, a),
    decreases a.len(),
{
    if a.len() > 0 && b.len() > 0 && a[0] == b[0] {
        if a.drop_first() == b.drop_first() {
            assert(a =~= seq![a[0]] + a.drop_first());
            assert(b =~= seq![b[0]] + b.drop_first());
        }
        lemma_simplex_lt_total(a.drop_first(), b.drop_first());
    } else if a.len() == 0 && b.len() == 0 {
        assert(a =~= b);
    }
}

/// Faces of an increasing list are increasing, and distinct positions give
/// distinct faces.
pub proof fn lemma_faces(s: Seq<usize>, p: int, q: int)
    requires
        increasing(s),
        0 <= p < q < s.len(),
    ensures
        increasing(face(s, p)),
        face(s, p) != face(s, q),
{
    assert(face(s, p)[p] == s[p + 1]);
    assert(face(s, q)[p] == s[p]);
}

/// `first_pos` finds `x` exactly when `x` occurs, at its first occurrence.
pub proof fn lemma_first_pos(l: Seq<Seq<usize>>, x: Seq<usize>)
    ensures
        -1 <= first_pos(l, x) < l.len(),
        first_pos(l, x) >= 0 ==> l[first_pos(l, x)] == x,
        first_pos(l, x) >= 0 ==> forall|k: int| 0 <= k < first_pos(l, x) ==> l[k] != x,
        first_pos(l, x) == -1 <==> !l.contains(x),
    decreases l.len(),
{
    if l.len() > 0 {
        lemma_first_pos(l.drop_last(), x);
        let r = first_pos(l.drop_last(), x);
        if r >= 0 {
            assert forall|k: int| 0 <= k < r implies l[k] != x by {
                assert(l.drop_last()[k] == l[k]);
            }
        } else {
            assert forall|k: int| 0 <= k < l.len() - 1 implies l[k] != x by {
                assert(l.drop_last()[k] == l[k]);
            }
        }
        if l.contains(x) && first_pos(l, x) == -1 {
            let k = choose|k: int| 0 <= k < l.len() && l[k] == x;
            assert(l.drop_last()[k] == x);
        }
    }
}

/// Whether two vertex lists are equal.
fn same_simplex(a: &Simplex, b: &Simplex) -> (r: bool)
    ensures
        r == (a@ == b@),
{
    if a.len() != b.len() {
        return false;
    }
    let mut i: usize = 0;
    while i < a.len()
        invariant
            i <= a.len(),
            a.len() == b.len(),
            forall|k: int| 0 <= k < i ==> a@[k] == b@[k],
        decreases a.len() - i,
    {
        if a[i] != b[i] {
            return false;
        }
        i = i + 1;
    }
    proof {
        assert(a@ =~= b@);
    }
    true
}

/// Whether `a` comes before `b` lexicographically.
fn simplex_less(a: &Simplex, b: &Simplex) -> (r: bool)
    ensures
        r == simplex_lt(a@, b@),
{
    let mut i: usize = 0;
    proof {
        assert(a@.skip(0) =~= a@);
        assert(b@.skip(0) =~= b@);
    }
    while i < a.len() && i < b.len()
        invariant
            i <= a.len(),
            i <= b.len(),
            simplex_lt(a@, b@) == simplex_lt(a@.skip(i as int), b@.skip(i as int)),
        decreases a.len() - i,
    {
        if a[i] != b[i] {
            proof {
                assert(a@.skip(i as int)[0] == a@[i as int]);
                assert(b@.skip(i as int)[0] == b@[i as int]);
            }
            return a[i] < b[i];
        }
        proof {
            assert(a@.skip(i as int).drop_first() =~= a@.skip(i + 1));
            assert(b@.skip(i as int).drop_first() =~= b@.skip(i + 1));
        }
        i = i + 1;
    }
    i == a.len() && i < b.len()
}

/// Position of the first member of `list` equal to `x`.
fn position(list: &Vec<Simplex>, x: &Simplex) -> (r: Option<usize>)
    ensures
        r is None ==> first_pos(simplex_views(list@), x@) == -1,
        r matches Some(i) ==> first_pos(simplex_views(list@), x@) == i,
{
    let ghost l = simplex_views(list@);
    let mut i: usize = 0;
    while i < list.len()
        invariant
            i <= list.len(),
            l == simplex_views(list@),
            forall|k: int| 0 <= k < i ==> l[k] != x@,
        decreases list.len() - i,
    {
        if same_simplex(&list[i], x) {
            proof {
                lemma_first_pos(l, x@);
                let f = first_pos(l, x@);
                assert(l.contains(x@)) by {
                    assert(l[i as int] == x@);
                }
                if f < i {
                    assert(l[f] == x@);
                } else if f > i {
                    assert(l[i as int] == x@);
                }
            }
            return Some(i);
        }
        i = i + 1;
    }
    proof {
        lemma_first_pos(l, x@);
        if l.contains(x@) {
            let k = choose|k: int| 0 <= k < l.len() && l[k] == x@;
            assert(l[k] != x@);
        }
    }
    None
}

/// The face of `s` opposite its `p`-th vertex.
fn face_of(s: &Simplex, p: usize) -> (f: Simplex)
    requires
        p < s.len(),
    ensures
        f@ == face(s@, p as int),
{
    let mut f: Simplex = Vec::new();
    let mut i: usize = 0;
    while i < s.len()
        invariant
            i <= s.len(),
            p < s.len(),
            i <= p ==> f@ == s@.take(i as int),
            i > p ==> f@ == s@.take(i as int).remove(p as int),
        decreases s.len() - i,
    {
        if i != p {
            f.push(s[i]);
        }
        proof {
            if i < p {
                assert(f@ =~= s@.take(i + 1));
            } else if i == p {
                assert(s@.take(i + 1).remove(p as int) =~= s@.take(i as int));
            } else {
                assert(f@ =~= s@.take(i + 1).remove(p as int));
            }
        }
        i = i + 1;
    }
    proof {
        assert(s@.take(s@.len() as int) =~= s@);
    }
    f
}

/// The union of two increasing vertex lists, increasing.
fn union_of(a: &Simplex, b: &Simplex) -> (u: Simplex)
    requires
        increasing(a@),
        increasing(b@),
    ensures
        increasing(u@),
        u@.to_set() == a@.to_set() + b@.to_set(),
{
    let mut u: Simplex = Vec::new();
    let mut i: usize = 0;
    let mut j: usize = 0;
    while i < a.len() || j < b.len()
        invariant
            i <= a.len(),
            j <= b.len(),
            increasing(a@),
            increasing(b@),
            increasing(u@),
            u@.to_set() == a@.take(i as int).to_set() + b@.take(j as int).to_set(),
            u@.len() > 0 && i < a.len() ==> u@.last() < a@[i as int],
            u@.len() > 0 && j < b.len() ==> u@.last() < b@[j as int],
        decreases a.len() + b.len() - i - j,
    {
        let ghost ta = a@.take(i as int);
        let ghost tb = b@.take(j as int);
        let ghost prev = u@;
        if j == b.len() || (i < a.len() && a[i] < b[j]) {
            u.push(a[i]);
            proof {
                assert(a@.take(i + 1) =~= ta.push(a@[i as int]));
                ta.lemma_push_to_set_commute(a@[i as int]);
                prev.lemma_push_to_set_commute(a@[i as int]);
                assert(u@.to_set() =~= a@.take(i + 1).to_set() + tb.to_set());
                assert forall|x: int, y: int| 0 <= x < y < u@.len() implies #[trigger] u@[x]
                    < #[trigger] u@[y] by {
                    if y == u@.len() - 1 && x < y {
                        assert(prev[x] <= prev.last());
                    }
                }
            }
            i = i + 1;
        } else if i == a.len() || b[j] < a[i] {
            u.push(b[j]);
            proof {
                assert(b@.take(j + 1) =~= tb.push(b@[j as int]));
                tb.lemma_push_to_set_commute(b@[j as int]);
                prev.lemma_push_to_set_commute(b@[j as int]);
                assert(u@.to_set() =~= ta.to_set() + b@.take(j + 1).to_set());
                assert forall|x: int, y: int| 0 <= x < y < u@.len() implies #[trigger] u@[x]
                    < #[trigger] u@[y] by {
                    if y == u@.len() - 1 && x < y {
                        assert(prev[x] <= prev.last());
                    }
                }
            }
            j = j + 1;
        } else {
            u.push(a[i]);
            proof {
                assert(a@.take(i + 1) =~= ta.push(a@[i as int]));
                assert(b@.take(j + 1) =~= tb.push(b@[j as int]));
                ta.lemma_push_to_set_commute(a@[i as int]);
                tb.lemma_push_to_set_commute(b@[j as int]);
                prev.lemma_push_to_set_commute(a@[i as int]);
                assert(u@.to_set() =~= a@.take(i + 1).to_set() + b@.take(j + 1).to_set());
                assert forall|x: int, y: int| 0 <= x < y < u@.len() implies #[trigger] u@[x]
                    < #[trigger] u@[y] by {
                    if y == u@.len() - 1 && x < y {
                        assert(prev[x] <= prev.last());
                    }
                }
            }
            i = i + 1;
            j = j + 1;
        }
    }
    proof {
        assert(a@.take(a@.len() as int) =~= a@);
        assert(b@.take(b@.len() as int) =~= b@);
    }
    u
}

/// Insert `s` into a list sorted strictly in lexicographic order, keeping
/// it so; a list already present is not added again.
fn insert_simplex(v: &mut Vec<Simplex>, s: Simplex)
    requires
        lex_sorted(simplex_views(old(v)@)),
    ensures
        lex_sorted(simplex_views(final(v)@)),
        simplex_views(final(v)@).to_set() == simplex_views(old(v)@).to_set().insert(s@),
{
    let ghost before = simplex_views(v@);
    let mut i: usize = 0;
    while i < v.len()
        invariant
            v@ == old(v)@,
            before == simplex_views(v@),
            i <= v.len(),
            lex_sorted(before),
            forall|k: int| 0 <= k < i ==> simplex_lt(#[trigger] before[k], s@),
        ensures
            i <= v.len(),
            v@ == old(v)@,
            forall|k: int| 0 <= k < i ==> simplex_lt(#[trigger] before[k], s@),
            i < v.len() ==> simplex_lt(s@, before[i as int]) || before[i as int] == s@,
        decreases v.len() - i,
    {
        if same_simplex(&v[i], &s) {
            break;
        }
        if simplex_less(&s, &v[i]) {
            break;
        }
        proof {
            lemma_simplex_lt_total(before[i as int], s@);
        }
        i = i + 1;
    }
    if i < v.len() && same_simplex(&v[i], &s) {
        proof {
            assert(before.to_set() =~= before.to_set().insert(s@));
        }
        return;
    }
    proof {
        assert forall|k: int| i <= k < before.len() implies simplex_lt(s@, #[trigger] before[k]) by {
            if k > i {
                assert(simplex_lt(before[i as int], before[k]));
                lemma_simplex_lt_transitive(s@, before[i as int], before[k]);
            }
        }
    }
    v.insert(i, s);
    proof {
        let after = simplex_views(v@);
        assert(after =~= before.subrange(0, i as int).push(s@) + before.subrange(
            i as int,
            before.len() as int,
        ));
        assert forall|a: int, b: int| 0 <= a < b < after.len() implies simplex_lt(
            #[trigger] after[a],
            #[trigger] after[b],
        ) by {
            if a < i && b < i {
            } else if a < i && b == i {
            } else if a < i && b > i {
                assert(after[b] == before[b - 1]);
            } else if a == i {
                assert(after[b] == before[b - 1]);
            } else {
                assert(after[a] == before[a - 1]);
                assert(after[b] == before[b - 1]);
            }
        }
        assert forall|x: Seq<usize>| after.to_set().contains(x) <==> before.to_set().insert(
            s@,
        ).contains(x) by {
            if after.contains(x) {
                let k = choose|k: int| 0 <= k < after.len() && after[k] == x;
                if k < i {
                    assert(before[k] == x);
                } else if k > i {
                    assert(before[k - 1] == x);
                }
            }
            if before.contains(x) {
                let k = choose|k: int| 0 <= k < before.len() && before[k] == x;
                if k < i {
                    assert(after[k] == x);
                } else {
                    assert(after[k + 1] == x);
                }
            }
            if x == s@ {
                assert(after[i as int] == x);
            }
        }
        assert(after.to_set() =~= before.to_set().insert(s@));
    }
}

/// Whether every face of `u` is a member of `lower`.
fn faces_present(lower: &Vec<Simplex>, u: &Simplex) -> (r: bool)
    ensures
        r == forall|p: int| 0 <= p < u@.len() ==> simplex_views(lower@).contains(#[trigger] face(u@, p)),
{
    let mut p: usize = 0;
    while p < u.len()
        invariant
            p <= u.len(),
            forall|q: int| 0 <= q < p ==> simplex_views(lower@).contains(#[trigger] face(u@, q)),
        decreases u.len() - p,
    {
        let f = face_of(u, p);
        match position(lower, &f) {
            Some(_) => {
                proof {
                    lemma_first_pos(simplex_views(lower@), f@);
                }
            },
            None => {
                proof {
                    lemma_first_pos(simplex_views(lower@), f@);
                }
                return false;
            },
        }
        p = p + 1;
    }
    true
}

/// The `target`-simplices filling the `(target - 1)`-simplices `lower`:
/// unions of two members of `lower` with `target + 1` vertices all of
/// whose faces are in `lower`, sorted, without repetition.
fn find_higher_simplices(lower: &Vec<Simplex>, target_dim: usize) -> (result: Vec<Simplex>)
    requires
        forall|k: int| 0 <= k < lower@.len() ==> increasing(#[trigger] lower@[k]@),
        target_dim < usize::MAX,
    ensures
        is_next_level(simplex_views(lower@), target_dim as int, simplex_views(result@)),
{
    let ghost l = simplex_views(lower@);
    let mut result: Vec<Simplex> = Vec::new();
    let n = lower.len();
    let mut i: usize = 0;
    while i < n
        invariant
            n == lower@.len(),
            l == simplex_views(lower@),
            l.len() == n,
            target_dim < usize::MAX,
            i <= n,
            forall|k: int| 0 <= k < n ==> increasing(#[trigger] lower@[k]@),
            lex_sorted(simplex_views(result@)),
            forall|u: Seq<usize>|
                simplex_views(result@).contains(u) <==> fills_before(l, target_dim as int, u, i as int, 0),
        decreases n - i,
    {
        let mut j: usize = i + 1;
        proof {
            assert forall|u: Seq<usize>|
                fills_before(l, target_dim as int, u, i as int, 0) <==> fills_before(
                    l,
                    target_dim as int,
                    u,
                    i as int,
                    j as int,
                ) by {
                if fills_before(l, target_dim as int, u, i as int, j as int) {
                    let (a, b) = choose|a: int, b: int|
                        #![trigger l[a], l[b]]
                        0 <= a < b < l.len() && (a < i || (a == i && b < j)) && u.to_set()
                            == l[a].to_set() + l[b].to_set();
                    assert(a < i);
                }
            }
        }
        while j < n
            invariant
                n == lower@.len(),
                l == simplex_views(lower@),
                l.len() == n,
                target_dim < usize::MAX,
                i < n,
                i < j <= n,
                forall|k: int| 0 <= k < n ==> increasing(#[trigger] lower@[k]@),
                lex_sorted(simplex_views(result@)),
                forall|u: Seq<usize>|
                    simplex_views(result@).contains(u) <==> fills_before(
                        l,
                        target_dim as int,
                        u,
                        i as int,
                        j as int,
                    ),
            decreases n - j,
        {
            let u = union_of(&lower[i], &lower[j]);
            let ghost before = simplex_views(result@);
            proof {
                assert(l[i as int] == lower@[i as int]@);
                assert(l[j as int] == lower@[j as int]@);
            }
            if u.len() == target_dim + 1 && faces_present(lower, &u) {
                insert_simplex(&mut result, u);
                proof {
                    assert forall|w: Seq<usize>|
                        simplex_views(result@).contains(w) <==> fills_before(
                            l,
                            target_dim as int,
                            w,
                            i as int,
                            j + 1,
                        ) by {
                        assert(simplex_views(result@).to_set().contains(w) <==> simplex_views(
                            result@,
                        ).contains(w));
                        assert(before.to_set().contains(w) <==> before.contains(w));
                        if fills_before(l, target_dim as int, w, i as int, j + 1) && w != u@ {
                            let (a, b) = choose|a: int, b: int|
                                #![trigger l[a], l[b]]
                                0 <= a < b < l.len() && (a < i || (a == i && b < j + 1))
                                    && w.to_set() == l[a].to_set()
                                    + l[b].to_set();
                            if a == i && b == j {
                                assert(w.to_set() == u@.to_set());
                                lemma_increasing_set_eq(w, u@);
                            }
                        }
                        if w == u@ {
                            assert(u@.to_set() == l[i as int].to_set() + l[j as int].to_set());
                        }
                    }
                }
            } else {
                proof {
                    assert forall|w: Seq<usize>|
                        simplex_views(result@).contains(w) <==> fills_before(
                            l,
                            target_dim as int,
                            w,
                            i as int,
                            j + 1,
                        ) by {
                        if fills_before(l, target_dim as int, w, i as int, j + 1) {
                            let (a, b) = choose|a: int, b: int|
                                #![trigger l[a], l[b]]
                                0 <= a < b < l.len() && (a < i || (a == i && b < j + 1))
                                    && w.to_set() == l[a].to_set()
                                    + l[b].to_set();
                            if a == i && b == j {
                                assert(w.to_set() == u@.to_set());
                                lemma_increasing_set_eq(w, u@);
                                assert(false);
                            }
                        }
                    }
                }
            }
            j = j + 1;
        }
        proof {
            assert forall|u: Seq<usize>|
                fills_before(l, target_dim as int, u, i as int, n as int) <==> fills_before(
                    l,
                    target_dim as int,
                    u,
                    i + 1,
                    0,
                ) by {
                if fills_before(l, target_dim as int, u, i + 1, 0) {
                    let (a, b) = choose|a: int, b: int|
                        #![trigger l[a], l[b]]
                        0 <= a < b < l.len() && (a < i + 1 || (a == i + 1 && b < 0))
                            && u.to_set() == l[a].to_set() + l[b].to_set();
                    assert(a < i || (a == i && b < n));
                }
            }
        }
        i = i + 1;
    }
    proof {
        assert forall|u: Seq<usize>|
            fills_before(l, target_dim as int, u, n as int, 0) <==> fills(
                l,
                target_dim as int,
                u,
            ) by {}
    }
    result
}

/// Two increasing lists with the same elements are equal.
pub proof fn lemma_increasing_set_eq(a: Seq<usize>, b: Seq<usize>)
    requires
        increasing(a),
        increasing(b),
        a.to_set() == b.to_set(),
    ensures
        a == b,
    decreases a.len() + b.len(),
{
    if a.len() == 0 || b.len() == 0 {
        if a.len() > 0 {
            assert(a.to_set().contains(a[0]));
        }
        if b.len() > 0 {
            assert(b.to_set().contains(b[0]));
        }
        assert(a =~= b);
    } else {
        // the first elements are the minima
        assert(a.to_set().contains(a[0]));
        assert(b.to_set().contains(b[0]));
        let ka = choose|k: int| 0 <= k < b.len() && b[k] == a[0];
        let kb = choose|k: int| 0 <= k < a.len() && a[k] == b[0];
        if ka > 0 {
            assert(b[0] < b[ka]);
            if kb > 0 {
                assert(a[0] < a[kb]);
            }
        }
        assert(a[0] == b[0]);
        let ra = a.drop_first();
        let rb = b.drop_first();
        assert forall|x: usize| ra.to_set().contains(x) <==> rb.to_set().contains(x) by {
            if ra.to_set().contains(x) {
                let k = choose|k: int| 0 <= k < ra.len() && ra[k] == x;
                assert(a[k + 1] == x);
                assert(a.to_set().contains(x));
                let m = choose|m: int| 0 <= m < b.len() && b[m] == x;
                assert(x > a[0]);
                assert(m > 0);
                assert(rb[m - 1] == x);
            }
            if rb.to_set().contains(x) {
                let k = choose|k: int| 0 <= k < rb.len() && rb[k] == x;
                assert(b[k + 1] == x);
                assert(b.to_set().contains(x));
                let m = choose|m: int| 0 <= m < a.len() && a[m] == x;
                assert(x > b[0]);
                assert(m > 0);
                assert(ra[m - 1] == x);
            }
        }
        assert(ra.to_set() =~= rb.to_set());
        lemma_increasing_set_eq(ra, rb);
        assert(a =~= seq![a[0]] + ra);
        assert(b =~= seq![b[0]] + rb);
    }
}

/// Views of the levels of a complex.
pub open spec fn level_views(levels: Seq<Vec<Simplex>>) -> Seq<Seq<Seq<usize>>> {
    levels.map_values(|l: Vec<Simplex>| simplex_views(l@))
}

/// The vertices `[0], [1], ..., [n - 1]`.
pub open spec fn vertex_level(n: int) -> Seq<Seq<usize>> {
    Seq::new(n as nat, |i: int| seq![i as usize])
}

impl EventComplex {
    /// The simplices, level by level, as vertex lists.
    pub open spec fn levels(&self) -> Seq<Seq<Seq<usize>>> {
        level_views(self.simplices@)
    }

    /// Every simplex lists its vertices in strictly increasing order.
    pub open spec fn wf(&self) -> bool {
        forall|d: int, k: int|
            0 <= d < self.levels().len() && 0 <= k < self.levels()[d].len() ==> increasing(
                #[trigger] self.levels()[d][k],
            )
    }

    /// The simplices of dimension `k`, or none past the top dimension.
    pub open spec fn level(&self, k: int) -> Seq<Seq<usize>> {
        if 0 <= k < self.levels().len() {
            self.levels()[k]
        } else {
            Seq::empty()
        }
    }

    /// The shape of the `k`-th boundary matrix: rows for the
    /// `(k - 1)`-simplices, columns for the `k`-simplices, and no entries
    /// at all when `k` is 0, past the top dimension, or has no simplices.
    pub open spec fn boundary_is_empty(&self, k: int) -> bool {
        k == 0 || k >= self.levels().len() || self.levels()[k].len() == 0
    }

    /// The `k`-th boundary matrix has no more entries than `usize` can
    /// count (trivially so when it is empty).
    pub open spec fn matrix_fits(&self, k: int) -> bool {
        self.boundary_is_empty(k) || self.levels()[k - 1].len() * self.levels()[k].len()
            <= usize::MAX
    }

    /// Every boundary matrix has no more entries than `usize` can count.
    pub open spec fn matrices_fit(&self) -> bool {
        forall|k: int| 1 <= k < self.levels().len() ==> #[trigger] self.matrix_fits(k)
    }

    /// Rank over GF(2) of the `k`-th boundary map (0 when it is empty).
    pub open spec fn boundary_rank2(&self, k: int) -> nat {
        if self.boundary_is_empty(k) {
            0
        } else {
            gf2::rank(
                boundary_bits(self.levels()[k - 1], self.levels()[k]),
                self.levels()[k].len(),
            )
        }
    }

    /// The edges used for connectivity: the first two vertices of each
    /// 1-simplex.
    pub open spec fn skeleton(&self) -> Seq<(usize, usize)> {
        one_skeleton(self.level(1))
    }

    /// An empty complex with an empty list of vertices.
    pub fn new() -> (c: Self)
        ensures
            c.events@.len() == 0,
            c.levels() == seq![Seq::<Seq<usize>>::empty()],
    {
        let mut simplices: Vec<Vec<Simplex>> = Vec::new();
        simplices.push(Vec::new());
        let c = EventComplex { events: Vec::new(), simplices };
        proof {
            assert(c.levels()[0] =~= Seq::<Seq<usize>>::empty());
            assert(c.levels() =~= seq![Seq::<Seq<usize>>::empty()]);
        }
        c
    }

    /// The Vietoris–Rips complex of the events up to dimension `max_dim`:
    /// `within[i][j]` says whether events `i` and `j` are within the
    /// proximity threshold. The vertices are the events, the edges the
    /// pairs `i < j` within the threshold (in lexicographic order), and
    /// each higher level is filled from the one below.
    pub fn build_rips(events: Vec<HistoryEvent>, within: &Vec<Vec<bool>>, max_dim: usize) -> (c: Self)
        requires
            within@.len() == events@.len(),
            forall|i: int| 0 <= i < within@.len() ==> (#[trigger] within@[i])@.len() == events@.len(),
            max_dim < usize::MAX,
            max_dim == 0 ==> forall|i: int, j: int|
                0 <= i < j < events@.len() ==> !#[trigger] within@[i]@[j],
        ensures
            c.events == events,
            c.wf(),
            c.levels().len() == max_dim + 1,
            c.levels()[0] == vertex_level(events@.len() as int),
            max_dim >= 1 ==> c.levels()[1] == edges_upto(
                within@,
                events@.len() as int,
                events@.len() as int,
            ),
            forall|d: int|
                2 <= d <= max_dim ==> is_next_level(
                    #[trigger] c.levels()[d - 1],
                    d,
                    c.levels()[d],
                ),
    {
        let n = events.len();
        let mut vertices: Vec<Simplex> = Vec::new();
        let mut i: usize = 0;
        while i < n
            invariant
                i <= n,
                simplex_views(vertices@) == vertex_level(i as int),
            decreases n - i,
        {
            let mut v: Simplex = Vec::new();
            v.push(i);
            let ghost prev = simplex_views(vertices@);
            vertices.push(v);
            proof {
                assert(v@ =~= seq![i as usize]);
                assert(simplex_views(vertices@) =~= prev.push(v@));
                assert(simplex_views(vertices@) =~= vertex_level(i + 1));
            }
            i = i + 1;
        }
        let mut edges: Vec<Simplex> = Vec::new();
        let mut i: usize = 0;
        while i < n
            invariant
                i <= n,
                n == events@.len(),
                within@.len() == n,
                forall|a: int| 0 <= a < within@.len() ==> (#[trigger] within@[a])@.len() == n,
                simplex_views(edges@) == edges_upto(within@, n as int, i as int),
                forall|k: int| 0 <= k < edges@.len() ==> (#[trigger] edges@[k])@.len() == 2 && edges@[k]@[0]
                    < edges@[k]@[1] && edges@[k]@[0] < i,
            decreases n - i,
        {
            let mut j: usize = i + 1;
            proof {
                assert(edges_upto(within@, n as int, i as int) + row_edges(within@, i as int, j as int)
                    =~= edges_upto(within@, n as int, i as int));
            }
            while j < n
                invariant
                    i < n,
                    i < j <= n,
                    n == events@.len(),
                    within@.len() == n,
                    forall|a: int| 0 <= a < within@.len() ==> (#[trigger] within@[a])@.len() == n,
                    simplex_views(edges@) == edges_upto(within@, n as int, i as int) + row_edges(
                        within@,
                        i as int,
                        j as int,
                    ),
                    forall|k: int| 0 <= k < edges@.len() ==> (#[trigger] edges@[k])@.len() == 2
                        && edges@[k]@[0] < edges@[k]@[1] && edges@[k]@[0] <= i,
                decreases n - j,
            {
                let ghost prev = simplex_views(edges@);
                if within[i][j] {
                    let mut e: Simplex = Vec::new();
                    e.push(i);
                    e.push(j);
                    edges.push(e);
                    proof {
                        assert(e@ =~= seq![i as usize, j as usize]);
                        assert(simplex_views(edges@) =~= prev.push(e@));
                    }
                }
                j = j + 1;
            }
            i = i + 1;
        }
        let mut simplices: Vec<Vec<Simplex>> = Vec::new();
        simplices.push(vertices);
        if max_dim >= 1 {
            simplices.push(edges);
        } else {
            proof {
                assert forall|a: int| 0 <= a <= n implies #[trigger] edges_upto(within@, n as int, a).len()
                    == 0 by {
                    lemma_edges_upto_empty(within@, n as int, a);
                }
            }
        }
        proof {
            assert forall|k: int| 0 <= k < simplices@[0]@.len() implies increasing(
                #[trigger] simplex_views(simplices@[0]@)[k],
            ) by {
                assert(simplex_views(simplices@[0]@)[k] == seq![k as usize]);
            }
        }
        let mut d: usize = 2;
        while d <= max_dim
            invariant
                2 <= d,
                max_dim >= 1 ==> d <= max_dim + 1,
                max_dim < usize::MAX,
                simplices@.len() == if max_dim == 0 {
                    1
                } else {
                    d as int
                },
                simplex_views(simplices@[0]@) == vertex_level(n as int),
                max_dim >= 1 ==> simplex_views(simplices@[1]@) == edges_upto(
                    within@,
                    n as int,
                    n as int,
                ),
                forall|e: int, k: int|
                    0 <= e < simplices@.len() && 0 <= k < simplices@[e]@.len() ==> increasing(
                        #[trigger] simplex_views(simplices@[e]@)[k],
                    ),
                forall|e: int|
                    2 <= e < d ==> is_next_level(
                        #[trigger] simplex_views(simplices@[e - 1]@),
                        e as int,
                        simplex_views(simplices@[e]@),
                    ),
            decreases max_dim + 2 - d,
        {
            proof {
                assert forall|k: int| 0 <= k < simplices@[d - 1]@.len() implies increasing(
                    #[trigger] simplices@[d - 1]@[k]@,
                ) by {
                    assert(simplex_views(simplices@[d - 1]@)[k] == simplices@[d - 1]@[k]@);
                }
            }
            let next = find_higher_simplices(&simplices[d - 1], d);
            let ghost prev = simplices@;
            simplices.push(next);
            proof {
                assert forall|e: int, k: int|
                    0 <= e < simplices@.len() && 0 <= k < simplices@[e]@.len() implies increasing(
                    #[trigger] simplex_views(simplices@[e]@)[k],
                ) by {
                    if e < prev.len() {
                        assert(simplices@[e] == prev[e]);
                    } else {
                        let u = simplex_views(next@)[k];
                        assert(simplex_views(next@).contains(u));
                    }
                }
                assert forall|e: int| 2 <= e < d + 1 implies is_next_level(
                    #[trigger] simplex_views(simplices@[e - 1]@),
                    e as int,
                    simplex_views(simplices@[e]@),
                ) by {
                    if e < d {
                        assert(simplices@[e] == prev[e]);
                        assert(simplices@[e - 1] == prev[e - 1]);
                    }
                }
            }
            d = d + 1;
        }
        let c = EventComplex { events, simplices };
        proof {
            assert(c.levels().len() == max_dim + 1);
            assert forall|e: int, k: int|
                0 <= e < c.levels().len() && 0 <= k < c.levels()[e].len() implies increasing(
                #[trigger] c.levels()[e][k],
            ) by {
                assert(c.levels()[e] == simplex_views(c.simplices@[e]@));
            }
            assert forall|e: int| 2 <= e <= max_dim implies is_next_level(
                #[trigger] c.levels()[e - 1],
                e,
                c.levels()[e],
            ) by {
                assert(c.levels()[e] == simplex_views(c.simplices@[e]@));
                assert(c.levels()[e - 1] == simplex_views(c.simplices@[e - 1]@));
            }
        }
        c
    }

    /// The boundary matrix `∂_k` from the `k`-simplices to the
    /// `(k - 1)`-simplices: entry `(r, j)` is the signed count of the faces
    /// of the `j`-th `k`-simplex found at position `r` among the
    /// `(k - 1)`-simplices (the `p`-th face signed `(-1)^p`). The matrix
    /// is 0 × 0 when `k` is 0, past the top dimension, or has no simplices.
    pub fn boundary_matrix(&self, k: usize) -> (m: IntMatrix)
        requires
            self.wf(),
            self.matrix_fits(k as int),
        ensures
            self.boundary_is_empty(k as int) ==> has_shape(m, 0, 0),
            !self.boundary_is_empty(k as int) ==> {
                &&& has_shape(
                    m,
                    self.levels()[k - 1].len(),
                    self.levels()[k as int].len(),
                )
                &&& forall|r: int, j: int|
                    0 <= r < self.levels()[k - 1].len() && 0 <= j < self.levels()[k as int].len()
                        ==> #[trigger] entries(m)[r][j] == boundary_entry(
                        self.levels()[k - 1],
                        self.levels()[k as int],
                        r,
                        j,
                    )
            },
    {
        if k == 0 || k >= self.simplices.len() {
            return IntMatrix::zeros(0, 0);
        }
        let num_k = self.simplices[k].len();
        if num_k == 0 {
            return IntMatrix::zeros(0, 0);
        }
        let lower = &self.simplices[k - 1];
        let upper = &self.simplices[k];
        let ghost lv = simplex_views(lower@);
        let ghost uv = simplex_views(upper@);
        proof {
            assert(lv == self.levels()[k - 1]);
            assert(uv == self.levels()[k as int]);
        }
        let num_km1 = lower.len();
        let mut mat = IntMatrix::zeros(num_km1, num_k);
        let mut j: usize = 0;
        while j < num_k
            invariant
                j <= num_k,
                num_k == upper@.len(),
                num_km1 == lower@.len(),
                lv == simplex_views(lower@),
                uv == simplex_views(upper@),
                forall|c: int| 0 <= c < uv.len() ==> increasing(#[trigger] uv[c]),
                has_shape(mat, num_km1 as nat, num_k as nat),
                forall|r: int, c: int|
                    0 <= r < num_km1 && 0 <= c < j ==> #[trigger] entries(mat)[r][c]
                        == boundary_entry(lv, uv, r, c),
                forall|r: int, c: int|
                    0 <= r < num_km1 && j <= c < num_k ==> #[trigger] entries(mat)[r][c] == 0,
            decreases num_k - j,
        {
            let simplex = &upper[j];
            let ghost s = uv[j as int];
            proof {
                assert(s == simplex@);
            }
            let mut p: usize = 0;
            while p < simplex.len()
                invariant
                    j < num_k,
                    p <= simplex@.len(),
                    s == simplex@,
                    s == uv[j as int],
                    increasing(s),
                    num_k == upper@.len(),
                    num_km1 == lower@.len(),
                    lv == simplex_views(lower@),
                    uv == simplex_views(upper@),
                    forall|c: int| 0 <= c < uv.len() ==> increasing(#[trigger] uv[c]),
                    has_shape(mat, num_km1 as nat, num_k as nat),
                    forall|r: int, c: int|
                        0 <= r < num_km1 && 0 <= c < j ==> #[trigger] entries(mat)[r][c]
                            == boundary_entry(lv, uv, r, c),
                    forall|r: int, c: int|
                        0 <= r < num_km1 && j < c < num_k ==> #[trigger] entries(mat)[r][c] == 0,
                    forall|r: int|
                        0 <= r < num_km1 ==> #[trigger] entries(mat)[r][j as int] == face_sum(
                            lv,
                            s,
                            r,
                            p as int,
                        ),
                    forall|r: int|
                        0 <= r < num_km1 && #[trigger] face_sum(lv, s, r, p as int) != 0 ==> exists|q: int|
                            0 <= q < p && #[trigger] first_pos(lv, face(s, q)) == r,
                    forall|r: int| 0 <= r ==> -1 <= #[trigger] face_sum(lv, s, r, p as int) <= 1,
                decreases simplex@.len() - p,
            {
                let f = face_of(simplex, p);
                let ghost before = entries(mat);
                proof {
                    lemma_first_pos(lv, f@);
                }
                match position(lower, &f) {
                    Some(idx) => {
                        proof {
                            if face_sum(lv, s, idx as int, p as int) != 0 {
                                let q = choose|q: int|
                                    0 <= q < p && #[trigger] first_pos(lv, face(s, q)) == idx;
                                lemma_first_pos(lv, face(s, q));
                                lemma_faces(s, q, p as int);
                                assert(false);
                            }
                        }
                        let v = mat.get(idx, j);
                        let sign: i32 = if p % 2 == 0 {
                            1
                        } else {
                            -1
                        };
                        mat.set(idx, j, v + sign);
                        proof {
                            assert forall|r: int, c: int|
                                0 <= r < num_km1 && 0 <= c < num_k && (r != idx || c != j) implies #[trigger] entries(mat)[r][c]
                                    == before[r][c] by {}
                        }
                    },
                    None => {},
                }
                proof {
                    assert forall|r: int|
                        0 <= r < num_km1 implies #[trigger] entries(mat)[r][j as int] == face_sum(
                            lv,
                            s,
                            r,
                            p + 1,
                        ) by {}
                    assert forall|r: int|
                        0 <= r < num_km1 && #[trigger] face_sum(lv, s, r, p + 1) != 0 implies exists|q: int|
                            0 <= q < p + 1 && #[trigger] first_pos(lv, face(s, q)) == r by {
                        if face_sum(lv, s, r, p as int) != 0 {
                            let q = choose|q: int|
                                0 <= q < p && #[trigger] first_pos(lv, face(s, q)) == r;
                            assert(0 <= q < p + 1 && first_pos(lv, face(s, q)) == r);
                        } else {
                            assert(first_pos(lv, face(s, p as int)) == r);
                        }
                    }
                    assert forall|r: int| 0 <= r implies -1 <= #[trigger] face_sum(lv, s, r, p + 1) <= 1 by {
                        assert(p < s.len());
                        assert(face_sum(lv, s, r, p + 1) == face_sum(lv, s, r, p as int) + if first_pos(
                            lv,
                            face(s, p as int),
                        ) == r {
                            face_sign(p as int)
                        } else {
                            0
                        });
                        assert(-1 <= face_sum(lv, s, r, p as int) <= 1);
                        if first_pos(lv, face(s, p as int)) == r && face_sum(lv, s, r, p as int) != 0 {
                            let q = choose|q: int|
                                0 <= q < p && #[trigger] first_pos(lv, face(s, q)) == r;
                            lemma_first_pos(lv, face(s, q));
                            lemma_faces(s, q, p as int);
                        }
                    }
                }
                p = p + 1;
            }
            j = j + 1;
        }
        mat
    }

    /// Rank over GF(2) of the `k`-th boundary map: its entries reduced
    /// mod 2, then eliminated.
    fn boundary_rank(&self, k: usize) -> (rank: usize)
        requires
            self.wf(),
            self.matrix_fits(k as int),
        ensures
            rank == self.boundary_rank2(k as int),
    {
        let mat = self.boundary_matrix(k);
        let rows = mat.nrows();
        let cols = mat.ncols();
        let ghost empty = self.boundary_is_empty(k as int);
        let ghost lo = if empty {
            Seq::<Seq<usize>>::empty()
        } else {
            self.levels()[k - 1]
        };
        let ghost up = if empty {
            Seq::<Seq<usize>>::empty()
        } else {
            self.levels()[k as int]
        };
        proof {
            if !empty {
                assert(rows == lo.len() && cols == up.len());
            }
        }
        let mut bits: Vec<Vec<bool>> = Vec::new();
        let mut i: usize = 0;
        while i < rows
            invariant
                i <= rows,
                rows == entries(mat).len(),
                cols == column_count(mat),
                has_shape(mat, rows as nat, cols as nat),
                !empty ==> rows == lo.len() && cols == up.len() && forall|r: int, j: int|
                    0 <= r < lo.len() && 0 <= j < up.len() ==> #[trigger] entries(mat)[r][j]
                        == boundary_entry(lo, up, r, j),
                !empty ==> forall|j: int| 0 <= j < up.len() ==> increasing(#[trigger] up[j]),
                bits@.len() == i,
                forall|a: int| 0 <= a < i ==> (#[trigger] bits@[a])@.len() == cols,
                !empty ==> forall|a: int| 0 <= a < i ==> (#[trigger] bits@[a])@ == boundary_bits(lo, up)[a],
            decreases rows - i,
        {
            let mut row: Vec<bool> = Vec::new();
            let mut j: usize = 0;
            while j < cols
                invariant
                    j <= cols,
                    i < rows,
                    rows == entries(mat).len(),
                    cols == column_count(mat),
                    has_shape(mat, rows as nat, cols as nat),
                    !empty ==> rows == lo.len() && cols == up.len() && forall|r: int, c: int|
                        0 <= r < lo.len() && 0 <= c < up.len() ==> #[trigger] entries(mat)[r][c]
                            == boundary_entry(lo, up, r, c),
                    !empty ==> forall|c: int| 0 <= c < up.len() ==> increasing(#[trigger] up[c]),
                    row@.len() == j,
                    !empty ==> forall|c: int| 0 <= c < j ==> #[trigger] row@[c] == (boundary_entry(lo, up, i as int, c) % 2 != 0),
                decreases cols - j,
            {
                let v = mat.get(i, j);
                proof {
                    if !empty {
                        law_boundary_entries_unit(lo, up, i as int, j as int);
                        let x = boundary_entry(lo, up, i as int, j as int);
                        assert((x != 0) == (x % 2 != 0)) by (nonlinear_arith)
                            requires
                                -1 <= x <= 1,
                        ;
                    }
                }
                row.push(v != 0);
                j = j + 1;
            }
            proof {
                if !empty {
                    assert(row@ =~= boundary_bits(lo, up)[i as int]);
                }
            }
            bits.push(row);
            i = i + 1;
        }
        proof {
            assert forall|a: int| 0 <= a < gf2::bit_rows(bits@).len() implies (#[trigger] gf2::bit_rows(bits@)[a]).len() == cols by {
                assert(gf2::bit_rows(bits@)[a] == bits@[a]@);
            }
            if !empty {
                assert(gf2::bit_rows(bits@) =~= boundary_bits(lo, up));
            }
        }
        gf2::gf2_rank(bits, cols)
    }

    /// The number of connected components of the events joined by the
    /// 1-simplices (0 without events).
    pub open spec fn component_total(&self) -> nat {
        if self.events@.len() == 0 {
            0
        } else {
            connectivity::component_count(
                self.events@.len() as int,
                connectivity::int_edges(self.skeleton()),
            )
        }
    }

    /// The Betti numbers over GF(2), `β_k = dim H_k`, for `k` from 0 to the
    /// top dimension (one number when there are no levels). `β_0` is the
    /// number of connected components of the events joined by the
    /// 1-simplices; for `k ≥ 1`, `β_k = #k-simplices − rank ∂_k − rank
    /// ∂_{k+1}` with the ranks taken over GF(2) (`boundary_rank2`), each
    /// subtraction stopping at 0.
    pub fn betti_numbers(&self) -> (betti: Vec<usize>)
        requires
            self.wf(),
            self.matrices_fit(),
            self.events@.len() > 0 ==> connectivity::edges_within(
                self.events@.len() as int,
                self.skeleton(),
            ),
        ensures
            betti@.len() == if self.levels().len() > 0 {
                self.levels().len()
            } else {
                1
            },
            betti@[0] == self.component_total(),
            forall|k: int|
                1 <= k < betti@.len() ==> #[trigger] betti@[k] == monus(
                    monus(self.level(k).len() as int, self.boundary_rank2(k) as int),
                    self.boundary_rank2(k + 1) as int,
                ),
    {
        let len = self.simplices.len();
        let max_dim: usize = if len > 0 {
            len - 1
        } else {
            0
        };
        let mut betti: Vec<usize> = Vec::new();
        betti.push(self.connected_components());
        let mut k: usize = 1;
        while k <= max_dim
            invariant
                1 <= k <= max_dim + 1,
                len == self.levels().len(),
                max_dim == monus(len as int, 1),
                max_dim < usize::MAX,
                self.wf(),
                self.matrices_fit(),
                betti@.len() == k,
                betti@[0] == self.component_total(),
                forall|i: int|
                    1 <= i < k ==> #[trigger] betti@[i] == monus(
                        monus(self.level(i).len() as int, self.boundary_rank2(i) as int),
                        self.boundary_rank2(i + 1) as int,
                    ),
            decreases max_dim + 1 - k,
        {
            proof {
                if k + 1 < len {
                    assert(self.matrix_fits(k + 1));
                }
                assert(self.matrix_fits(k as int));
            }
            let rank_up = self.boundary_rank(k + 1);
            let rank_down = self.boundary_rank(k);
            let dim_k: usize = self.simplices[k].len();
            let first: usize = if dim_k >= rank_down {
                dim_k - rank_down
            } else {
                0
            };
            let b: usize = if first >= rank_up {
                first - rank_up
            } else {
                0
            };
            proof {
                assert(dim_k == self.level(k as int).len());
            }
            betti.push(b);
            k = k + 1;
        }
        betti
    }

    /// Number of connected components of the 1-skeleton (0 when there are
    /// no events).
    pub fn connected_components(&self) -> (count: usize)
        requires
            self.events@.len() > 0 ==> connectivity::edges_within(
                self.events@.len() as int,
                self.skeleton(),
            ),
        ensures
            self.events@.len() == 0 ==> count == 0,
            self.events@.len() > 0 ==> count == connectivity::component_count(
                self.events@.len() as int,
                connectivity::int_edges(self.skeleton()),
            ),
            self.events@.len() > 0 ==> 1 <= count <= self.events@.len(),
    {
        proof {
            if self.events@.len() > 0 {
                connectivity::law_component_count_range(
                    self.events@.len() as int,
                    connectivity::int_edges(self.skeleton()),
                );
            }
        }
        let n = self.events.len();
        if n == 0 {
            return 0;
        }
        let mut edges: Vec<(usize, usize)> = Vec::new();
        if self.simplices.len() > 1 {
            let ones = &self.simplices[1];
            let ghost ov = simplex_views(ones@);
            let mut i: usize = 0;
            while i < ones.len()
                invariant
                    i <= ones.len(),
                    ov == simplex_views(ones@),
                    edges@ == one_skeleton(ov.take(i as int)),
                decreases ones.len() - i,
            {
                let s = &ones[i];
                if s.len() >= 2 {
                    edges.push((s[0], s[1]));
                }
                proof {
                    assert(ov.take(i + 1).drop_last() =~= ov.take(i as int));
                }
                i = i + 1;
            }
            proof {
                assert(ov.take(ov.len() as int) =~= ov);
                assert(ov == self.level(1));
            }
        } else {
            proof {
                assert(self.level(1) =~= Seq::<Seq<usize>>::empty());
            }
        }
        connectivity::count_components(n, &edges)
    }

    /// Number of events.
    pub fn len(&self) -> (n: usize)
        ensures
            n == self.events@.len(),
    {
        self.events.len()
    }

    /// Whether the complex has no events.
    pub fn is_empty(&self) -> (r: bool)
        ensures
            r == (self.events@.len() == 0),
    {
        self.events.len() == 0
    }
}

impl Default for EventComplex {
    fn default() -> (c: Self)
        ensures
            c.events@.len() == 0,
            c.levels() == seq![Seq::<Seq<usize>>::empty()],
    {
        EventComplex::new()
    }
}

/// With no pair within the threshold there are no edges.
proof fn lemma_edges_upto_empty(within: Seq<Vec<bool>>, n: int, m: int)
    requires
        0 <= m <= n,
        forall|i: int, j: int| 0 <= i < j < n ==> !#[trigger] within[i]@[j],
    ensures
        edges_upto(within, n, m).len() == 0,
    decreases m,
{
    if m > 0 {
        lemma_edges_upto_empty(within, n, m - 1);
        lemma_row_edges_empty(within, n, m - 1, n);
    }
}

/// With no pair within the threshold a row has no edges.
proof fn lemma_row_edges_empty(within: Seq<Vec<bool>>, n: int, i: int, m: int)
    requires
        0 <= i < n,
        m <= n,
        forall|a: int, b: int| 0 <= a < b < n ==> !#[trigger] within[a]@[b],
    ensures
        row_edges(within, i, m).len() == 0,
    decreases m,
{
    if m > 0 && m > i + 1 {
        lemma_row_edges_empty(within, n, i, m - 1);
    }
}

impl HistoryEvent {
    /// A copy of the event.
    pub fn duplicate(&self) -> (e: Self)
        ensures
            e.id@ == self.id@,
            e.timestamp == self.timestamp,
            e.event_type@ == self.event_type@,
            e.payload@ == self.payload@,
    {
        HistoryEvent {
            id: self.id.clone(),
            timestamp: self.timestamp,
            event_type: self.event_type.clone(),
            payload: self.payload.clone(),
        }
    }
}

/// Every edge listed for rows `0..m` is `[i, j]` with `i < j < n`.
pub proof fn lemma_edges_in_range(within: Seq<Vec<bool>>, n: int, m: int)
    requires
        m <= n <= usize::MAX,
    ensures
        forall|k: int|
            0 <= k < edges_upto(within, n, m).len() ==> {
                let e = #[trigger] edges_upto(within, n, m)[k];
                e.len() == 2 && e[0] < e[1] && e[1] < n
            },
    decreases m,
{
    if m > 0 {
        lemma_edges_in_range(within, n, m - 1);
        lemma_row_in_range(within, n, m - 1, n);
        let a = edges_upto(within, n, m - 1);
        let b = row_edges(within, m - 1, n);
        assert forall|k: int| 0 <= k < (a + b).len() implies {
            let e = #[trigger] (a + b)[k];
            e.len() == 2 && e[0] < e[1] && e[1] < n
        } by {
            if k < a.len() {
                assert((a + b)[k] == a[k]);
            } else {
                assert((a + b)[k] == b[k - a.len()]);
            }
        }
    }
}

/// Every edge of row `i` with `j < m` is `[i, j]` with `i < j < m`.
proof fn lemma_row_in_range(within: Seq<Vec<bool>>, n: int, i: int, m: int)
    requires
        0 <= i,
        m <= n <= usize::MAX,
    ensures
        forall|k: int|
            0 <= k < row_edges(within, i, m).len() ==> {
                let e = #[trigger] row_edges(within, i, m)[k];
                e.len() == 2 && e[0] < e[1] && e[1] < n
            },
    decreases m,
{
    if m > 0 && m > i + 1 {
        lemma_row_in_range(within, n, i, m - 1);
        let r = row_edges(within, i, m - 1);
        if within[i]@[m - 1] {
            let e = seq![i as usize, (m - 1) as usize];
            assert forall|k: int| 0 <= k < r.push(e).len() implies {
                let f = #[trigger] r.push(e)[k];
                f.len() == 2 && f[0] < f[1] && f[1] < n
            } by {
                if k < r.len() {
                    assert(r.push(e)[k] == r[k]);
                }
            }
        }
    }
}

/// The edges of a list of two-vertex simplices are their vertex pairs.
proof fn lemma_skeleton_in_range(ones: Seq<Seq<usize>>, n: int)
    requires
        forall|k: int| 0 <= k < ones.len() ==> (#[trigger] ones[k]).len() == 2 && ones[k][1] < n && ones[k][0] < ones[k][1],
    ensures
        connectivity::edges_within(n, one_skeleton(ones)),
    decreases ones.len(),
{
    if ones.len() > 0 {
        lemma_skeleton_in_range(ones.drop_last(), n);
        assert(ones.last() == ones[ones.len() - 1]);
    }
}

/// Number of components of the Rips complex whose proximity matrix is
/// `within`, on `n` events.
pub open spec fn rips_components(n: int, within: Seq<Vec<bool>>) -> nat {
    connectivity::component_count(n, connectivity::int_edges(one_skeleton(edges_upto(within, n, n))))
}

/// After the first `m` thresholds: the number of components, the last
/// threshold, and the finished bars `(birth, Some(death))`.
pub open spec fn barcode_state(
    n: int,
    epsilons: Seq<u64>,
    within: Seq<Vec<Vec<bool>>>,
    m: int,
) -> (int, u64, Seq<(u64, Option<u64>)>)
    decreases m,
{
    if m <= 0 {
        (n, 0u64, Seq::empty())
    } else {
        let (components, prev, bars) = barcode_state(n, epsilons, within, m - 1);
        let cc = rips_components(n, within[m - 1]@) as int;
        let merged = monus(components, cc);
        (cc, epsilons[m - 1], bars + Seq::new(merged as nat, |_k: int| (prev, Some(epsilons[m - 1]))))
    }
}

/// The dimension-0 barcode: for each threshold in turn, one bar from the
/// previous threshold to this one per pair of components merged; then one
/// bar born at +0.0 that never dies per component left. Empty without
/// events.
pub open spec fn barcode(n: int, epsilons: Seq<u64>, within: Seq<Vec<Vec<bool>>>) -> Seq<(u64, Option<u64>)> {
    if n == 0 {
        Seq::empty()
    } else {
        let (components, _prev, bars) = barcode_state(n, epsilons, within, epsilons.len() as int);
        bars + Seq::new(monus(components, 0) as nat, |_k: int| (0u64, None))
    }
}

/// The persistence barcode of dimension 0 over the thresholds
/// `epsilons` (binary64 bit patterns); `within[k]` is the proximity
/// matrix of the events at threshold `epsilons[k]`.
pub fn persistence_barcode_dim0(
    events: &Vec<HistoryEvent>,
    epsilons: &Vec<u64>,
    within: &Vec<Vec<Vec<bool>>>,
) -> (bars: Vec<(u64, Option<u64>)>)
    requires
        within@.len() == epsilons@.len(),
        forall|k: int|
            0 <= k < within@.len() ==> (#[trigger] within@[k])@.len() == events@.len() && forall|i: int|
                0 <= i < events@.len() ==> (#[trigger] within@[k]@[i])@.len() == events@.len(),
    ensures
        bars@ == barcode(events@.len() as int, epsilons@, within@),
{
    let n = events.len();
    if n == 0 {
        return Vec::new();
    }
    let mut bars: Vec<(u64, Option<u64>)> = Vec::new();
    let mut components: usize = n;
    let mut prev_eps: u64 = 0;
    let mut k: usize = 0;
    while k < epsilons.len()
        invariant
            k <= epsilons.len(),
            n == events@.len(),
            n > 0,
            within@.len() == epsilons@.len(),
            forall|a: int|
                0 <= a < within@.len() ==> (#[trigger] within@[a])@.len() == events@.len() && forall|i: int|
                    0 <= i < events@.len() ==> (#[trigger] within@[a]@[i])@.len() == events@.len(),
            components <= n,
            barcode_state(n as int, epsilons@, within@, k as int) == (components as int, prev_eps, bars@),
        decreases epsilons.len() - k,
    {
        let mut copies: Vec<HistoryEvent> = Vec::new();
        let mut i: usize = 0;
        while i < n
            invariant
                i <= n,
                n == events@.len(),
                copies@.len() == i,
            decreases n - i,
        {
            copies.push(events[i].duplicate());
            i = i + 1;
        }
        let eps = epsilons[k];
        let complex = EventComplex::build_rips(copies, &within[k], 1);
        proof {
            lemma_edges_in_range(within@[k as int]@, n as int, n as int);
            assert(complex.level(1) == edges_upto(within@[k as int]@, n as int, n as int));
            lemma_skeleton_in_range(complex.level(1), n as int);
        }
        let cc = complex.connected_components();
        let merged: usize = if components >= cc {
            components - cc
        } else {
            0
        };
        let ghost before = bars@;
        let mut m: usize = 0;
        while m < merged
            invariant
                m <= merged,
                bars@ == before + Seq::new(m as nat, |_k: int| (prev_eps, Some(eps))),
            decreases merged - m,
        {
            bars.push((prev_eps, Some(eps)));
            proof {
                assert(bars@ =~= before + Seq::new((m + 1) as nat, |_k: int| (prev_eps, Some(eps))));
            }
            m = m + 1;
        }
        proof {
            assert(cc <= n) by {
                connectivity::lemma_component_count_bound(
                    n as int,
                    connectivity::int_edges(one_skeleton(edges_upto(within@[k as int]@, n as int, n as int))),
                    n as int,
                );
            }
        }
        components = cc;
        prev_eps = eps;
        k = k + 1;
    }
    let ghost before = bars@;
    let mut m: usize = 0;
    while m < components
        invariant
            m <= components,
            bars@ == before + Seq::new(m as nat, |_k: int| (0u64, None::<u64>)),
        decreases components - m,
    {
        bars.push((0, None));
        proof {
            assert(bars@ =~= before + Seq::new((m + 1) as nat, |_k: int| (0u64, None::<u64>)));
        }
        m = m + 1;
    }
    bars
}

/// Each level of a Rips complex from the second on is closed under faces:
/// every face of a `target`-simplex of the next level lies in the level
/// below, and each such simplex has `target + 1` increasing vertices.
pub proof fn law_next_level_closed(lower: Seq<Seq<usize>>, target: int, next: Seq<Seq<usize>>)
    requires
        is_next_level(lower, target, next),
    ensures
        forall|k: int, p: int|
            0 <= k < next.len() && 0 <= p < next[k].len() ==> lower.contains(
                #[trigger] face(next[k], p),
            ),
        forall|k: int|
            0 <= k < next.len() ==> increasing(#[trigger] next[k]) && next[k].len() == target + 1,
{
    assert forall|k: int| 0 <= k < next.len() implies increasing(#[trigger] next[k]) && next[k].len()
        == target + 1 by {
        assert(next.contains(next[k]));
    }
    assert forall|k: int, p: int| 0 <= k < next.len() && 0 <= p < next[k].len() implies lower.contains(
        #[trigger] face(next[k], p),
    ) by {
        assert(next.contains(next[k]));
    }
}

/// The faces of an increasing simplex found at one position of `lower`
/// add up to -1, 0 or 1, and only when some face is found there.
proof fn lemma_face_sum_bound(lower: Seq<Seq<usize>>, s: Seq<usize>, r: int, m: int)
    requires
        increasing(s),
        0 <= r,
        0 <= m <= s.len(),
    ensures
        -1 <= face_sum(lower, s, r, m) <= 1,
        face_sum(lower, s, r, m) != 0 ==> exists|q: int|
            0 <= q < m && #[trigger] first_pos(lower, face(s, q)) == r,
    decreases m,
{
    if m > 0 {
        lemma_face_sum_bound(lower, s, r, m - 1);
        if face_sum(lower, s, r, m - 1) != 0 && first_pos(lower, face(s, m - 1)) == r {
            let q = choose|q: int| 0 <= q < m - 1 && #[trigger] first_pos(lower, face(s, q)) == r;
            lemma_first_pos(lower, face(s, q));
            lemma_first_pos(lower, face(s, m - 1));
            lemma_faces(s, q, m - 1);
        }
        if face_sum(lower, s, r, m - 1) != 0 {
            let q = choose|q: int| 0 <= q < m - 1 && #[trigger] first_pos(lower, face(s, q)) == r;
            assert(0 <= q < m && first_pos(lower, face(s, q)) == r);
        }
    }
}

/// Every entry of a boundary matrix between levels of increasing simplices
/// is -1, 0 or 1.
pub proof fn law_boundary_entries_unit(lower: Seq<Seq<usize>>, upper: Seq<Seq<usize>>, r: int, j: int)
    requires
        0 <= r,
        0 <= j < upper.len(),
        increasing(upper[j]),
    ensures
        -1 <= boundary_entry(lower, upper, r, j) <= 1,
{
    lemma_face_sum_bound(lower, upper[j], r, upper[j].len() as int);
}

/// A lexicographically sorted list is determined by its members: the
/// next level of a complex is unique.
pub proof fn law_next_level_unique(
    lower: Seq<Seq<usize>>,
    target: int,
    a: Seq<Seq<usize>>,
    b: Seq<Seq<usize>>,
)
    requires
        is_next_level(lower, target, a),
        is_next_level(lower, target, b),
    ensures
        a == b,
{
    assert forall|u: Seq<usize>| a.contains(u) <==> b.contains(u) by {}
    lemma_sorted_same_members(a, b);
}

/// Two lexicographically sorted lists with the same members are equal.
proof fn lemma_sorted_same_members(a: Seq<Seq<usize>>, b: Seq<Seq<usize>>)
    requires
        lex_sorted(a),
        lex_sorted(b),
        forall|u: Seq<usize>| a.contains(u) <==> b.contains(u),
    ensures
        a == b,
    decreases a.len() + b.len(),
{
    if a.len() == 0 || b.len() == 0 {
        if a.len() > 0 {
            assert(a.contains(a[0]));
        }
        if b.len() > 0 {
            assert(b.contains(b[0]));
        }
        assert(a =~= b);
    } else {
        assert(a.contains(a[0]));
        assert(b.contains(b[0]));
        let ka = choose|k: int| 0 <= k < b.len() && b[k] == a[0];
        let kb = choose|k: int| 0 <= k < a.len() && a[k] == b[0];
        if a[0] != b[0] {
            assert(ka > 0 && kb > 0);
            assert(simplex_lt(b[0], b[ka]));
            assert(simplex_lt(a[0], a[kb]));
            lemma_simplex_lt_transitive(a[0], b[0], a[0]);
            lemma_simplex_lt_irreflexive(a[0]);
        }
        let ra = a.drop_first();
        let rb = b.drop_first();
        assert forall|u: Seq<usize>| ra.contains(u) <==> rb.contains(u) by {
            if ra.contains(u) {
                let k = choose|k: int| 0 <= k < ra.len() && ra[k] == u;
                assert(a[k + 1] == u);
                assert(simplex_lt(a[0], u));
                assert(b.contains(u));
                let m = choose|m: int| 0 <= m < b.len() && b[m] == u;
                if m == 0 {
                    lemma_simplex_lt_irreflexive(u);
                }
                assert(rb[m - 1] == u);
            }
            if rb.contains(u) {
                let k = choose|k: int| 0 <= k < rb.len() && rb[k] == u;
                assert(b[k + 1] == u);
                assert(simplex_lt(b[0], u));
                assert(a.contains(u));
                let m = choose|m: int| 0 <= m < a.len() && a[m] == u;
                if m == 0 {
                    lemma_simplex_lt_irreflexive(u);
                }
                assert(ra[m - 1] == u);
            }
        }
        lemma_sorted_same_members(ra, rb);
        assert(a =~= seq![a[0]] + ra);
        assert(b =~= seq![b[0]] + rb);
    }
}

/// Every edge listed for row `i` below `m` is `[i, j]` for a `j` within
/// the threshold of `i`.
proof fn lemma_row_edges_listed(within: Seq<Vec<bool>>, i: int, m: int)
    requires
        0 <= i,
        m <= usize::MAX,
    ensures
        forall|k: int|
            0 <= k < row_edges(within, i, m).len() ==> {
                let e = #[trigger] row_edges(within, i, m)[k];
                &&& e.len() == 2
                &&& e[0] == i
                &&& i < e[1] < m
                &&& within[i]@[e[1] as int]
            },
    decreases m,
{
    if m > 0 && m > i + 1 {
        lemma_row_edges_listed(within, i, m - 1);
        let r = row_edges(within, i, m - 1);
        if within[i]@[m - 1] {
            let e = seq![i as usize, (m - 1) as usize];
            assert forall|k: int| 0 <= k < r.push(e).len() implies {
                let f = #[trigger] r.push(e)[k];
                &&& f.len() == 2
                &&& f[0] == i
                &&& i < f[1] < m
                &&& within[i]@[f[1] as int]
            } by {
                if k < r.len() {
                    assert(r.push(e)[k] == r[k]);
                }
            }
        }
    }
}

/// Every edge listed for rows `0..m` is `[i, j]`, `i < m`, `i < j < n`,
/// with `i` and `j` within the threshold.
proof fn lemma_edges_listed(within: Seq<Vec<bool>>, n: int, m: int)
    requires
        m <= n <= usize::MAX,
    ensures
        forall|k: int|
            0 <= k < edges_upto(within, n, m).len() ==> {
                let e = #[trigger] edges_upto(within, n, m)[k];
                &&& e.len() == 2
                &&& e[0] < m
                &&& e[0] < e[1] < n
                &&& within[e[0] as int]@[e[1] as int]
            },
    decreases m,
{
    if m > 0 {
        lemma_edges_listed(within, n, m - 1);
        lemma_row_edges_listed(within, m - 1, n);
        let a = edges_upto(within, n, m - 1);
        let b = row_edges(within, m - 1, n);
        assert forall|k: int| 0 <= k < (a + b).len() implies {
            let e = #[trigger] (a + b)[k];
            &&& e.len() == 2
            &&& e[0] < m
            &&& e[0] < e[1] < n
            &&& within[e[0] as int]@[e[1] as int]
        } by {
            if k < a.len() {
                assert((a + b)[k] == a[k]);
            } else {
                assert((a + b)[k] == b[k - a.len()]);
            }
        }
    }
}

/// Row `i` lists `[i, j]` once `m` is past `j`, when `i` and `j` are within
/// the threshold.
proof fn lemma_row_edge_present(within: Seq<Vec<bool>>, i: int, j: int, m: int)
    requires
        0 <= i < j < m <= usize::MAX,
        within[i]@[j],
    ensures
        row_edges(within, i, m).contains(seq![i as usize, j as usize]),
    decreases m,
{
    let e = seq![i as usize, j as usize];
    if m - 1 == j {
        assert(row_edges(within, i, m) == row_edges(within, i, m - 1).push(e));
        assert(row_edges(within, i, m)[row_edges(within, i, m).len() - 1] == e);
    } else {
        lemma_row_edge_present(within, i, j, m - 1);
        let r = row_edges(within, i, m - 1);
        let k = choose|k: int| 0 <= k < r.len() && r[k] == e;
        if within[i]@[m - 1] {
            assert(r.push(seq![i as usize, (m - 1) as usize])[k] == e);
        }
    }
}

/// The edges of rows `0..m` include `[i, j]` for every pair `i < m`,
/// `i < j < n`, within the threshold.
proof fn lemma_edge_present(within: Seq<Vec<bool>>, n: int, m: int, i: int, j: int)
    requires
        0 <= i < m <= n <= usize::MAX,
        i < j < n,
        within[i]@[j],
    ensures
        edges_upto(within, n, m).contains(seq![i as usize, j as usize]),
    decreases m,
{
    let e = seq![i as usize, j as usize];
    let a = edges_upto(within, n, m - 1);
    let b = row_edges(within, m - 1, n);
    if i == m - 1 {
        lemma_row_edge_present(within, i, j, n);
        let k = choose|k: int| 0 <= k < b.len() && b[k] == e;
        assert((a + b)[a.len() + k] == e);
    } else {
        lemma_edge_present(within, n, m - 1, i, j);
        let k = choose|k: int| 0 <= k < a.len() && a[k] == e;
        assert((a + b)[k] == e);
    }
}

/// The edge list of two-vertex simplices pairs up their vertices, one
/// edge per simplex.
proof fn lemma_skeleton_pairs(ones: Seq<Seq<usize>>)
    requires
        forall|k: int| 0 <= k < ones.len() ==> (#[trigger] ones[k]).len() == 2,
    ensures
        one_skeleton(ones).len() == ones.len(),
        forall|k: int|
            0 <= k < ones.len() ==> #[trigger] one_skeleton(ones)[k] == (ones[k][0], ones[k][1]),
    decreases ones.len(),
{
    if ones.len() > 0 {
        lemma_skeleton_pairs(ones.drop_last());
        assert(ones.last() == ones[ones.len() - 1]);
        assert forall|k: int| 0 <= k < ones.len() implies #[trigger] one_skeleton(ones)[k] == (
            ones[k][0],
            ones[k][1],
        ) by {
            if k < ones.len() - 1 {
                assert(ones.drop_last()[k] == ones[k]);
            }
        }
    }
}

/// A Rips complex whose proximity matrix only gains pairs has no more
/// components.
proof fn lemma_rips_components_shrink(n: int, fewer: Seq<Vec<bool>>, more: Seq<Vec<bool>>)
    requires
        0 <= n <= usize::MAX,
        forall|i: int, j: int| 0 <= i < j < n && #[trigger] fewer[i]@[j] ==> more[i]@[j],
    ensures
        rips_components(n, more) <= rips_components(n, fewer),
{
    let e1 = edges_upto(fewer, n, n);
    let e2 = edges_upto(more, n, n);
    lemma_edges_listed(fewer, n, n);
    lemma_edges_listed(more, n, n);
    lemma_skeleton_pairs(e1);
    lemma_skeleton_pairs(e2);
    let g1 = connectivity::int_edges(one_skeleton(e1));
    let g2 = connectivity::int_edges(one_skeleton(e2));
    assert forall|e: int| 0 <= e < g1.len() implies connectivity::adjacent(
        g2,
        #[trigger] g1[e].0,
        g1[e].1,
    ) by {
        let s = e1[e];
        assert(s == e1[e]);
        let i = s[0] as int;
        let j = s[1] as int;
        assert(fewer[i]@[j]);
        lemma_edge_present(more, n, n, i, j);
        let k = choose|k: int| 0 <= k < e2.len() && e2[k] == seq![i as usize, j as usize];
        assert(g2[k] == (i, j));
        assert(connectivity::joins(g2, k, g1[e].0, g1[e].1));
    }
    connectivity::law_more_edges_fewer_components(n, g1, g2);
}

/// With growing proximity, after `m` thresholds the finished bars and the
/// components left add up to the number of events.
proof fn lemma_barcode_state_count(n: int, epsilons: Seq<u64>, within: Seq<Vec<Vec<bool>>>, m: int)
    requires
        0 <= n <= usize::MAX,
        0 <= m <= within.len(),
        forall|k: int, i: int, j: int|
            1 <= k < within.len() && 0 <= i < j < n && #[trigger] within[k - 1]@[i]@[j]
                ==> within[k]@[i]@[j],
    ensures
        ({
            let (components, _prev, bars) = barcode_state(n, epsilons, within, m);
            &&& 0 <= components <= n
            &&& bars.len() + components == n
            &&& m >= 1 ==> components == rips_components(n, within[m - 1]@)
        }),
    decreases m,
{
    if m > 0 {
        lemma_barcode_state_count(n, epsilons, within, m - 1);
        let cc = rips_components(n, within[m - 1]@);
        connectivity::lemma_component_count_bound(
            n,
            connectivity::int_edges(one_skeleton(edges_upto(within[m - 1]@, n, n))),
            n,
        );
        if m >= 2 {
            assert forall|i: int, j: int| 0 <= i < j < n && #[trigger] within[m - 2]@[i]@[j] implies within[m
                - 1]@[i]@[j] by {
                assert(within[(m - 1) - 1]@[i]@[j]);
            }
            lemma_rips_components_shrink(n, within[m - 2]@, within[m - 1]@);
        }
    }
}

/// With thresholds whose proximity only grows from one to the next (as
/// increasing thresholds give), the dimension-0 barcode has exactly one
/// bar per event.
pub proof fn law_barcode_one_bar_per_event(n: int, epsilons: Seq<u64>, within: Seq<Vec<Vec<bool>>>)
    requires
        0 <= n <= usize::MAX,
        within.len() == epsilons.len(),
        forall|k: int, i: int, j: int|
            1 <= k < within.len() && 0 <= i < j < n && #[trigger] within[k - 1]@[i]@[j]
                ==> within[k]@[i]@[j],
    ensures
        barcode(n, epsilons, within).len() == n,
{
    lemma_barcode_state_count(n, epsilons, within, epsilons.len() as int);
}

/// `bar` dies at some threshold `epsilons[m]` and was born at the one
/// before it (+0.0 for the first).
pub open spec fn finite_bar(epsilons: Seq<u64>, bar: (u64, Option<u64>)) -> bool {
    exists|m: int|
        0 <= m < epsilons.len() && bar.1 == Some(#[trigger] epsilons[m]) && bar.0 == (if m == 0 {
            0u64
        } else {
            epsilons[m - 1]
        })
}

/// After `m` thresholds: the components are those at the last one (`n`
/// before any), the last threshold is `epsilons[m - 1]` (+0.0 before any),
/// and every finished bar is a finite bar.
proof fn lemma_barcode_state_shape(n: int, epsilons: Seq<u64>, within: Seq<Vec<Vec<bool>>>, m: int)
    requires
        0 <= m <= epsilons.len(),
        within.len() == epsilons.len(),
    ensures
        ({
            let (components, prev, bars) = barcode_state(n, epsilons, within, m);
            &&& components == if m == 0 {
                n
            } else {
                rips_components(n, within[m - 1]@) as int
            }
            &&& prev == if m == 0 {
                0u64
            } else {
                epsilons[m - 1]
            }
            &&& forall|i: int| 0 <= i < bars.len() ==> finite_bar(epsilons, #[trigger] bars[i])
        }),
    decreases m,
{
    if m > 0 {
        lemma_barcode_state_shape(n, epsilons, within, m - 1);
        let (components, prev, bars) = barcode_state(n, epsilons, within, m - 1);
        let cc = rips_components(n, within[m - 1]@) as int;
        let merged = monus(components, cc);
        let added = Seq::new(merged as nat, |_k: int| (prev, Some(epsilons[m - 1])));
        let all = bars + added;
        assert forall|i: int| 0 <= i < all.len() implies finite_bar(epsilons, #[trigger] all[i]) by {
            if i < bars.len() {
                assert(all[i] == bars[i]);
            } else {
                assert(all[i] == added[i - bars.len()]);
                assert(all[i].1 == Some(epsilons[m - 1]));
            }
        }
    }
}

/// The shape of the dimension-0 barcode of `n > 0` events: first the
/// finite bars, each dying at a threshold and born at the threshold before
/// it (+0.0 for the first), then one bar `(+0.0, None)` per component at
/// the last threshold (`n` without thresholds). When the thresholds never
/// decrease and the first is not below zero (in binary64 order), no bar
/// dies before it is born.
pub proof fn law_barcode_shape(n: int, epsilons: Seq<u64>, within: Seq<Vec<Vec<bool>>>)
    requires
        n > 0,
        within.len() == epsilons.len(),
    ensures
        ({
            let b = barcode(n, epsilons, within);
            let last = if epsilons.len() == 0 {
                n
            } else {
                rips_components(n, within[epsilons.len() - 1]@) as int
            };
            &&& 0 <= last <= b.len()
            &&& forall|i: int|
                0 <= i < b.len() - last ==> finite_bar(epsilons, #[trigger] b[i])
            &&& forall|i: int| b.len() - last <= i < b.len() ==> #[trigger] b[i] == (0u64, None::<u64>)
            &&& (forall|k: int|
                1 <= k < epsilons.len() ==> !binary64::lt(#[trigger] epsilons[k], epsilons[k - 1]))
                && (epsilons.len() > 0 ==> !binary64::lt(epsilons[0], 0u64)) ==> forall|i: int|
                0 <= i < b.len() && #[trigger] b[i].1 is Some ==> !binary64::lt(
                b[i].1->Some_0,
                b[i].0,
            )
        }),
{
    let m = epsilons.len() as int;
    lemma_barcode_state_shape(n, epsilons, within, m);
    let (components, _prev, bars) = barcode_state(n, epsilons, within, m);
    let tail = Seq::new(monus(components, 0) as nat, |_k: int| (0u64, None::<u64>));
    let b = barcode(n, epsilons, within);
    assert(b == bars + tail);
    assert forall|i: int| 0 <= i < bars.len() implies finite_bar(epsilons, #[trigger] b[i]) by {
        assert(b[i] == bars[i]);
    }
    assert forall|i: int| bars.len() <= i < b.len() implies #[trigger] b[i] == (0u64, None::<u64>) by {
        assert(b[i] == tail[i - bars.len()]);
    }
    if (forall|k: int|
        1 <= k < epsilons.len() ==> !binary64::lt(#[trigger] epsilons[k], epsilons[k - 1])) && (
    epsilons.len() > 0 ==> !binary64::lt(epsilons[0], 0u64)) {
        assert forall|i: int| 0 <= i < b.len() && #[trigger] b[i].1 is Some implies !binary64::lt(
            b[i].1->Some_0,
            b[i].0,
        ) by {
            if i >= bars.len() {
                assert(b[i] == tail[i - bars.len()]);
            } else {
                assert(b[i] == bars[i]);
                assert(finite_bar(epsilons, bars[i]));
                let w = choose|w: int|
                    0 <= w < epsilons.len() && bars[i].1 == Some(#[trigger] epsilons[w]) && bars[i].0
                        == (if w == 0 {
                        0u64
                    } else {
                        epsilons[w - 1]
                    });
                if w > 0 {
                    assert(!binary64::lt(epsilons[w], epsilons[w - 1]));
                }
            }
        }
    }
}

/// `u` is a `(k + 1)`-clique of the proximity graph on the events `0..n`:
/// `k + 1` strictly increasing vertices below `n`, each pair within the
/// threshold.
pub open spec fn is_clique(within: Seq<Vec<bool>>, n: int, k: int, u: Seq<usize>) -> bool {
    &&& increasing(u)
    &&& u.len() == k + 1
    &&& forall|a: int| 0 <= a < u.len() ==> #[trigger] u[a] < n
    &&& forall|a: int, b: int| 0 <= a < b < u.len() ==> within[#[trigger] u[a] as int]@[#[trigger] u[b] as int]
}

/// The vertices of a face, by position.
proof fn lemma_face_at(u: Seq<usize>, p: int)
    requires
        0 <= p < u.len(),
    ensures
        face(u, p).len() == u.len() - 1,
        forall|t: int| 0 <= t < p ==> #[trigger] face(u, p)[t] == u[t],
        forall|t: int| p <= t < u.len() - 1 ==> #[trigger] face(u, p)[t] == u[t + 1],
{
    u.remove_ensures(p);
}

/// A face of a clique is a clique one size smaller.
proof fn lemma_face_clique(within: Seq<Vec<bool>>, n: int, k: int, u: Seq<usize>, p: int)
    requires
        is_clique(within, n, k, u),
        0 <= p <= k,
    ensures
        is_clique(within, n, k - 1, face(u, p)),
{
    lemma_face_at(u, p);
    let f = face(u, p);
    assert forall|a: int, b: int| 0 <= a < b < f.len() implies #[trigger] f[a] < #[trigger] f[b] by {
        let x = if a < p { a } else { a + 1 };
        let y = if b < p { b } else { b + 1 };
        assert(f[a] == u[x] && f[b] == u[y]);
    }
    assert forall|a: int| 0 <= a < f.len() implies #[trigger] f[a] < n by {
        let x = if a < p { a } else { a + 1 };
        assert(f[a] == u[x]);
    }
    assert forall|a: int, b: int| 0 <= a < b < f.len() implies within[#[trigger] f[a] as int]@[#[trigger] f[b] as int] by {
        let x = if a < p { a } else { a + 1 };
        let y = if b < p { b } else { b + 1 };
        assert(f[a] == u[x] && f[b] == u[y]);
    }
}

/// With at least three vertices, a list whose faces are all cliques is a
/// clique.
proof fn lemma_clique_from_faces(within: Seq<Vec<bool>>, n: int, k: int, u: Seq<usize>)
    requires
        k >= 2,
        increasing(u),
        u.len() == k + 1,
        forall|p: int| 0 <= p <= k ==> is_clique(within, n, k - 1, #[trigger] face(u, p)),
    ensures
        is_clique(within, n, k, u),
{
    assert forall|a: int| 0 <= a < u.len() implies #[trigger] u[a] < n by {
        let p = if a == 0 { 1int } else { 0int };
        lemma_face_at(u, p);
        assert(is_clique(within, n, k - 1, face(u, p)));
        if a == 0 {
            assert(face(u, p)[0] == u[0]);
        } else {
            assert(face(u, p)[a - 1] == u[a]);
        }
    }
    assert forall|a: int, b: int| 0 <= a < b < u.len() implies within[#[trigger] u[a] as int]@[#[trigger] u[b] as int] by {
        // drop a vertex other than a and b
        let p = if a > 0 { 0int } else if b > 1 { 1int } else { 2int };
        lemma_face_at(u, p);
        let f = face(u, p);
        assert(is_clique(within, n, k - 1, f));
        let x = if a < p { a } else { a - 1 };
        let y = if b < p { b } else { b - 1 };
        assert(f[x] == u[a] && f[y] == u[b]);
    }
}

/// The vertices of a list are those of its faces opposite the first two
/// vertices.
proof fn lemma_two_faces_cover(u: Seq<usize>)
    requires
        u.len() >= 2,
    ensures
        u.to_set() == face(u, 0).to_set() + face(u, 1).to_set(),
{
    lemma_face_at(u, 0);
    lemma_face_at(u, 1);
    assert forall|x: usize| u.to_set().contains(x) <==> (face(u, 0).to_set() + face(u, 1).to_set()).contains(x) by {
        if u.contains(x) {
            let t = choose|t: int| 0 <= t < u.len() && u[t] == x;
            if t == 0 {
                assert(face(u, 1)[0] == x);
            } else {
                assert(face(u, 0)[t - 1] == x);
            }
        }
        if face(u, 0).contains(x) {
            let t = choose|t: int| 0 <= t < face(u, 0).len() && face(u, 0)[t] == x;
            assert(u[t + 1] == x);
        }
        if face(u, 1).contains(x) {
            let t = choose|t: int| 0 <= t < face(u, 1).len() && face(u, 1)[t] == x;
            if t < 1 {
                assert(u[t] == x);
            } else {
                assert(u[t + 1] == x);
            }
        }
    }
}

/// The levels of a Vietoris–Rips complex are its cliques: when level 1
/// lists the pairs within the threshold and each higher level is the next
/// level of the one below (as `build_rips` makes them), level `k ≥ 1`
/// holds exactly the `(k + 1)`-cliques of the proximity graph.
pub proof fn law_rips_levels_are_cliques(
    within: Seq<Vec<bool>>,
    n: int,
    levels: Seq<Seq<Seq<usize>>>,
    k: int,
    u: Seq<usize>,
)
    requires
        0 <= n <= usize::MAX,
        1 <= k < levels.len(),
        levels[1] == edges_upto(within, n, n),
        forall|d: int| 2 <= d < levels.len() ==> is_next_level(#[trigger] levels[d - 1], d, levels[d]),
    ensures
        levels[k].contains(u) <==> is_clique(within, n, k, u),
    decreases k,
{
    if k == 1 {
        lemma_edges_listed(within, n, n);
        if levels[1].contains(u) {
            let t = choose|t: int| 0 <= t < levels[1].len() && levels[1][t] == u;
            assert(levels[1][t] == edges_upto(within, n, n)[t]);
        }
        if is_clique(within, n, 1, u) {
            lemma_edge_present(within, n, n, u[0] as int, u[1] as int);
            assert(u =~= seq![u[0] as int as usize, u[1] as int as usize]);
        }
    } else {
        let lower = levels[k - 1];
        assert(is_next_level(lower, k, levels[k]));
        if levels[k].contains(u) {
            assert(fills(lower, k, u));
            assert forall|p: int| 0 <= p <= k implies is_clique(within, n, k - 1, #[trigger] face(u, p)) by {
                assert(lower.contains(face(u, p)));
                law_rips_levels_are_cliques(within, n, levels, k - 1, face(u, p));
            }
            lemma_clique_from_faces(within, n, k, u);
        }
        if is_clique(within, n, k, u) {
            assert forall|p: int| 0 <= p < u.len() implies lower.contains(#[trigger] face(u, p)) by {
                lemma_face_clique(within, n, k, u, p);
                law_rips_levels_are_cliques(within, n, levels, k - 1, face(u, p));
            }
            assert(lower.contains(face(u, 0)));
            assert(lower.contains(face(u, 1)));
            let i0 = choose|i: int| 0 <= i < lower.len() && lower[i] == face(u, 0);
            let i1 = choose|i: int| 0 <= i < lower.len() && lower[i] == face(u, 1);
            lemma_faces(u, 0, 1);
            lemma_two_faces_cover(u);
            if i0 < i1 {
                assert(u.to_set() == lower[i0].to_set() + lower[i1].to_set());
            } else {
                assert(lower[i1].to_set() + lower[i0].to_set() =~= lower[i0].to_set() + lower[i1].to_set());
                assert(u.to_set() == lower[i1].to_set() + lower[i0].to_set());
            }
            assert(fills(lower, k, u));
        }
    }
}

/// The edges of a row come in increasing order of their second vertex.
proof fn lemma_row_edges_sorted(within: Seq<Vec<bool>>, i: int, m: int)
    requires
        0 <= i,
        m <= usize::MAX,
    ensures
        lex_sorted(row_edges(within, i, m)),
    decreases m,
{
    lemma_row_edges_listed(within, i, m);
    if m > 0 && m > i + 1 {
        lemma_row_edges_sorted(within, i, m - 1);
        lemma_row_edges_listed(within, i, m - 1);
        let r = row_edges(within, i, m - 1);
        if within[i]@[m - 1] {
            let e = seq![i as usize, (m - 1) as usize];
            assert forall|a: int, b: int| 0 <= a < b < r.push(e).len() implies simplex_lt(
                #[trigger] r.push(e)[a],
                #[trigger] r.push(e)[b],
            ) by {
                assert(r.push(e)[a] == r[a]);
                if b < r.len() {
                    assert(r.push(e)[b] == r[b]);
                } else {
                    let x = r[a];
                    assert(x[0] == e[0] && x[1] < e[1]);
                    assert(x.drop_first()[0] == x[1]);
                    assert(e.drop_first()[0] == e[1]);
                    assert(simplex_lt(x.drop_first(), e.drop_first()));
                }
            }
        }
    }
}

/// The listed edges `[i, j]`, `i < j`, are sorted lexicographically, so
/// level 1 of a Rips complex is sorted and holds no pair twice.
pub proof fn law_rips_edges_sorted(within: Seq<Vec<bool>>, n: int, m: int)
    requires
        0 <= m <= n <= usize::MAX,
    ensures
        lex_sorted(edges_upto(within, n, m)),
    decreases m,
{
    if m > 0 {
        law_rips_edges_sorted(within, n, m - 1);
        lemma_edges_listed(within, n, m - 1);
        lemma_row_edges_listed(within, m - 1, n);
        lemma_row_edges_sorted(within, m - 1, n);
        let a = edges_upto(within, n, m - 1);
        let b = row_edges(within, m - 1, n);
        assert forall|x: int, y: int| 0 <= x < y < (a + b).len() implies simplex_lt(
            #[trigger] (a + b)[x],
            #[trigger] (a + b)[y],
        ) by {
            if y < a.len() {
                assert((a + b)[x] == a[x] && (a + b)[y] == a[y]);
            } else if x >= a.len() {
                assert((a + b)[x] == b[x - a.len()] && (a + b)[y] == b[y - a.len()]);
            } else {
                assert((a + b)[x] == a[x] && (a + b)[y] == b[y - a.len()]);
                assert(a[x][0] < m - 1);
                assert(b[y - a.len()][0] == m - 1);
            }
        }
    }
}

} // verus!
