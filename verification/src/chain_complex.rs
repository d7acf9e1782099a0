//! The boundary maps of the event complex compose to zero: `∂_{k-1} ∘ ∂_k`
//! vanishes whenever every face of a `k`-simplex is a `(k - 1)`-simplex of
//! the complex, which is what makes the Betti numbers homology.

use vstd::prelude::*;
use vstd::arithmetic::mul::lemma_mul_is_distributive_add;
use vstd::relations::injective_on;
use vstd::set_lib::{lemma_int_range, lemma_map_size, set_int_range};
use crate::history_homology::{
    EventComplex, boundary_entry, face, face_sign, face_sum, fills, first_pos, increasing,
    is_next_level, lemma_faces, lemma_first_pos,
};

verus! {

/// `Σ_{r < m} ∂(low ← mid)[t][r] · ∂(mid ← high)[r][j]`.
pub open spec fn composed_upto(
    low: Seq<Seq<usize>>,
    mid: Seq<Seq<usize>>,
    high: Seq<Seq<usize>>,
    t: int,
    j: int,
    m: int,
) -> int
    decreases m,
{
    if m <= 0 {
        0
    } else {
        composed_upto(low, mid, high, t, j, m - 1) + boundary_entry(low, mid, t, m - 1)
            * boundary_entry(mid, high, m - 1, j)
    }
}

/// Entry `(t, j)` of the product `∂(low ← mid) · ∂(mid ← high)`.
pub open spec fn composed_entry(
    low: Seq<Seq<usize>>,
    mid: Seq<Seq<usize>>,
    high: Seq<Seq<usize>>,
    t: int,
    j: int,
) -> int {
    composed_upto(low, mid, high, t, j, mid.len() as int)
}

/// `x` with the sign of the `p`-th face.
spec fn signed(p: int, x: int) -> int {
    if p % 2 == 0 {
        x
    } else {
        -x
    }
}

/// `Σ_{r < m} ∂(low ← mid)[t][r] · (signed count of the first `k` faces
/// of `s` found at position `r` of `mid`)`.
spec fn product_upto(
    low: Seq<Seq<usize>>,
    mid: Seq<Seq<usize>>,
    s: Seq<usize>,
    t: int,
    m: int,
    k: int,
) -> int
    decreases m,
{
    if m <= 0 {
        0
    } else {
        product_upto(low, mid, s, t, m - 1, k) + boundary_entry(low, mid, t, m - 1) * face_sum(
            mid,
            s,
            m - 1,
            k,
        )
    }
}

/// The contribution of the `p`-th face of `s`: its row `t` entry, signed,
/// when it is found among the first `m` members of `mid`.
spec fn face_term(low: Seq<Seq<usize>>, mid: Seq<Seq<usize>>, s: Seq<usize>, t: int, m: int, p: int) -> int {
    let r = first_pos(mid, face(s, p));
    if 0 <= r < m {
        signed(p, boundary_entry(low, mid, t, r))
    } else {
        0
    }
}

/// `Σ_{p < k}` of the face terms.
spec fn faces_upto(low: Seq<Seq<usize>>, mid: Seq<Seq<usize>>, s: Seq<usize>, t: int, m: int, k: int) -> int
    decreases k,
{
    if k <= 0 {
        0
    } else {
        faces_upto(low, mid, s, t, m, k - 1) + face_term(low, mid, s, t, m, k - 1)
    }
}

/// `Σ_{q < m} e(p, q)`.
spec fn row_sum(e: spec_fn(int, int) -> int, p: int, m: int) -> int
    decreases m,
{
    if m <= 0 {
        0
    } else {
        row_sum(e, p, m - 1) + e(p, m - 1)
    }
}

/// `Σ_{p < m} e(p, q)`.
spec fn col_sum(e: spec_fn(int, int) -> int, q: int, m: int) -> int
    decreases m,
{
    if m <= 0 {
        0
    } else {
        col_sum(e, q, m - 1) + e(m - 1, q)
    }
}

/// `Σ_{p < rows} Σ_{q < cols} e(p, q)`.
spec fn grid_sum(e: spec_fn(int, int) -> int, rows: int, cols: int) -> int
    decreases rows,
{
    if rows <= 0 {
        0
    } else {
        grid_sum(e, rows - 1, cols) + row_sum(e, rows - 1, cols)
    }
}

/// Signed count of the `q`-th face of the `p`-th face of `s`, when it is
/// found at position `t` of `low`.
spec fn double_face(low: Seq<Seq<usize>>, s: Seq<usize>, t: int, p: int, q: int) -> int {
    signed(
        p,
        if first_pos(low, face(face(s, p), q)) == t {
            face_sign(q)
        } else {
            0
        },
    )
}

/// The grid of double faces of `s`.
spec fn double_faces(low: Seq<Seq<usize>>, s: Seq<usize>, t: int) -> spec_fn(int, int) -> int {
    |a: int, b: int| double_face(low, s, t, a, b)
}

/// Removing position `p` then `q < p` is removing `q` then `p - 1`.
proof fn lemma_faces_commute(s: Seq<usize>, p: int, q: int)
    requires
        0 <= q < p < s.len(),
    ensures
        face(face(s, p), q) == face(face(s, q), p - 1),
{
    s.remove_ensures(p);
    s.remove_ensures(q);
    s.remove(p).remove_ensures(q);
    s.remove(q).remove_ensures(p - 1);
    assert(face(face(s, p), q) =~= face(face(s, q), p - 1));
}

/// `x · face_sign(p)` is `x` with the sign of the `p`-th face.
proof fn lemma_times_sign(x: int, p: int)
    ensures
        x * face_sign(p) == signed(p, x),
{
    if p % 2 == 0 {
        assert(x * 1 == x) by (nonlinear_arith);
    } else {
        assert(x * -1 == -x) by (nonlinear_arith);
    }
}

/// With no faces counted, the product is zero.
proof fn lemma_product_no_faces(low: Seq<Seq<usize>>, mid: Seq<Seq<usize>>, s: Seq<usize>, t: int, m: int)
    ensures
        product_upto(low, mid, s, t, m, 0) == 0,
    decreases m,
{
    if m > 0 {
        lemma_product_no_faces(low, mid, s, t, m - 1);
        let b = boundary_entry(low, mid, t, m - 1);
        assert(face_sum(mid, s, m - 1, 0) == 0);
        assert(b * 0 == 0) by (nonlinear_arith);
    }
}

/// Counting one more face adds its face term.
proof fn lemma_product_step(low: Seq<Seq<usize>>, mid: Seq<Seq<usize>>, s: Seq<usize>, t: int, m: int, k: int)
    requires
        k >= 1,
    ensures
        product_upto(low, mid, s, t, m, k) == product_upto(low, mid, s, t, m, k - 1) + face_term(
            low,
            mid,
            s,
            t,
            m,
            k - 1,
        ),
    decreases m,
{
    if m > 0 {
        lemma_product_step(low, mid, s, t, m - 1, k);
        let b = boundary_entry(low, mid, t, m - 1);
        let before = face_sum(mid, s, m - 1, k - 1);
        let added = if first_pos(mid, face(s, k - 1)) == m - 1 {
            face_sign(k - 1)
        } else {
            0
        };
        assert(face_sum(mid, s, m - 1, k) == before + added);
        lemma_mul_is_distributive_add(b, before, added);
        if first_pos(mid, face(s, k - 1)) == m - 1 {
            lemma_times_sign(b, k - 1);
        } else {
            assert(b * 0 == 0) by (nonlinear_arith);
        }
    }
}

/// The product, reindexed by the faces of `s`.
proof fn lemma_product_by_faces(low: Seq<Seq<usize>>, mid: Seq<Seq<usize>>, s: Seq<usize>, t: int, m: int, k: int)
    requires
        k >= 0,
    ensures
        product_upto(low, mid, s, t, m, k) == faces_upto(low, mid, s, t, m, k),
    decreases k,
{
    if k == 0 {
        lemma_product_no_faces(low, mid, s, t, m);
    } else {
        lemma_product_by_faces(low, mid, s, t, m, k - 1);
        lemma_product_step(low, mid, s, t, m, k);
    }
}

/// The composed entry is the product with every face of `high[j]` counted.
proof fn lemma_composed_is_product(
    low: Seq<Seq<usize>>,
    mid: Seq<Seq<usize>>,
    high: Seq<Seq<usize>>,
    t: int,
    j: int,
    m: int,
)
    ensures
        composed_upto(low, mid, high, t, j, m) == product_upto(
            low,
            mid,
            high[j],
            t,
            m,
            high[j].len() as int,
        ),
    decreases m,
{
    if m > 0 {
        lemma_composed_is_product(low, mid, high, t, j, m - 1);
    }
}

/// The signed row entry of a face is the signed sum over its own faces.
proof fn lemma_signed_face_sum(low: Seq<Seq<usize>>, s: Seq<usize>, t: int, p: int, m: int)
    ensures
        signed(p, face_sum(low, face(s, p), t, m)) == row_sum(
            double_faces(low, s, t),
            p,
            m,
        ),
    decreases m,
{
    if m > 0 {
        lemma_signed_face_sum(low, s, t, p, m - 1);
    }
}

/// With every face of `s` in `mid`, the face terms are the rows of the
/// double-face grid.
proof fn lemma_faces_as_grid(low: Seq<Seq<usize>>, mid: Seq<Seq<usize>>, s: Seq<usize>, t: int, k: int)
    requires
        s.len() >= 1,
        0 <= k <= s.len(),
        forall|p: int| 0 <= p < s.len() ==> mid.contains(#[trigger] face(s, p)),
    ensures
        faces_upto(low, mid, s, t, mid.len() as int, k) == grid_sum(
            double_faces(low, s, t),
            k,
            s.len() - 1,
        ),
    decreases k,
{
    if k > 0 {
        lemma_faces_as_grid(low, mid, s, t, k - 1);
        let p = k - 1;
        let f = face(s, p);
        assert(mid.contains(f));
        lemma_first_pos(mid, f);
        let r = first_pos(mid, f);
        assert(mid[r] == f);
        assert(f.len() == s.len() - 1);
        assert(boundary_entry(low, mid, t, r) == face_sum(low, f, t, s.len() - 1));
        lemma_signed_face_sum(low, s, t, p, s.len() - 1);
    }
}

/// A row of the double-face grid cancels the column before it.
proof fn lemma_row_cancels_column(low: Seq<Seq<usize>>, s: Seq<usize>, t: int, n: int, m: int)
    requires
        1 <= n < s.len(),
        0 <= m <= n,
    ensures
        row_sum(double_faces(low, s, t), n, m) == -col_sum(
            double_faces(low, s, t),
            n - 1,
            m,
        ),
    decreases m,
{
    if m > 0 {
        lemma_row_cancels_column(low, s, t, n, m - 1);
        let q = m - 1;
        lemma_faces_commute(s, n, q);
    }
}

/// Adding a column to the grid adds its column sum.
proof fn lemma_grid_add_column(e: spec_fn(int, int) -> int, rows: int, cols: int)
    requires
        rows >= 0,
        cols >= 0,
    ensures
        grid_sum(e, rows, cols + 1) == grid_sum(e, rows, cols) + col_sum(e, cols, rows),
    decreases rows,
{
    if rows > 0 {
        lemma_grid_add_column(e, rows - 1, cols);
    }
}

/// The square-minus-one grid of double faces sums to zero.
proof fn lemma_grid_vanishes(low: Seq<Seq<usize>>, s: Seq<usize>, t: int, n: int)
    requires
        0 <= n < s.len(),
    ensures
        grid_sum(double_faces(low, s, t), n + 1, n) == 0,
    decreases n,
{
    let e = double_faces(low, s, t);
    if n == 0 {
        assert(grid_sum(e, 0, 0) == 0);
        assert(row_sum(e, 0, 0) == 0);
    } else {
        lemma_grid_vanishes(low, s, t, n - 1);
        lemma_grid_add_column(e, n, n - 1);
        lemma_row_cancels_column(low, s, t, n, n);
        assert(grid_sum(e, n + 1, n) == grid_sum(e, n, n) + row_sum(e, n, n));
    }
}

/// The boundary of a boundary vanishes: whenever every face of `high[j]`
/// is a member of `mid`, row `t` of `∂(low ← mid)` times column `j` of
/// `∂(mid ← high)` is zero.
pub proof fn law_boundary_of_boundary(
    low: Seq<Seq<usize>>,
    mid: Seq<Seq<usize>>,
    high: Seq<Seq<usize>>,
    t: int,
    j: int,
)
    requires
        0 <= j < high.len(),
        forall|p: int| 0 <= p < high[j].len() ==> mid.contains(#[trigger] face(high[j], p)),
    ensures
        composed_entry(low, mid, high, t, j) == 0,
{
    let s = high[j];
    let n = s.len() as int;
    lemma_composed_is_product(low, mid, high, t, j, mid.len() as int);
    lemma_product_by_faces(low, mid, s, t, mid.len() as int, n);
    if n == 0 {
        assert(faces_upto(low, mid, s, t, mid.len() as int, 0) == 0);
    } else {
        lemma_faces_as_grid(low, mid, s, t, n);
        lemma_grid_vanishes(low, s, t, n - 1);
    }
}

/// The boundary maps of a complex whose levels from 2 up are each the
/// next level of the one below (as `build_rips` makes them) compose to
/// zero: `∂_{k-1} ∘ ∂_k = 0` for every `k ≥ 2`.
pub proof fn law_boundary_squared_zero(c: EventComplex, k: int, t: int, j: int)
    requires
        forall|d: int|
            2 <= d < c.levels().len() ==> is_next_level(
                #[trigger] c.levels()[d - 1],
                d,
                c.levels()[d],
            ),
        2 <= k < c.levels().len(),
        0 <= j < c.levels()[k].len(),
    ensures
        composed_entry(c.levels()[k - 2], c.levels()[k - 1], c.levels()[k], t, j) == 0,
{
    let mid = c.levels()[k - 1];
    let high = c.levels()[k];
    assert(is_next_level(mid, k, high));
    assert(high.contains(high[j]));
    assert(fills(mid, k, high[j]));
    law_boundary_of_boundary(c.levels()[k - 2], mid, high, t, j);
}

/// The rows of column `j` of `∂(mid ← high)` that hold a nonzero entry.
pub open spec fn nonzero_rows(mid: Seq<Seq<usize>>, high: Seq<Seq<usize>>, j: int) -> Set<int> {
    Set::new(|r: int| 0 <= r < mid.len() && boundary_entry(mid, high, r, j) != 0)
}

/// The position in `mid` of the `p`-th face of `s`.
spec fn face_row(mid: Seq<Seq<usize>>, s: Seq<usize>) -> spec_fn(int) -> int {
    |p: int| first_pos(mid, face(s, p))
}

/// Distinct faces of an increasing `s`, all present in `mid`, sit at
/// distinct positions.
proof fn lemma_face_rows_distinct(mid: Seq<Seq<usize>>, s: Seq<usize>, p: int, q: int)
    requires
        increasing(s),
        0 <= p < s.len(),
        0 <= q < s.len(),
        p != q,
        forall|x: int| 0 <= x < s.len() ==> mid.contains(#[trigger] face(s, x)),
    ensures
        first_pos(mid, face(s, p)) != first_pos(mid, face(s, q)),
        0 <= first_pos(mid, face(s, p)) < mid.len(),
{
    assert(mid.contains(face(s, p)));
    assert(mid.contains(face(s, q)));
    lemma_first_pos(mid, face(s, p));
    lemma_first_pos(mid, face(s, q));
    if p < q {
        lemma_faces(s, p, q);
    } else {
        lemma_faces(s, q, p);
    }
}

/// Among the first `m` faces, the signed count at row `r` is nonzero
/// exactly when one of them sits at `r`.
proof fn lemma_face_sum_nonzero(mid: Seq<Seq<usize>>, s: Seq<usize>, r: int, m: int)
    requires
        increasing(s),
        0 <= m <= s.len(),
        forall|x: int| 0 <= x < s.len() ==> mid.contains(#[trigger] face(s, x)),
    ensures
        face_sum(mid, s, r, m) != 0 <==> exists|p: int|
            0 <= p < m && #[trigger] first_pos(mid, face(s, p)) == r,
    decreases m,
{
    if m > 0 {
        lemma_face_sum_nonzero(mid, s, r, m - 1);
        if first_pos(mid, face(s, m - 1)) == r {
            assert forall|p: int| 0 <= p < m - 1 implies #[trigger] first_pos(mid, face(s, p)) != r by {
                lemma_face_rows_distinct(mid, s, p, m - 1);
            }
        } else {
            if exists|p: int| 0 <= p < m && #[trigger] first_pos(mid, face(s, p)) == r {
                let p = choose|p: int| 0 <= p < m && #[trigger] first_pos(mid, face(s, p)) == r;
                assert(p < m - 1);
            }
        }
    }
}

/// Each column of a boundary map has exactly one nonzero entry per face:
/// when `high[j]` is increasing and all its faces are in `mid`, column `j`
/// of `∂(mid ← high)` has exactly `high[j].len()` nonzero entries, each
/// `+1` or `-1`.
pub proof fn law_boundary_column(mid: Seq<Seq<usize>>, high: Seq<Seq<usize>>, j: int)
    requires
        0 <= j < high.len(),
        increasing(high[j]),
        forall|p: int| 0 <= p < high[j].len() ==> mid.contains(#[trigger] face(high[j], p)),
    ensures
        nonzero_rows(mid, high, j).finite(),
        nonzero_rows(mid, high, j).len() == high[j].len(),
        forall|r: int|
            #[trigger] nonzero_rows(mid, high, j).contains(r) ==> boundary_entry(mid, high, r, j) == 1
                || boundary_entry(mid, high, r, j) == -1,
{
    let s = high[j];
    let k = s.len() as int;
    let f = face_row(mid, s);
    let x = set_int_range(0, k);
    lemma_int_range(0, k);
    assert(injective_on(f, x)) by {
        assert forall|p: int, q: int| x.contains(p) && x.contains(q) && #[trigger] f(p) == #[trigger] f(q) implies p
            == q by {
            if p != q {
                lemma_face_rows_distinct(mid, s, p, q);
            }
        }
    }
    assert(x.map(f) =~= nonzero_rows(mid, high, j)) by {
        assert forall|r: int| #[trigger] x.map(f).contains(r) <==> nonzero_rows(mid, high, j).contains(r) by {
            lemma_face_sum_nonzero(mid, s, r, k);
            if x.map(f).contains(r) {
                let p = choose|p: int| x.contains(p) && f(p) == r;
                assert(mid.contains(face(s, p)));
                lemma_first_pos(mid, face(s, p));
                assert(first_pos(mid, face(s, p)) == r);
            }
            if nonzero_rows(mid, high, j).contains(r) {
                let p = choose|p: int| 0 <= p < k && #[trigger] first_pos(mid, face(s, p)) == r;
                assert(x.contains(p) && f(p) == r);
            }
        }
    }
    lemma_map_size(x, nonzero_rows(mid, high, j), f);
    assert forall|r: int| #[trigger] nonzero_rows(mid, high, j).contains(r) implies boundary_entry(
        mid,
        high,
        r,
        j,
    ) == 1 || boundary_entry(mid, high, r, j) == -1 by {
        crate::history_homology::law_boundary_entries_unit(mid, high, r, j);
    }
}

/// In a complex whose levels from 2 up are each the next level of the one
/// below (as `build_rips` makes them), every column of `∂_k`, `k ≥ 2`, has
/// exactly `k + 1` nonzero entries, each `+1` or `-1`.
pub proof fn law_rips_boundary_columns(c: EventComplex, k: int, j: int)
    requires
        forall|d: int|
            2 <= d < c.levels().len() ==> is_next_level(
                #[trigger] c.levels()[d - 1],
                d,
                c.levels()[d],
            ),
        2 <= k < c.levels().len(),
        0 <= j < c.levels()[k].len(),
    ensures
        nonzero_rows(c.levels()[k - 1], c.levels()[k], j).len() == k + 1,
        forall|r: int|
            #[trigger] nonzero_rows(c.levels()[k - 1], c.levels()[k], j).contains(r) ==> boundary_entry(
                c.levels()[k - 1],
                c.levels()[k],
                r,
                j,
            ) == 1 || boundary_entry(c.levels()[k - 1], c.levels()[k], r, j) == -1,
{
    let mid = c.levels()[k - 1];
    let high = c.levels()[k];
    assert(is_next_level(mid, k, high));
    assert(high.contains(high[j]));
    assert(fills(mid, k, high[j]));
    law_boundary_column(mid, high, j);
}

} // verus!
