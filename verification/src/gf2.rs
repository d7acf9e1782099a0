//! Linear algebra over GF(2): rows of bits, their row space (every XOR
//! combination of the rows), and the rank, the dimension `r` of the row
//! space, which then holds exactly `2^r` vectors. The rank is computed by
//! Gaussian elimination.

use vstd::prelude::*;
use vstd::arithmetic::power2::{pow2, lemma_pow2_unfold, lemma_pow2_strictly_increases};
use vstd::relations::injective_on;
use vstd::set_lib::{lemma_map_size, lemma_set_disjoint_lens};

verus! {

/// `a + b` over GF(2), bit by bit.
pub open spec fn vxor(a: Seq<bool>, b: Seq<bool>) -> Seq<bool> {
    Seq::new(a.len(), |t: int| a[t] != b[t])
}

/// The zero vector with `c` bits.
pub open spec fn zero_vec(c: nat) -> Seq<bool> {
    Seq::new(c, |t: int| false)
}

/// The sum over GF(2) of the rows among the first `m` that `pick` selects.
pub open spec fn combination(rows: Seq<Seq<bool>>, pick: spec_fn(int) -> bool, c: nat, m: int) -> Seq<bool>
    decreases m,
{
    if m <= 0 {
        zero_vec(c)
    } else {
        let v = combination(rows, pick, c, m - 1);
        if pick(m - 1) {
            vxor(v, rows[m - 1])
        } else {
            v
        }
    }
}

/// Every combination of the first `m` rows.
pub open spec fn combinations_upto(rows: Seq<Seq<bool>>, c: nat, m: int) -> Set<Seq<bool>> {
    Set::new(|v: Seq<bool>| exists|pick: spec_fn(int) -> bool| v == #[trigger] combination(rows, pick, c, m))
}

/// The row space over GF(2): every combination of the rows.
pub open spec fn row_space(rows: Seq<Seq<bool>>, c: nat) -> Set<Seq<bool>> {
    combinations_upto(rows, c, rows.len() as int)
}

/// The rank over GF(2): the dimension `r` of the row space, which has
/// `2^r` vectors.
pub open spec fn rank(rows: Seq<Seq<bool>>, c: nat) -> nat {
    choose|r: nat| row_space(rows, c).finite() && row_space(rows, c).len() == pow2(r)
}

/// The rows, each `c` bits long.
pub open spec fn has_width(rows: Seq<Seq<bool>>, c: nat) -> bool {
    forall|i: int| 0 <= i < rows.len() ==> (#[trigger] rows[i]).len() == c
}

/// Bit rows of vectors.
pub open spec fn bit_rows(rows: Seq<Vec<bool>>) -> Seq<Seq<bool>> {
    rows.map_values(|v: Vec<bool>| v@)
}

proof fn lemma_combination_len(rows: Seq<Seq<bool>>, pick: spec_fn(int) -> bool, c: nat, m: int)
    ensures
        combination(rows, pick, c, m).len() == c,
    decreases m,
{
    if m > 0 {
        lemma_combination_len(rows, pick, c, m - 1);
    }
}

/// Picks that agree on the first `m` rows give the same combination.
proof fn lemma_combination_agree(
    rows: Seq<Seq<bool>>,
    p1: spec_fn(int) -> bool,
    p2: spec_fn(int) -> bool,
    c: nat,
    m: int,
)
    requires
        forall|k: int| 0 <= k < m ==> #[trigger] p1(k) == p2(k),
    ensures
        combination(rows, p1, c, m) == combination(rows, p2, c, m),
    decreases m,
{
    if m > 0 {
        lemma_combination_agree(rows, p1, p2, c, m - 1);
    }
}

/// Replacing row `i` by `w` changes bit `t` of a combination that picks
/// row `i` by how `w` differs from it there.
proof fn lemma_combination_update(
    rows: Seq<Seq<bool>>,
    i: int,
    w: Seq<bool>,
    pick: spec_fn(int) -> bool,
    c: nat,
    m: int,
    t: int,
)
    requires
        0 <= i < rows.len(),
        m <= rows.len(),
        0 <= t < c,
    ensures
        combination(rows.update(i, w), pick, c, m)[t] == (combination(rows, pick, c, m)[t] != (0
            <= i < m && pick(i) && (rows[i][t] != w[t]))),
    decreases m,
{
    lemma_combination_len(rows.update(i, w), pick, c, m);
    lemma_combination_len(rows, pick, c, m);
    if m > 0 {
        lemma_combination_update(rows, i, w, pick, c, m - 1, t);
        lemma_combination_len(rows.update(i, w), pick, c, m - 1);
        lemma_combination_len(rows, pick, c, m - 1);
    }
}

/// Changing the pick of row `p` alone changes bit `t` by that row's bit.
proof fn lemma_combination_toggle(
    rows: Seq<Seq<bool>>,
    p1: spec_fn(int) -> bool,
    p2: spec_fn(int) -> bool,
    p: int,
    c: nat,
    m: int,
    t: int,
)
    requires
        forall|k: int| k != p ==> #[trigger] p1(k) == p2(k),
        0 <= t < c,
    ensures
        combination(rows, p2, c, m)[t] == (combination(rows, p1, c, m)[t] != (0 <= p < m && p1(p)
            != p2(p) && rows[p][t])),
    decreases m,
{
    lemma_combination_len(rows, p1, c, m);
    lemma_combination_len(rows, p2, c, m);
    if m > 0 {
        lemma_combination_toggle(rows, p1, p2, p, c, m - 1, t);
        lemma_combination_len(rows, p1, c, m - 1);
        lemma_combination_len(rows, p2, c, m - 1);
    }
}

/// Combinations of the first `m` rows are those of the first `m - 1`, with
/// or without row `m - 1` added.
proof fn lemma_combinations_step(rows: Seq<Seq<bool>>, c: nat, m: int)
    requires
        m >= 1,
    ensures
        combinations_upto(rows, c, m) == combinations_upto(rows, c, m - 1) + combinations_upto(
            rows,
            c,
            m - 1,
        ).map(|v: Seq<bool>| vxor(v, rows[m - 1])),
{
    let s = combinations_upto(rows, c, m - 1);
    let f = |v: Seq<bool>| vxor(v, rows[m - 1]);
    assert forall|v: Seq<bool>| #[trigger] combinations_upto(rows, c, m).contains(v) <==> (s + s.map(f)).contains(v) by {
        if combinations_upto(rows, c, m).contains(v) {
            let pick = choose|pick: spec_fn(int) -> bool| v == #[trigger] combination(rows, pick, c, m);
            let w = combination(rows, pick, c, m - 1);
            assert(s.contains(w));
            if pick(m - 1) {
                assert(s.map(f).contains(v));
            }
        }
        if s.contains(v) {
            let p0 = choose|pick: spec_fn(int) -> bool| v == #[trigger] combination(rows, pick, c, m - 1);
            let p1 = |k: int| if k == m - 1 { false } else { p0(k) };
            lemma_combination_agree(rows, p0, p1, c, m - 1);
            assert(v == combination(rows, p1, c, m));
        }
        if s.map(f).contains(v) {
            let w = choose|w: Seq<bool>| s.contains(w) && v == f(w);
            let p0 = choose|pick: spec_fn(int) -> bool| w == #[trigger] combination(rows, pick, c, m - 1);
            let p1 = |k: int| if k == m - 1 { true } else { p0(k) };
            lemma_combination_agree(rows, p0, p1, c, m - 1);
            assert(v == combination(rows, p1, c, m));
        }
    }
    assert(combinations_upto(rows, c, m) =~= s + s.map(f));
}

/// Adding row `p` to row `i` does not change the row space.
proof fn lemma_row_space_add(rows: Seq<Seq<bool>>, c: nat, i: int, p: int)
    requires
        has_width(rows, c),
        0 <= i < rows.len(),
        0 <= p < rows.len(),
        i != p,
    ensures
        row_space(rows.update(i, vxor(rows[i], rows[p])), c) == row_space(rows, c),
{
    let n = rows.len() as int;
    let w = vxor(rows[i], rows[p]);
    let after = rows.update(i, w);
    assert forall|q: spec_fn(int) -> bool| #[trigger] combination(after, q, c, n) == combination(
        rows,
        |k: int| if k == p { q(p) != q(i) } else { q(k) },
        c,
        n,
    ) by {
        let q2 = |k: int| if k == p { q(p) != q(i) } else { q(k) };
        lemma_combination_len(after, q, c, n);
        lemma_combination_len(rows, q2, c, n);
        assert forall|t: int| 0 <= t < c implies combination(after, q, c, n)[t] == combination(
            rows,
            q2,
            c,
            n,
        )[t] by {
            lemma_combination_update(rows, i, w, q, c, n, t);
            lemma_combination_toggle(rows, q, q2, p, c, n, t);
        }
        assert(combination(after, q, c, n) =~= combination(rows, q2, c, n));
    }
    assert forall|v: Seq<bool>| #[trigger] row_space(after, c).contains(v) <==> row_space(rows, c).contains(v) by {
        if row_space(after, c).contains(v) {
            let q = choose|pick: spec_fn(int) -> bool| v == #[trigger] combination(after, pick, c, n);
            let q2 = |k: int| if k == p { q(p) != q(i) } else { q(k) };
            assert(v == combination(rows, q2, c, n));
        }
        if row_space(rows, c).contains(v) {
            let q = choose|pick: spec_fn(int) -> bool| v == #[trigger] combination(rows, pick, c, n);
            let q1 = |k: int| if k == p { q(p) != q(i) } else { q(k) };
            let q2 = |k: int| if k == p { q1(p) != q1(i) } else { q1(k) };
            assert(combination(after, q1, c, n) == combination(rows, q2, c, n));
            lemma_combination_agree(rows, q2, q, c, n);
            assert(v == combination(after, q1, c, n));
        }
    }
    assert(row_space(after, c) =~= row_space(rows, c));
}

/// Exchanging rows `a` and `b` does not change the row space.
proof fn lemma_row_space_swap(rows: Seq<Seq<bool>>, c: nat, a: int, b: int)
    requires
        has_width(rows, c),
        0 <= a < rows.len(),
        0 <= b < rows.len(),
        a != b,
    ensures
        row_space(rows.update(a, rows[b]).update(b, rows[a]), c) == row_space(rows, c),
{
    let n = rows.len() as int;
    let r1 = rows.update(a, rows[b]);
    let after = r1.update(b, rows[a]);
    assert forall|q: spec_fn(int) -> bool| #[trigger] combination(after, q, c, n) == combination(
        rows,
        |k: int| if k == a { q(b) } else if k == b { q(a) } else { q(k) },
        c,
        n,
    ) by {
        let q1 = |k: int| if k == a { q(b) } else { q(k) };
        let q2 = |k: int| if k == a { q(b) } else if k == b { q(a) } else { q(k) };
        lemma_combination_len(after, q, c, n);
        lemma_combination_len(rows, q2, c, n);
        assert forall|t: int| 0 <= t < c implies combination(after, q, c, n)[t] == combination(
            rows,
            q2,
            c,
            n,
        )[t] by {
            lemma_combination_update(r1, b, rows[a], q, c, n, t);
            lemma_combination_update(rows, a, rows[b], q, c, n, t);
            lemma_combination_toggle(rows, q, q1, a, c, n, t);
            lemma_combination_toggle(rows, q1, q2, b, c, n, t);
        }
        assert(combination(after, q, c, n) =~= combination(rows, q2, c, n));
    }
    assert forall|v: Seq<bool>| #[trigger] row_space(after, c).contains(v) <==> row_space(rows, c).contains(v) by {
        if row_space(after, c).contains(v) {
            let q = choose|pick: spec_fn(int) -> bool| v == #[trigger] combination(after, pick, c, n);
            let q2 = |k: int| if k == a { q(b) } else if k == b { q(a) } else { q(k) };
            assert(v == combination(rows, q2, c, n));
        }
        if row_space(rows, c).contains(v) {
            let q = choose|pick: spec_fn(int) -> bool| v == #[trigger] combination(rows, pick, c, n);
            let q1 = |k: int| if k == a { q(b) } else if k == b { q(a) } else { q(k) };
            let q2 = |k: int| if k == a { q1(b) } else if k == b { q1(a) } else { q1(k) };
            assert(combination(after, q1, c, n) == combination(rows, q2, c, n));
            lemma_combination_agree(rows, q2, q, c, n);
            assert(v == combination(after, q1, c, n));
        }
    }
    assert(row_space(after, c) =~= row_space(rows, c));
}

/// A bit clear in each of the first `m` rows is clear in their
/// combinations.
proof fn lemma_combination_clear(rows: Seq<Seq<bool>>, pick: spec_fn(int) -> bool, c: nat, m: int, t: int)
    requires
        0 <= t < c,
        forall|k: int| 0 <= k < m ==> !(#[trigger] rows[k])[t],
    ensures
        !combination(rows, pick, c, m)[t],
    decreases m,
{
    lemma_combination_len(rows, pick, c, m);
    if m > 0 {
        lemma_combination_clear(rows, pick, c, m - 1, t);
        lemma_combination_len(rows, pick, c, m - 1);
        assert(!rows[m - 1][t]);
    }
}

/// Every combination of the first `m` rows has `c` bits.
proof fn lemma_combinations_width(rows: Seq<Seq<bool>>, c: nat, m: int, v: Seq<bool>)
    requires
        combinations_upto(rows, c, m).contains(v),
    ensures
        v.len() == c,
{
    let pick = choose|pick: spec_fn(int) -> bool| v == #[trigger] combination(rows, pick, c, m);
    lemma_combination_len(rows, pick, c, m);
}

/// Rows `0..r` in pivot form (row `q` holds the only set bit of column
/// `pc[q]`): the combinations of the first `m <= r` of them are `2^m`
/// distinct vectors.
proof fn lemma_pivot_combinations(rows: Seq<Seq<bool>>, c: nat, pc: Seq<int>, r: int, m: int)
    requires
        has_width(rows, c),
        0 <= m <= r <= rows.len(),
        pc.len() == r,
        forall|q: int|
            0 <= q < r ==> 0 <= #[trigger] pc[q] < c && rows[q][pc[q]] && forall|k: int|
                0 <= k < rows.len() && k != q ==> !rows[k][pc[q]],
    ensures
        combinations_upto(rows, c, m).finite(),
        combinations_upto(rows, c, m).len() == pow2(m as nat),
    decreases m,
{
    if m == 0 {
        assert forall|v: Seq<bool>| #[trigger] combinations_upto(rows, c, 0).contains(v) <==> v == zero_vec(c) by {
            if v == zero_vec(c) {
                assert(v == combination(rows, |k: int| false, c, 0));
            }
        }
        assert(combinations_upto(rows, c, 0) =~= set![zero_vec(c)]);
        assert(pow2(0) == 1) by {
            vstd::arithmetic::power2::lemma2_to64();
        }
    } else {
        lemma_pivot_combinations(rows, c, pc, r, m - 1);
        lemma_combinations_step(rows, c, m);
        let s = combinations_upto(rows, c, m - 1);
        let row = rows[m - 1];
        let f = |v: Seq<bool>| vxor(v, row);
        let t = pc[m - 1];
        assert(injective_on(f, s)) by {
            assert forall|v: Seq<bool>, w: Seq<bool>| s.contains(v) && s.contains(w) && #[trigger] f(v) == #[trigger] f(w) implies v == w by {
                lemma_combinations_width(rows, c, m - 1, v);
                lemma_combinations_width(rows, c, m - 1, w);
                assert forall|x: int| 0 <= x < c implies v[x] == w[x] by {
                    assert(f(v)[x] == f(w)[x]);
                }
                assert(v =~= w);
            }
        }
        lemma_map_size(s, s.map(f), f);
        assert(s.disjoint(s.map(f))) by {
            assert forall|v: Seq<bool>| s.contains(v) implies !s.map(f).contains(v) by {
                let p0 = choose|pick: spec_fn(int) -> bool| v == #[trigger] combination(rows, pick, c, m - 1);
                assert forall|k: int| 0 <= k < m - 1 implies !(#[trigger] rows[k])[t] by {}
                lemma_combination_clear(rows, p0, c, m - 1, t);
                if s.map(f).contains(v) {
                    let w = choose|w: Seq<bool>| s.contains(w) && v == f(w);
                    let p1 = choose|pick: spec_fn(int) -> bool| w == #[trigger] combination(rows, pick, c, m - 1);
                    lemma_combination_clear(rows, p1, c, m - 1, t);
                    lemma_combination_len(rows, p1, c, m - 1);
                    assert(v[t] == (w[t] != row[t]));
                }
            }
        }
        lemma_set_disjoint_lens(s, s.map(f));
        lemma_pow2_unfold(m as nat);
    }
}

/// Zero rows after the first `r` add no combinations.
proof fn lemma_zero_rows_combinations(rows: Seq<Seq<bool>>, c: nat, r: int, m: int)
    requires
        0 <= r <= m <= rows.len(),
        forall|k: int| r <= k < rows.len() ==> #[trigger] rows[k] == zero_vec(c),
    ensures
        combinations_upto(rows, c, m) == combinations_upto(rows, c, r),
    decreases m,
{
    if m > r {
        lemma_zero_rows_combinations(rows, c, r, m - 1);
        lemma_combinations_step(rows, c, m);
        let s = combinations_upto(rows, c, m - 1);
        let f = |v: Seq<bool>| vxor(v, rows[m - 1]);
        assert forall|v: Seq<bool>| s.map(f).contains(v) <==> s.contains(v) by {
            if s.map(f).contains(v) {
                let w = choose|w: Seq<bool>| s.contains(w) && v == f(w);
                lemma_combinations_width(rows, c, m - 1, w);
                assert(v =~= w);
            }
            if s.contains(v) {
                lemma_combinations_width(rows, c, m - 1, v);
                assert(f(v) =~= v);
                assert(s.map(f).contains(f(v)));
            }
        }
        assert(s.map(f) =~= s);
        assert(s + s =~= s);
    }
}

/// A row space of `2^r` vectors has rank `r`.
proof fn lemma_rank_is(rows: Seq<Seq<bool>>, c: nat, r: nat)
    requires
        row_space(rows, c).finite(),
        row_space(rows, c).len() == pow2(r),
    ensures
        rank(rows, c) == r,
{
    let r2 = rank(rows, c);
    assert(row_space(rows, c).finite() && row_space(rows, c).len() == pow2(r2));
    if r2 < r {
        lemma_pow2_strictly_increases(r2, r);
    } else if r < r2 {
        lemma_pow2_strictly_increases(r, r2);
    }
}

/// `a + b` over GF(2).
fn xor_rows(a: &Vec<bool>, b: &Vec<bool>) -> (r: Vec<bool>)
    requires
        a@.len() == b@.len(),
    ensures
        r@ == vxor(a@, b@),
{
    let mut r: Vec<bool> = Vec::new();
    let mut t: usize = 0;
    while t < a.len()
        invariant
            t <= a@.len(),
            a@.len() == b@.len(),
            r@.len() == t,
            forall|u: int| 0 <= u < t ==> #[trigger] r@[u] == (a@[u] != b@[u]),
        decreases a@.len() - t,
    {
        r.push(a[t] != b[t]);
        t = t + 1;
    }
    assert(r@ =~= vxor(a@, b@));
    r
}

/// A copy of a row.
fn copy_row(a: &Vec<bool>) -> (r: Vec<bool>)
    ensures
        r@ == a@,
{
    let mut r: Vec<bool> = Vec::new();
    let mut t: usize = 0;
    while t < a.len()
        invariant
            t <= a@.len(),
            r@ == a@.take(t as int),
        decreases a@.len() - t,
    {
        r.push(a[t]);
        t = t + 1;
        assert(r@ =~= a@.take(t as int));
    }
    assert(a@.take(a@.len() as int) =~= a@);
    r
}

/// The rank over GF(2) of the rows, each `cols` bits, by Gauss–Jordan
/// elimination: for each column a row with a set bit there, among those
/// not yet used, becomes the next pivot and is added to every other row
/// with that bit set.
pub fn gf2_rank(rows: Vec<Vec<bool>>, cols: usize) -> (r: usize)
    requires
        has_width(bit_rows(rows@), cols as nat),
    ensures
        r == rank(bit_rows(rows@), cols as nat),
        r <= rows@.len(),
        r <= cols,
{
    let ghost start = bit_rows(rows@);
    let ghost cn = cols as nat;
    let mut m = rows;
    let n = m.len();
    let mut rank: usize = 0;
    let ghost mut pc: Seq<int> = Seq::empty();
    let mut c: usize = 0;
    while c < cols
        invariant
            cn == cols as nat,
            c <= cols,
            rank <= c,
            rank <= n,
            m@.len() == n,
            pc.len() == rank,
            has_width(bit_rows(m@), cn),
            row_space(bit_rows(m@), cn) == row_space(start, cn),
            forall|q: int|
                0 <= q < rank ==> 0 <= #[trigger] pc[q] < c && bit_rows(m@)[q][pc[q]] && forall|k: int|
                    0 <= k < n && k != q ==> !bit_rows(m@)[k][pc[q]],
            forall|k: int, t: int| rank <= k < n && 0 <= t < c ==> !#[trigger] bit_rows(m@)[k][t],
        decreases cols - c,
    {
        proof {
            assert forall|i: int| 0 <= i < n implies (#[trigger] m@[i])@.len() == cols by {
                assert(bit_rows(m@)[i] == m@[i]@);
            }
        }
        let mut p: usize = rank;
        while p < n && !m[p][c]
            invariant
                rank <= p <= n,
                m@.len() == n,
                c < cols,
                has_width(bit_rows(m@), cn),
                forall|i: int| 0 <= i < n ==> (#[trigger] m@[i])@.len() == cols,
                forall|k: int| rank <= k < p ==> !(#[trigger] bit_rows(m@)[k])[c as int],
            decreases n - p,
        {
            proof {
                assert(bit_rows(m@)[p as int] == m@[p as int]@);
            }
            p = p + 1;
        }
        if p < n {
            proof {
                assert(bit_rows(m@)[p as int] == m@[p as int]@);
            }
            if p != rank {
                let ghost before = bit_rows(m@);
                let pivot = copy_row(&m[p]);
                let other = copy_row(&m[rank]);
                m.set(p, other);
                m.set(rank, pivot);
                proof {
                    assert(bit_rows(m@) =~= before.update(p as int, before[rank as int]).update(
                        rank as int,
                        before[p as int],
                    ));
                    lemma_row_space_swap(before, cn, p as int, rank as int);
                }
            }
            let ghost prow = bit_rows(m@)[rank as int];
            let mut i: usize = 0;
            while i < n
                invariant
                    cn == cols as nat,
                    i <= n,
                    rank < n,
                    rank <= c < cols,
                    m@.len() == n,
                    pc.len() == rank,
                    has_width(bit_rows(m@), cn),
                    row_space(bit_rows(m@), cn) == row_space(start, cn),
                    bit_rows(m@)[rank as int] == prow,
                    prow[c as int],
                    forall|t: int| 0 <= t < c ==> !#[trigger] prow[t],
                    forall|q: int|
                        0 <= q < rank ==> 0 <= #[trigger] pc[q] < c && bit_rows(m@)[q][pc[q]] && forall|k: int|
                            0 <= k < n && k != q ==> !bit_rows(m@)[k][pc[q]],
                    forall|k: int, t: int| rank < k < n && 0 <= t < c ==> !#[trigger] bit_rows(m@)[k][t],
                    forall|k: int| 0 <= k < i && k != rank ==> !(#[trigger] bit_rows(m@)[k])[c as int],
                decreases n - i,
            {
                proof {
                    assert(bit_rows(m@)[i as int] == m@[i as int]@);
                    assert(bit_rows(m@)[rank as int] == m@[rank as int]@);
                }
                if i != rank && m[i][c] {
                    let ghost before = bit_rows(m@);
                    let sum = xor_rows(&m[i], &m[rank]);
                    m.set(i, sum);
                    proof {
                        assert(bit_rows(m@) =~= before.update(
                            i as int,
                            vxor(before[i as int], before[rank as int]),
                        ));
                        lemma_row_space_add(before, cn, i as int, rank as int);
                        assert forall|q: int|
                            0 <= q < rank implies 0 <= #[trigger] pc[q] < c && bit_rows(m@)[q][pc[q]]
                                && forall|k: int| 0 <= k < n && k != q ==> !bit_rows(m@)[k][pc[q]] by {
                            assert(!prow[pc[q]]);
                            assert forall|k: int| 0 <= k < n && k != q implies !bit_rows(m@)[k][pc[q]] by {
                                if k == i {
                                    assert(!before[k][pc[q]]);
                                } else {
                                    assert(bit_rows(m@)[k] == before[k]);
                                }
                            }
                            if q == i {
                                assert(bit_rows(m@)[q][pc[q]] == (before[q][pc[q]] != prow[pc[q]]));
                            } else {
                                assert(bit_rows(m@)[q] == before[q]);
                            }
                        }
                        assert forall|k: int, t: int| rank < k < n && 0 <= t < c implies !#[trigger] bit_rows(
                            m@,
                        )[k][t] by {
                            if k == i {
                                assert(!prow[t]);
                                assert(!before[k][t]);
                            } else {
                                assert(bit_rows(m@)[k] == before[k]);
                            }
                        }
                        assert forall|k: int| 0 <= k < i + 1 && k != rank implies !(
                        #[trigger] bit_rows(m@)[k])[c as int] by {
                            if k != i {
                                assert(bit_rows(m@)[k] == before[k]);
                            }
                        }
                    }
                }
                i = i + 1;
            }
            proof {
                pc = pc.push(c as int);
                assert forall|q: int|
                    0 <= q < rank + 1 implies 0 <= #[trigger] pc[q] < c + 1 && bit_rows(m@)[q][pc[q]]
                        && forall|k: int| 0 <= k < n && k != q ==> !bit_rows(m@)[k][pc[q]] by {
                    if q == rank {
                        assert(pc[q] == c);
                    }
                }
            }
            rank = rank + 1;
        }
        c = c + 1;
    }
    proof {
        let b = bit_rows(m@);
        assert forall|k: int| rank <= k < b.len() implies #[trigger] b[k] == zero_vec(cn) by {
            assert forall|t: int| 0 <= t < cn implies b[k][t] == zero_vec(cn)[t] by {
                assert(!b[k][t]);
            }
            assert(b[k] =~= zero_vec(cn));
        }
        lemma_pivot_combinations(b, cn, pc, rank as int, rank as int);
        lemma_zero_rows_combinations(b, cn, rank as int, n as int);
        lemma_rank_is(start, cn, rank as nat);
    }
    rank
}

} // verus!
