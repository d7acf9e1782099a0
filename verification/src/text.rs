//! Strings as sequences of characters: the lexicographic order of `String`
//! (which is the order of their characters' code points), sorted string
//! lists, and joining.

use vstd::prelude::*;
use vstd::string::*;

verus! {

/// `a` comes strictly before `b` in lexicographic order of code points.
pub open spec fn seq_lt(a: Seq<char>, b: Seq<char>) -> bool
    decreases a.len(),
{
    if a.len() == 0 {
        b.len() > 0
    } else if b.len() == 0 {
        false
    } else if a[0] != b[0] {
        a[0] < b[0]
    } else {
        seq_lt(a.drop_first(), b.drop_first())
    }
}

/// The sequence is sorted strictly increasingly.
pub open spec fn strictly_sorted(s: Seq<Seq<char>>) -> bool {
    forall|i: int, j: int| 0 <= i < j < s.len() ==> seq_lt(#[trigger] s[i], #[trigger] s[j])
}

/// Views of a sequence of strings.
pub open spec fn views(strings: Seq<String>) -> Seq<Seq<char>> {
    strings.map_values(|s: String| s@)
}

/// No sequence is before itself.
pub proof fn lemma_lt_irreflexive(a: Seq<char>)
    ensures
        !seq_lt(a, a),
    decreases a.len(),
{
    if a.len() > 0 {
        lemma_lt_irreflexive(a.drop_first());
    }
}

/// The order is transitive.
pub proof fn lemma_lt_transitive(a: Seq<char>, b: Seq<char>, c: Seq<char>)
    requires
        seq_lt(a, b),
        seq_lt(b, c),
    ensures
        seq_lt(a, c),
    decreases a.len(),
{
    if a.len() > 0 && b.len() > 0 && c.len() > 0 && a[0] == b[0] && b[0] == c[0] {
        lemma_lt_transitive(a.drop_first(), b.drop_first(), c.drop_first());
    }
}

/// Distinct sequences are ordered one way or the other.
pub proof fn lemma_lt_total(a: Seq<char>, b: Seq<char>)
    requires
        a != b,
    ensures
        seq_lt(a, b) || seq_lt(b, a),
    decreases a.len(),
{
    if a.len() > 0 && b.len() > 0 && a[0] != b[0] {
    } else if a.len() > 0 && b.len() > 0 && a[0] == b[0] {
        if a.drop_first() == b.drop_first() {
            assert(a =~= seq![a[0]] + a.drop_first());
            assert(b =~= seq![b[0]] + b.drop_first());
        }
        lemma_lt_total(a.drop_first(), b.drop_first());
    } else if a.len() == 0 && b.len() == 0 {
        assert(a =~= b);
    }
}

/// The characters of a string.
fn chars_of(s: &str) -> (chars: Vec<char>)
    ensures
        chars@ == s@,
{
    let n: usize = s.unicode_len();
    let mut chars: Vec<char> = Vec::new();
    let mut i: usize = 0;
    while i < n
        invariant
            i <= n,
            n == s@.len(),
            chars@ == s@.take(i as int),
        decreases n - i,
    {
        chars.push(s.get_char(i));
        proof {
            assert(chars@ =~= s@.take(i + 1));
        }
        i = i + 1;
    }
    proof {
        assert(s@.take(n as int) =~= s@);
    }
    chars
}

/// `a < b` in the order of `String`.
pub fn string_lt(a: &String, b: &String) -> (r: bool)
    ensures
        r == seq_lt(a@, b@),
{
    let x = chars_of(a.as_str());
    let y = chars_of(b.as_str());
    let mut i: usize = 0;
    proof {
        assert(a@.skip(0) =~= a@);
        assert(b@.skip(0) =~= b@);
    }
    while i < x.len() && i < y.len()
        invariant
            i <= x.len(),
            i <= y.len(),
            x@ == a@,
            y@ == b@,
            seq_lt(a@, b@) == seq_lt(a@.skip(i as int), b@.skip(i as int)),
        decreases x.len() - i,
    {
        if x[i] != y[i] {
            proof {
                assert(a@.skip(i as int)[0] == x@[i as int]);
                assert(b@.skip(i as int)[0] == y@[i as int]);
            }
            return x[i] < y[i];
        }
        proof {
            assert(a@.skip(i as int).drop_first() =~= a@.skip(i + 1));
            assert(b@.skip(i as int).drop_first() =~= b@.skip(i + 1));
        }
        i = i + 1;
    }
    i == x.len() && i < y.len()
}

/// Insert `s` into a strictly sorted list, keeping it strictly sorted; a
/// string already present is not added again.
pub fn insert_sorted(v: &mut Vec<String>, s: String)
    requires
        strictly_sorted(views(old(v)@)),
    ensures
        strictly_sorted(views(final(v)@)),
        views(final(v)@).to_set() == views(old(v)@).to_set().insert(s@),
        views(old(v)@).contains(s@) ==> final(v)@ == old(v)@,
        !views(old(v)@).contains(s@) ==> final(v)@.len() == old(v)@.len() + 1,
{
    let ghost before = views(v@);
    let mut i: usize = 0;
    while i < v.len()
        invariant
            v@ == old(v)@,
            before == views(v@),
            i <= v.len(),
            strictly_sorted(before),
            forall|k: int| 0 <= k < i ==> seq_lt(#[trigger] before[k], s@),
        ensures
            i <= v.len(),
            v@ == old(v)@,
            forall|k: int| 0 <= k < i ==> seq_lt(#[trigger] before[k], s@),
            i < v.len() ==> seq_lt(s@, before[i as int]),
        decreases v.len() - i,
    {
        if v[i] == s {
            proof {
                assert(before[i as int] == s@);
                assert(views(v@).to_set() =~= views(v@).to_set().insert(s@));
            }
            return;
        }
        if string_lt(&s, &v[i]) {
            break;
        }
        proof {
            assert(before[i as int] != s@);
            lemma_lt_total(before[i as int], s@);
        }
        i = i + 1;
    }
    // every element before `i` is below `s`; `s` is below the element at `i`
    proof {
        assert forall|k: int| i <= k < before.len() implies seq_lt(s@, #[trigger] before[k]) by {
            if k > i {
                assert(seq_lt(before[i as int], before[k]));
                lemma_lt_transitive(s@, before[i as int], before[k]);
            }
        }
        assert(!before.contains(s@)) by {
            if before.contains(s@) {
                let k = choose|k: int| 0 <= k < before.len() && before[k] == s@;
                lemma_lt_irreflexive(s@);
            }
        }
    }
    v.insert(i, s);
    proof {
        let after = views(v@);
        assert(after =~= before.subrange(0, i as int).push(s@) + before.subrange(
            i as int,
            before.len() as int,
        ));
        assert forall|a: int, b: int| 0 <= a < b < after.len() implies seq_lt(
            #[trigger] after[a],
            #[trigger] after[b],
        ) by {
            if a < i && b < i {
            } else if a < i && b == i {
            } else if a < i && b > i {
                assert(after[b] == before[b - 1]);
            } else if a == i {
                assert(after[b] == before[b - 1]);
            } else {
                assert(after[a] == before[a - 1]);
                assert(after[b] == before[b - 1]);
            }
        }
        assert(after.to_set() =~= before.to_set().insert(s@)) by {
            assert forall|x: Seq<char>| after.to_set().contains(x) <==> before.to_set().insert(
                s@,
            ).contains(x) by {
                if after.contains(x) {
                    let k = choose|k: int| 0 <= k < after.len() && after[k] == x;
                    if k < i {
                        assert(before[k] == x);
                    } else if k > i {
                        assert(before[k - 1] == x);
                    }
                }
                if before.contains(x) {
                    let k = choose|k: int| 0 <= k < before.len() && before[k] == x;
                    if k < i {
                        assert(after[k] == x);
                    } else {
                        assert(after[k + 1] == x);
                    }
                }
                if x == s@ {
                    assert(after[i as int] == x);
                }
            }
        }
    }
}

/// The strings joined with `sep` between consecutive items.
pub open spec fn joined(items: Seq<Seq<char>>, sep: Seq<char>) -> Seq<char>
    decreases items.len(),
{
    if items.len() == 0 {
        Seq::empty()
    } else if items.len() == 1 {
        items[0]
    } else {
        joined(items.drop_last(), sep) + sep + items.last()
    }
}

/// Join the strings with `sep` between consecutive items.
pub fn join(items: &Vec<String>, sep: &str) -> (r: String)
    ensures
        r@ == joined(views(items@), sep@),
{
    let mut r = String::new();
    let mut i: usize = 0;
    while i < items.len()
        invariant
            i <= items.len(),
            r@ == joined(views(items@).take(i as int), sep@),
        decreases items.len() - i,
    {
        if i > 0 {
            r.append(sep);
        }
        r.append(items[i].as_str());
        proof {
            let t = views(items@).take(i + 1);
            assert(t.drop_last() =~= views(items@).take(i as int));
            if i == 0 {
                assert(t.len() == 1);
            }
        }
        i = i + 1;
    }
    proof {
        assert(views(items@).take(items@.len() as int) =~= views(items@));
    }
    r
}

/// A strictly sorted list of strings is determined by its members.
pub proof fn law_sorted_unique(a: Seq<Seq<char>>, b: Seq<Seq<char>>)
    requires
        strictly_sorted(a),
        strictly_sorted(b),
        a.to_set() == b.to_set(),
    ensures
        a == b,
    decreases a.len() + b.len(),
{
    assert forall|u: Seq<char>| a.contains(u) <==> b.contains(u) by {
        assert(a.to_set().contains(u) == b.to_set().contains(u));
        assert(a.to_set().contains(u) == a.contains(u));
        assert(b.to_set().contains(u) == b.contains(u));
    }
    if a.len() == 0 || b.len() == 0 {
        if a.len() > 0 {
            assert(a.contains(a[0]));
        }
        if b.len() > 0 {
            assert(b.contains(b[0]));
        }
        assert(a =~= b);
    } else {
        assert(a.contains(a[0]));
        assert(b.contains(b[0]));
        let ka = choose|k: int| 0 <= k < b.len() && b[k] == a[0];
        let kb = choose|k: int| 0 <= k < a.len() && a[k] == b[0];
        if a[0] != b[0] {
            assert(ka > 0 && kb > 0);
            assert(seq_lt(b[0], b[ka]));
            assert(seq_lt(a[0], a[kb]));
            lemma_lt_transitive(a[0], b[0], a[0]);
            lemma_lt_irreflexive(a[0]);
        }
        let ra = a.drop_first();
        let rb = b.drop_first();
        assert forall|u: Seq<char>| ra.to_set().contains(u) <==> rb.to_set().contains(u) by {
            if ra.contains(u) {
                let k = choose|k: int| 0 <= k < ra.len() && ra[k] == u;
                assert(a[k + 1] == u);
                assert(seq_lt(a[0], u));
                assert(b.contains(u));
                let m = choose|m: int| 0 <= m < b.len() && b[m] == u;
                if m == 0 {
                    lemma_lt_irreflexive(u);
                }
                assert(rb[m - 1] == u);
            }
            if rb.contains(u) {
                let k = choose|k: int| 0 <= k < rb.len() && rb[k] == u;
                assert(b[k + 1] == u);
                assert(seq_lt(b[0], u));
                assert(a.contains(u));
                let m = choose|m: int| 0 <= m < a.len() && a[m] == u;
                if m == 0 {
                    lemma_lt_irreflexive(u);
                }
                assert(ra[m - 1] == u);
            }
        }
        assert(ra.to_set() =~= rb.to_set());
        law_sorted_unique(ra, rb);
        assert(a =~= seq![a[0]] + ra);
        assert(b =~= seq![b[0]] + rb);
    }
}

/// `a` and `b` first differ at position `i`, where `a` has the smaller
/// character.
pub open spec fn first_difference_below(a: Seq<char>, b: Seq<char>, i: int) -> bool {
    0 <= i < a.len() && i < b.len() && a.take(i) == b.take(i) && a[i] < b[i]
}

/// The order of strings is lexicographic by code point: `a` comes before
/// `b` exactly when `a` is a proper prefix of `b`, or where they first
/// differ `a` has the smaller character.
pub proof fn law_seq_lt_lexicographic(a: Seq<char>, b: Seq<char>)
    ensures
        seq_lt(a, b) <==> ((a.len() < b.len() && a == b.take(a.len() as int)) || exists|i: int|
            #[trigger] first_difference_below(a, b, i)),
    decreases a.len(),
{
    if a.len() == 0 {
        assert(a =~= b.take(0));
    } else if b.len() == 0 {
    } else if a[0] != b[0] {
        if a[0] < b[0] {
            assert(a.take(0) =~= b.take(0));
            assert(first_difference_below(a, b, 0));
        }
        if a.len() < b.len() && a == b.take(a.len() as int) {
            assert(a[0] == b.take(a.len() as int)[0]);
        }
        if exists|i: int| #[trigger] first_difference_below(a, b, i) {
            let i = choose|i: int| #[trigger] first_difference_below(a, b, i);
            if i > 0 {
                assert(a.take(i)[0] == b.take(i)[0]);
            }
        }
    } else {
        let a1 = a.drop_first();
        let b1 = b.drop_first();
        law_seq_lt_lexicographic(a1, b1);
        if a.len() < b.len() && a == b.take(a.len() as int) {
            assert(a1 =~= b1.take(a1.len() as int));
        }
        if a1.len() < b1.len() && a1 == b1.take(a1.len() as int) {
            assert forall|k: int| 0 <= k < a.len() implies a[k] == b.take(a.len() as int)[k] by {
                if k > 0 {
                    assert(a[k] == a1[k - 1]);
                    assert(a1[k - 1] == b1.take(a1.len() as int)[k - 1]);
                    assert(b1[k - 1] == b[k]);
                }
            }
            assert(a =~= b.take(a.len() as int));
        }
        if exists|i: int| #[trigger] first_difference_below(a, b, i) {
            let i = choose|i: int| #[trigger] first_difference_below(a, b, i);
            assert(i != 0);
            assert(a1.take(i - 1) =~= a.take(i).drop_first());
            assert(b1.take(i - 1) =~= b.take(i).drop_first());
            assert(first_difference_below(a1, b1, i - 1));
        }
        if exists|i: int| #[trigger] first_difference_below(a1, b1, i) {
            let i = choose|i: int| #[trigger] first_difference_below(a1, b1, i);
            assert(a.take(i + 1) =~= seq![a[0]] + a1.take(i));
            assert(b.take(i + 1) =~= seq![b[0]] + b1.take(i));
            assert(first_difference_below(a, b, i + 1));
        }
    }
}

/// The items, each after the first preceded by `sep`.
pub open spec fn separated(items: Seq<Seq<char>>, sep: Seq<char>) -> Seq<Seq<char>> {
    Seq::new(items.len(), |i: int| if i == 0 { items[0] } else { sep + items[i] })
}

/// Joining puts `sep` between consecutive items and nothing else: the
/// result is the concatenation of the first item and of `sep` followed by
/// each later item.
pub proof fn law_join_separates(items: Seq<Seq<char>>, sep: Seq<char>)
    ensures
        joined(items, sep) == separated(items, sep).flatten(),
    decreases items.len(),
{
    separated(items, sep).lemma_flatten_and_flatten_alt_are_equivalent();
    if items.len() >= 2 {
        law_join_separates(items.drop_last(), sep);
        separated(items.drop_last(), sep).lemma_flatten_and_flatten_alt_are_equivalent();
        assert(separated(items, sep).drop_last() =~= separated(items.drop_last(), sep));
        assert(separated(items, sep).last() == sep + items.last());
        assert(joined(items, sep) =~= joined(items.drop_last(), sep) + (sep + items.last()));
    } else if items.len() == 1 {
        let w = separated(items, sep);
        assert(w.drop_last() =~= Seq::<Seq<char>>::empty());
        assert(w.drop_last().flatten_alt() =~= Seq::<char>::empty());
        assert(w.last() == items[0]);
        assert(w.flatten_alt() == w.drop_last().flatten_alt().add(w.last()));
        assert(w.flatten_alt() =~= items[0]);
    }
}

} // verus!
