//! The index logic of alert spectral analysis: which frequency bin
//! dominates a spectrum, and how a series is cut into the overlapping
//! windows of a spectrogram. Magnitudes are binary64 bit patterns; the
//! transforms themselves are floating point and live with the numeric
//! front end.

use vstd::prelude::*;
use vstd::arithmetic::div_mod::lemma_fundamental_div_mod;
use vstd::arithmetic::mul::lemma_mul_inequality;
use crate::binary64::{is_nan, lt, less_than, lemma_lt_weak_order};

verus! {

/// The dominant bin of a spectrum of `n` magnitudes is searched among
/// bins 1 ..= n / 2 (the DC bin 0 is skipped).
pub open spec fn is_candidate(n: int, i: int) -> bool {
    1 <= i <= n / 2
}

/// `d` is the dominant bin of `mags`: no candidate is greater, and every
/// later candidate is smaller (the last of equal maxima wins); bin 0 when
/// there is no candidate.
pub open spec fn is_dominant(mags: Seq<u64>, d: int) -> bool {
    let n = mags.len() as int;
    if n / 2 == 0 {
        d == 0
    } else {
        &&& is_candidate(n, d)
        &&& forall|i: int| is_candidate(n, i) ==> !lt(mags[d], #[trigger] mags[i])
        &&& forall|i: int| d < i <= n / 2 ==> lt(#[trigger] mags[i], mags[d])
    }
}

/// The dominant frequency bin of a spectrum of magnitudes. With two or
/// more candidates they are compared, and none may be NaN.
pub fn dominant_bin(magnitudes: &Vec<u64>) -> (d: usize)
    requires
        magnitudes@.len() / 2 >= 2 ==> forall|i: int|
            is_candidate(magnitudes@.len() as int, i) ==> !is_nan(#[trigger] magnitudes@[i]),
    ensures
        is_dominant(magnitudes@, d as int),
{
    let n = magnitudes.len();
    let half = n / 2;
    if half == 0 {
        return 0;
    }
    let mut best: usize = 1;
    let mut i: usize = 2;
    while i <= half
        invariant
            n == magnitudes@.len(),
            half == n / 2,
            2 <= i <= half + 1,
            1 <= best < i,
            half >= 2 ==> forall|c: int| 1 <= c <= half ==> !is_nan(#[trigger] magnitudes@[c]),
            forall|c: int| 1 <= c < i ==> !lt(magnitudes@[best as int], #[trigger] magnitudes@[c]),
            forall|c: int| best < c < i ==> lt(#[trigger] magnitudes@[c], magnitudes@[best as int]),
        decreases half + 1 - i,
    {
        let ghost prev = best;
        if !less_than(magnitudes[i], magnitudes[best]) {
            proof {
                assert forall|c: int| 1 <= c < i + 1 implies !lt(
                    magnitudes@[i as int],
                    #[trigger] magnitudes@[c],
                ) by {
                    lemma_lt_weak_order(magnitudes@[i as int], magnitudes@[prev as int], magnitudes@[c]);
                }
            }
            best = i;
        } else {
            proof {
                lemma_lt_weak_order(magnitudes@[i as int], magnitudes@[prev as int], magnitudes@[i as int]);
            }
        }
        i = i + 1;
    }
    best
}

/// How many windows of `window_size` samples, `hop` apart, a series of
/// `len` samples is cut into: one more than the hops that fit in what
/// exceeds a window.
pub open spec fn window_count(len: int, window_size: int, hop: int) -> int {
    (if len >= window_size {
        len - window_size
    } else {
        0
    }) / hop + 1
}

/// Window `i` covers the samples `i·hop .. min(i·hop + window_size, len)`.
pub open spec fn window(len: int, window_size: int, hop: int, i: int) -> (int, int) {
    let start = i * hop;
    (start, if start + window_size <= len {
        start + window_size
    } else {
        len
    })
}

/// The windows of a spectrogram over `len` samples, as half-open sample
/// ranges.
pub fn spectrogram_windows(len: usize, window_size: usize, hop: usize) -> (w: Vec<(usize, usize)>)
    requires
        hop > 0,
        window_count(len as int, window_size as int, hop as int) <= usize::MAX,
    ensures
        w@.len() == window_count(len as int, window_size as int, hop as int),
        forall|i: int|
            0 <= i < w@.len() ==> (#[trigger] w@[i]).0 as int == window(
                len as int,
                window_size as int,
                hop as int,
                i,
            ).0 && w@[i].1 as int == window(len as int, window_size as int, hop as int, i).1,
{
    let excess: usize = if len >= window_size {
        len - window_size
    } else {
        0
    };
    let count: usize = excess / hop + 1;
    let mut w: Vec<(usize, usize)> = Vec::new();
    let mut i: usize = 0;
    while i < count
        invariant
            hop > 0,
            excess == (if len >= window_size {
                len - window_size
            } else {
                0
            }),
            count == excess / hop + 1,
            count == window_count(len as int, window_size as int, hop as int),
            i <= count,
            w@.len() == i,
            forall|k: int|
                0 <= k < i ==> (#[trigger] w@[k]).0 as int == window(
                    len as int,
                    window_size as int,
                    hop as int,
                    k,
                ).0 && w@[k].1 as int == window(len as int, window_size as int, hop as int, k).1,
        decreases count - i,
    {
        proof {
            lemma_fundamental_div_mod(excess as int, hop as int);
            lemma_mul_inequality(i as int, excess as int / hop as int, hop as int);
            assert(hop * (excess / hop) == (excess / hop) * hop) by (nonlinear_arith);
            assert(i * hop <= excess);
        }
        let start: usize = i * hop;
        let end: usize = if start <= len && window_size <= len - start {
            start + window_size
        } else {
            len
        };
        w.push((start, end));
        i = i + 1;
    }
    w
}

/// The dominant bin of a spectrum of `n` magnitudes lies in `1 ..= n / 2`
/// (the DC bin skipped, every other bin up to `n / 2` searched, the
/// middle bin included), no bin of that range is greater, and every later
/// bin of it is smaller; it is 0 when `n / 2` is 0.
pub proof fn law_dominant_bin_range(mags: Seq<u64>, d: int)
    requires
        is_dominant(mags, d),
    ensures
        mags.len() / 2 == 0 ==> d == 0,
        mags.len() / 2 >= 1 ==> {
            &&& 1 <= d <= mags.len() / 2
            &&& forall|i: int| 1 <= i <= mags.len() / 2 ==> !lt(mags[d], #[trigger] mags[i])
            &&& forall|i: int| d < i <= mags.len() / 2 ==> lt(#[trigger] mags[i], mags[d])
        },
{
    if mags.len() / 2 >= 1 {
        assert forall|i: int| 1 <= i <= mags.len() / 2 implies !lt(mags[d], #[trigger] mags[i]) by {
            assert(is_candidate(mags.len() as int, i));
        }
    }
}

/// The spectrogram windows start at sample 0 and every `hop` samples after
/// it; each ends `window_size` samples after its start, or at the end of
/// the series when that comes first; and there are as many as fit: one
/// when the series is shorter than a window, and otherwise every window is
/// full and one more hop would overrun the series.
pub proof fn law_spectrogram_windows(len: int, window_size: int, hop: int)
    requires
        len >= 0,
        window_size >= 0,
        hop > 0,
    ensures
        window_count(len, window_size, hop) >= 1,
        len < window_size ==> window_count(len, window_size, hop) == 1,
        len >= window_size ==> (window_count(len, window_size, hop) - 1) * hop + window_size <= len
            < window_count(len, window_size, hop) * hop + window_size,
        forall|i: int|
            0 <= i < window_count(len, window_size, hop) ==> {
                let w = #[trigger] window(len, window_size, hop, i);
                &&& w.0 == i * hop
                &&& 0 <= w.0 <= w.1 <= len
                &&& w.1 - w.0 <= window_size
                &&& len >= window_size ==> w.1 - w.0 == window_size
            },
{
    let x = if len >= window_size { len - window_size } else { 0 };
    let q = x / hop;
    lemma_fundamental_div_mod(x, hop);
    assert(q * hop <= x < q * hop + hop) by (nonlinear_arith)
        requires
            x == hop * q + x % hop,
            0 <= x % hop < hop,
    ;
    assert((q + 1) * hop == q * hop + hop) by (nonlinear_arith);
    assert(q >= 0) by (nonlinear_arith)
        requires
            x >= 0,
            hop > 0,
            q == x / hop,
    ;
    assert forall|i: int| 0 <= i < window_count(len, window_size, hop) implies {
        let w = #[trigger] window(len, window_size, hop, i);
        &&& w.0 == i * hop
        &&& 0 <= w.0 <= w.1 <= len
        &&& w.1 - w.0 <= window_size
        &&& len >= window_size ==> w.1 - w.0 == window_size
    } by {
        lemma_mul_inequality(i, q, hop);
        assert(0 <= i * hop) by (nonlinear_arith)
            requires
                i >= 0,
                hop > 0,
        ;
    }
}

} // verus!
