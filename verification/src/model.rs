//! The mathematical model: signs, autocorrelations, energies, and the partial
//! sequences that the search builds from both ends.
//!
//! A partial sequence of length `n` with `m` fixed positions at each end is held
//! as `2 * m` signs: the first `m` are positions `0 .. m`, the last `m` are
//! positions `n - m .. n`. Positions `m .. n - m` are free.

use vstd::prelude::*;
use crate::sums::sum_of;

verus! {

/// The product of two signs: `+1` when they agree, `-1` when they differ.
pub open spec fn pair_sign(a: bool, b: bool) -> int {
    if a != b {
        -1
    } else {
        1
    }
}

/// Aperiodic autocorrelation of a complete sequence at `lag`:
/// the sum over `i` of the product of the signs at `i` and `i + lag`.
pub open spec fn correlation(x: Seq<bool>, lag: int) -> int {
    sum_of(|i: int| pair_sign(x[i], x[i + lag]), 0, x.len() - lag)
}

/// The energy of a complete sequence: the sum of the squared
/// autocorrelations over all lags `1 .. len`.
pub open spec fn energy(x: Seq<bool>) -> int {
    sum_of(|lag: int| correlation(x, lag) * correlation(x, lag), 1, x.len() as int)
}

/// Whether position `j` of a sequence of length `n` is fixed when `m`
/// positions are fixed at each end.
pub open spec fn is_fixed(n: int, m: int, j: int) -> bool {
    (0 <= j < m) || (n - m <= j < n)
}

/// The sign at fixed position `j`, read from the `2 * m` stored signs `s`.
pub open spec fn value_at(s: Seq<bool>, n: int, m: int, j: int) -> bool {
    if j < m {
        s[j]
    } else {
        s[j - (n - 2 * m)]
    }
}

/// The term of pair `(i, i + lag)` when both of its positions are fixed, else zero.
pub open spec fn fixed_term(s: Seq<bool>, n: int, m: int, lag: int, i: int) -> int {
    if is_fixed(n, m, i) && is_fixed(n, m, i + lag) {
        pair_sign(value_at(s, n, m, i), value_at(s, n, m, i + lag))
    } else {
        0
    }
}

/// The part of the autocorrelation at `lag` made of pairs whose two positions
/// are fixed.
pub open spec fn fixed_correlation(s: Seq<bool>, n: int, m: int, lag: int) -> int {
    sum_of(|i: int| fixed_term(s, n, m, lag, i), 0, n - lag)
}

/// The complete sequence that fills the free middle of a partial sequence with `free`.
pub open spec fn completion(s: Seq<bool>, m: int, free: Seq<bool>) -> Seq<bool> {
    s.take(m) + free + s.skip(m)
}

/// Number of lag steps from position `t` along its chain `t, t + lag, ...` up to
/// the first fixed position of the right end, or up to the last position of the
/// chain when the chain ends before the right end.
pub open spec fn segment_len(n: int, m: int, lag: int, t: int) -> int
    decreases n - t,
{
    if lag <= 0 || t + lag >= n {
        0
    } else if t + lag >= n - m {
        1
    } else {
        1 + segment_len(n, m, lag, t + lag)
    }
}

/// The position where the segment that starts at `t` ends.
pub open spec fn segment_end(n: int, m: int, lag: int, t: int) -> int
    decreases n - t,
{
    if lag <= 0 || t + lag >= n {
        t
    } else if t + lag >= n - m {
        t + lag
    } else {
        segment_end(n, m, lag, t + lag)
    }
}

/// The first segment start for `lag`: each chain is represented once by its
/// last position in the left end, or by its first position when that is free.
pub open spec fn first_start(m: int, lag: int) -> int {
    if m > lag {
        m - lag
    } else {
        0
    }
}

/// Whether the segment starting at `t` holds a pair that touches a free position.
pub open spec fn segment_counted(n: int, m: int, lag: int, t: int) -> bool {
    segment_len(n, m, lag, t) > 0 && !(t < m && t + lag >= n - m)
}

/// Whether both ends of the segment starting at `t` are fixed.
pub open spec fn segment_bounded(n: int, m: int, lag: int, t: int) -> bool {
    t < m && segment_end(n, m, lag, t) >= n - m
}

/// Whether the fixed ends of the segment starting at `t` carry different signs.
pub open spec fn segment_ends_differ(s: Seq<bool>, n: int, m: int, lag: int, t: int) -> bool {
    value_at(s, n, m, t) != value_at(s, n, m, segment_end(n, m, lag, t))
}

/// The largest sum that the pairs of the segment starting at `t` can reach
/// over the fillings of the free positions: its length, less two when both ends
/// are fixed and differ.
pub open spec fn segment_max(s: Seq<bool>, n: int, m: int, lag: int, t: int) -> int {
    let len = segment_len(n, m, lag, t);
    if !segment_counted(n, m, lag, t) {
        0
    } else if !segment_bounded(n, m, lag, t) {
        len
    } else if segment_ends_differ(s, n, m, lag, t) {
        len - 2
    } else {
        len
    }
}

/// The magnitude of the smallest sum that the pairs of the segment starting at
/// `t` can reach over the fillings of the free positions: its length, less two
/// when both ends are fixed and the parity of the length forbids all pairs
/// from differing.
pub open spec fn segment_min(s: Seq<bool>, n: int, m: int, lag: int, t: int) -> int {
    let len = segment_len(n, m, lag, t);
    if !segment_counted(n, m, lag, t) {
        0
    } else if !segment_bounded(n, m, lag, t) {
        len
    } else if (len % 2 == 0) == segment_ends_differ(s, n, m, lag, t) {
        len - 2
    } else {
        len
    }
}

/// How much the pairs touching a free position can add at most to the
/// autocorrelation at `lag`.
pub open spec fn free_max(s: Seq<bool>, n: int, m: int, lag: int) -> int {
    sum_of(
        |t: int| segment_max(s, n, m, lag, t),
        first_start(m, lag),
        first_start(m, lag) + lag,
    )
}

/// How much the pairs touching a free position can take away at most from the
/// autocorrelation at `lag`.
pub open spec fn free_min(s: Seq<bool>, n: int, m: int, lag: int) -> int {
    sum_of(
        |t: int| segment_min(s, n, m, lag, t),
        first_start(m, lag),
        first_start(m, lag) + lag,
    )
}

/// Lengths for which every count and every energy fits the machine integers.
pub open spec fn length_ok(n: int) -> bool {
    2 <= n && 4 * n * n * n <= isize::MAX
}

/// Admissible lengths are small enough for every index computation.
pub proof fn lemma_length_small(n: int)
    requires
        length_ok(n),
    ensures
        n < 0x20_0000,
        n * n <= isize::MAX,
{
    if n >= 0x20_0000 {
        assert(4 * n * n * n >= 4 * 0x20_0000 * 0x20_0000 * 0x20_0000) by (nonlinear_arith)
            requires
                n >= 0x20_0000,
        ;
    }
    assert(n * n <= 4 * n * n * n) by (nonlinear_arith)
        requires
            n >= 2,
    ;
}

} // verus!
