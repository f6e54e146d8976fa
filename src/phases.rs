//! The table of per-line feedback sign patterns.

use vstd::arithmetic::power2::{lemma2_to64, lemma_pow2_pos, lemma_pow2_unfold, pow2};
use vstd::arithmetic::div_mod::lemma_div_denominator;
use vstd::prelude::*;

verus! {

/// Sign of line `i` in phase row `k`: `+1` where bit `i` of `k` is clear, `-1` where it is set.
pub open spec fn phase_sign(k: nat, i: nat) -> int {
    if (k / pow2(i)) % 2 == 0 {
        1
    } else {
        -1
    }
}

/// The `m` signs of phase row `k`.
fn phase_row(k: usize, m: usize) -> (r: Vec<i8>)
    ensures
        r.len() == m,
        forall|i: int| 0 <= i < m ==> #[trigger] r[i] as int == phase_sign(k as nat, i as nat),
{
    let mut r: Vec<i8> = Vec::new();
    let mut bits = k;
    let mut i: usize = 0;
    proof {
        lemma2_to64();
    }
    while i < m
        invariant
            i <= m,
            r.len() == i,
            bits == k as nat / pow2(i as nat),
            forall|t: int| 0 <= t < i ==> #[trigger] r[t] as int == phase_sign(k as nat, t as nat),
        decreases m - i,
    {
        r.push(if bits % 2 == 0 { 1 } else { -1 });
        proof {
            lemma_pow2_pos(i as nat);
            lemma_pow2_unfold((i + 1) as nat);
            lemma_div_denominator(k as int, pow2(i as nat) as int, 2);
        }
        bits = bits / 2;
        i = i + 1;
    }
    r
}

/// All `m * m` phase rows of `m` signs each: row `k`, entry `i` is `+1` exactly when bit `i`
/// of `k` is clear, and `-1` otherwise.
pub fn phases(m: usize) -> (r: Vec<Vec<i8>>)
    requires
        m * m <= usize::MAX,
    ensures
        r.len() == m * m,
        forall|k: int| 0 <= k < m * m ==> (#[trigger] r[k]).len() == m,
        forall|k: int, i: int|
            0 <= k < m * m && 0 <= i < m ==> (#[trigger] r[k][i] == 1) == ((k / pow2(i as nat) as int) % 2 == 0),
        forall|k: int, i: int|
            0 <= k < m * m && 0 <= i < m ==> #[trigger] r[k][i] as int == phase_sign(k as nat, i as nat),
{
    let rows = m * m;
    let mut r: Vec<Vec<i8>> = Vec::new();
    let mut k: usize = 0;
    while k < rows
        invariant
            rows == m * m,
            k <= rows,
            r.len() == k,
            forall|t: int| 0 <= t < k ==> (#[trigger] r[t]).len() == m,
            forall|t: int, i: int|
                0 <= t < k && 0 <= i < m ==> #[trigger] r[t][i] as int == phase_sign(t as nat, i as nat),
        decreases rows - k,
    {
        let row = phase_row(k, m);
        r.push(row);
        k = k + 1;
    }
    r
}

} // verus!
