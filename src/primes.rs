//! Primality and prime-rounded delay lengths.

use vstd::prelude::*;

verus! {

/// `n` is prime: at least two, and no integer strictly between one and `n` divides it.
pub open spec fn prime(n: nat) -> bool {
    n >= 2 && forall|d: nat| 2 <= d < n ==> #[trigger] (n % d) != 0
}

/// Any proper divisor of `n` has a partner divisor `e` with `e * e <= n`.
proof fn lemma_small_divisor(n: nat, d: nat) -> (e: nat)
    requires
        2 <= d < n,
        n % d == 0,
    ensures
        2 <= e,
        e * e <= n,
        n % e == 0,
{
    let q = n / d;
    assert(n == d * q) by (nonlinear_arith)
        requires n % d == 0, d > 0, q == n / d;
    assert(q >= 2) by (nonlinear_arith)
        requires n == d * q, d < n, d >= 2;
    if d * d <= n {
        d
    } else {
        assert(q * q <= n) by (nonlinear_arith)
            requires n == d * q, d * d > n, q >= 2, d >= 2;
        assert(n % q == 0) by (nonlinear_arith)
            requires n == d * q, q >= 2;
        q
    }
}

/// Whether `n` is prime, by trial division up to the square root of `n`.
pub fn is_prime(n: usize) -> (r: bool)
    ensures
        r == prime(n as nat),
{
    if n < 2 {
        return false;
    }
    let mut m: usize = 2;
    while m <= n / m
        invariant
            2 <= m <= n,
            forall|d: nat| 2 <= d < m ==> #[trigger] ((n as nat) % d) != 0,
        decreases n - m,
    {
        assert(m < n) by (nonlinear_arith)
            requires m <= n / m, m >= 2, n >= 2;
        if n % m == 0 {
            assert((n as nat) % (m as nat) == 0);
            return false;
        }
        m = m + 1;
    }
    proof {
        assert(m * m > n) by (nonlinear_arith)
            requires m > n / m, m >= 2;
        assert forall|d: nat| 2 <= d < n implies #[trigger] ((n as nat) % d) != 0 by {
            if (n as nat) % d == 0 {
                let e = lemma_small_divisor(n as nat, d);
                assert(e < m) by (nonlinear_arith)
                    requires e * e <= n, m * m > n, e >= 2, m >= 2;
            }
        }
    }
    true
}

/// `den` times the distance between the integer `q` and the fraction `num / den`.
pub open spec fn scaled_dist(q: int, num: int, den: int) -> int {
    if q * den >= num {
        q * den - num
    } else {
        num - q * den
    }
}

/// `p` is a prime nearest to `num / den`; of two equally near primes it is the smaller.
pub open spec fn nearest_prime(p: nat, num: nat, den: nat) -> bool {
    &&& prime(p)
    &&& forall|q: nat| #[trigger] prime(q) ==> {
        ||| scaled_dist(p as int, num as int, den as int) < scaled_dist(q as int, num as int, den as int)
        ||| (scaled_dist(p as int, num as int, den as int) == scaled_dist(q as int, num as int, den as int)
            && p <= q)
    }
}

/// Some prime lies strictly above `num / den` and still fits in a `usize`.
pub open spec fn prime_above(num: nat, den: nat) -> bool {
    exists|q: nat| #[trigger] prime(q) && num < q * den && q <= usize::MAX
}

/// An integer `q` lies at or below `num / den` exactly when `q <= num / den` (integer division).
proof fn lemma_side(q: nat, num: nat, den: nat)
    requires
        den > 0,
    ensures
        (q <= num / den) == (q * den <= num),
        q <= num / den ==> scaled_dist(q as int, num as int, den as int) == num - q * den,
        q > num / den ==> scaled_dist(q as int, num as int, den as int) == q * den - num,
        q > num / den ==> q * den > num,
{
    let f = num / den;
    let rem = num % den;
    assert(num == f * den + rem && 0 <= rem < den) by (nonlinear_arith)
        requires den > 0, f == num / den, rem == num % den;
    if q <= f {
        assert(q * den <= f * den) by (nonlinear_arith)
            requires q <= f, den > 0;
    } else {
        assert(q * den >= f * den + den) by (nonlinear_arith)
            requires q >= f + 1, den > 0;
    }
}

proof fn lemma_mul_mono(a: nat, b: nat, den: nat)
    requires
        a <= b,
    ensures
        a * den <= b * den,
        a < b && den > 0 ==> a * den < b * den,
{
    assert(a * den <= b * den) by (nonlinear_arith)
        requires a <= b;
    if a < b && den > 0 {
        assert(a * den < b * den) by (nonlinear_arith)
            requires a < b, den > 0;
    }
}

/// The prime nearest to `num / den`, the smaller one on a tie; `None` only when no prime
/// above `num / den` fits in a `usize`.
pub fn closest_prime(num: u64, den: u64) -> (r: Option<usize>)
    requires
        den > 0,
    ensures
        r is Some <==> prime_above(num as nat, den as nat),
        r matches Some(p) ==> nearest_prime(p as nat, num as nat, den as nat),
{
    assert(prime(2));
    let f = num / den;
    if f < 2 {
        proof {
            lemma_side(2, num as nat, den as nat);
            assert(num < 2 * den);
            assert forall|q: nat| #[trigger] prime(q) implies {
                ||| scaled_dist(2, num as int, den as int) < scaled_dist(q as int, num as int, den as int)
                ||| (scaled_dist(2, num as int, den as int) == scaled_dist(q as int, num as int, den as int)
                    && 2 <= q)
            } by {
                lemma_side(q, num as nat, den as nat);
                lemma_mul_mono(2, q, den as nat);
            }
        }
        return Some(2);
    }
    if f >= usize::MAX as u64 {
        proof {
            assert forall|q: nat| #[trigger] prime(q) && num < q * den implies q > usize::MAX by {
                lemma_side(q, num as nat, den as nat);
            }
        }
        return None;
    }
    let fl = f as usize;
    let mut low = fl;
    while !is_prime(low)
        invariant
            prime(2),
            2 <= low <= fl,
            forall|q: nat| low < q <= fl ==> !#[trigger] prime(q),
        decreases low,
    {
        low = low - 1;
    }
    let mut high = fl + 1;
    while !is_prime(high)
        invariant
            den > 0,
            fl == num / den,
            fl < high,
            forall|q: nat| fl < q < high ==> !#[trigger] prime(q),
        decreases usize::MAX - high,
    {
        if high == usize::MAX {
            proof {
                assert forall|q: nat| #[trigger] prime(q) && num < q * den implies q > usize::MAX by {
                    lemma_side(q, num as nat, den as nat);
                }
            }
            return None;
        }
        high = high + 1;
    }
    proof {
        lemma_side(low as nat, num as nat, den as nat);
        lemma_side(high as nat, num as nat, den as nat);
        assert((high as nat) * (den as nat) <= usize::MAX * u64::MAX) by (nonlinear_arith)
            requires high <= usize::MAX, den <= u64::MAX;
    }
    let below: u128 = num as u128 - (low as u128) * (den as u128);
    let above: u128 = (high as u128) * (den as u128) - num as u128;
    let p = if above < below { high } else { low };
    proof {
        assert forall|q: nat| #[trigger] prime(q) implies {
            ||| scaled_dist(p as int, num as int, den as int) < scaled_dist(q as int, num as int, den as int)
            ||| (scaled_dist(p as int, num as int, den as int) == scaled_dist(q as int, num as int, den as int)
                && p <= q)
        } by {
            lemma_side(q, num as nat, den as nat);
            if q <= low {
                lemma_mul_mono(q, low as nat, den as nat);
            } else {
                assert(q >= high);
                lemma_mul_mono(high as nat, q, den as nat);
            }
        }
        assert(num < (high as nat) * (den as nat));
    }
    Some(p)
}

/// Rounding to the nearest prime keeps order: for two fractions over one denominator, the
/// nearest prime of the smaller never exceeds the nearest prime of the larger.
pub proof fn lemma_nearest_prime_monotone(p: nat, q: nat, a: nat, c: nat, den: nat)
    requires
        den > 0,
        a <= c,
        nearest_prime(p, a, den),
        nearest_prime(q, c, den),
    ensures
        p <= q,
{
    if p > q {
        assert(prime(p) && prime(q));
        lemma_mul_mono(q, p, den);
        let big = p * den;
        let small = q * den;
        assert(small < big);
        assert(scaled_dist(p as int, a as int, den as int) < scaled_dist(q as int, a as int, den as int));
        assert(scaled_dist(q as int, c as int, den as int) <= scaled_dist(p as int, c as int, den as int));
        assert(false);
    }
}

/// Each target `targets[i] / den` rounded to its nearest prime; `None` when some target has
/// no prime above it within `usize`.
pub fn primes_dist(targets: &Vec<u64>, den: u64) -> (r: Option<Vec<usize>>)
    requires
        den > 0,
    ensures
        r is Some <==> forall|i: int|
            0 <= i < targets.len() ==> prime_above(#[trigger] targets[i] as nat, den as nat),
        r matches Some(v) ==> {
            &&& v.len() == targets.len()
            &&& forall|i: int|
                0 <= i < v.len() ==> nearest_prime(#[trigger] v[i] as nat, targets[i] as nat, den as nat)
            &&& forall|i: int, j: int|
                0 <= i < v.len() && 0 <= j < v.len() && targets[i] <= targets[j] ==> #[trigger] v[i]
                    <= #[trigger] v[j]
        },
{
    let mut v: Vec<usize> = Vec::new();
    let mut i: usize = 0;
    while i < targets.len()
        invariant
            den > 0,
            i <= targets.len(),
            v.len() == i,
            forall|k: int| 0 <= k < i ==> prime_above(#[trigger] targets[k] as nat, den as nat),
            forall|k: int|
                0 <= k < i ==> nearest_prime(#[trigger] v[k] as nat, targets[k] as nat, den as nat),
        decreases targets.len() - i,
    {
        match closest_prime(targets[i], den) {
            Some(p) => v.push(p),
            None => return None,
        }
        i = i + 1;
    }
    proof {
        assert forall|i: int, j: int|
            0 <= i < v.len() && 0 <= j < v.len() && targets[i] <= targets[j] implies #[trigger] v[i]
                <= #[trigger] v[j] by {
            lemma_nearest_prime_monotone(
                v[i] as nat,
                v[j] as nat,
                targets[i] as nat,
                targets[j] as nat,
                den as nat,
            );
        }
    }
    Some(v)
}

/// The number of primes in `[lo, hi)`.
pub open spec fn count_primes(lo: nat, hi: nat) -> nat
    decreases hi - lo,
{
    if hi <= lo {
        0
    } else {
        count_primes(lo, (hi - 1) as nat) + if prime((hi - 1) as nat) {
            1nat
        } else {
            0nat
        }
    }
}

proof fn lemma_count_split(a: nat, b: nat, c: nat)
    requires
        a <= b <= c,
    ensures
        count_primes(a, c) == count_primes(a, b) + count_primes(b, c),
    decreases c - b,
{
    if b < c {
        lemma_count_split(a, b, (c - 1) as nat);
    }
}

/// The first prime at or above `n`.
fn next_prime_from(n: usize) -> (r: usize)
    requires
        count_primes(n as nat, usize::MAX as nat) > 0,
    ensures
        n <= r < usize::MAX,
        prime(r as nat),
        count_primes(n as nat, r as nat) == 0,
{
    let mut k = n;
    while !is_prime(k)
        invariant
            n <= k <= usize::MAX,
            count_primes(n as nat, usize::MAX as nat) > 0,
            count_primes(n as nat, k as nat) == 0,
        decreases usize::MAX - k,
    {
        proof {
            if k == usize::MAX {
                assert(false);
            }
            assert(count_primes(n as nat, (k + 1) as nat) == 0);
            lemma_count_split(n as nat, (k + 1) as nat, usize::MAX as nat);
        }
        k = k + 1;
    }
    proof {
        if k == usize::MAX {
            assert(false);
        }
    }
    k
}

/// `N` primes from `start` on, taking one and passing over `skip`: entry `j` is the prime at
/// or above `start` with exactly `j * (skip + 1)` primes between `start` and it.
pub fn primes<const N: usize>(start: usize, skip: usize) -> (r: [usize; N])
    requires
        N > 0 ==> count_primes(start as nat, usize::MAX as nat) > (N - 1) * (skip + 1),
    ensures
        forall|j: int|
            0 <= j < N ==> {
                &&& prime(#[trigger] r[j] as nat)
                &&& start <= r[j]
                &&& count_primes(start as nat, r[j] as nat) == j * (skip + 1)
            },
{
    let mut p: [usize; N] = [0; N];
    let mut n = start;
    let mut j: usize = 0;
    while j < N
        invariant
            j <= N,
            start <= n,
            N > 0 ==> count_primes(start as nat, usize::MAX as nat) > (N - 1) * (skip + 1),
            j < N ==> count_primes(start as nat, n as nat) == j * (skip + 1),
            forall|k: int|
                0 <= k < j ==> {
                    &&& prime(#[trigger] p[k] as nat)
                    &&& start <= p[k]
                    &&& count_primes(start as nat, p[k] as nat) == k * (skip + 1)
                },
        decreases N - j,
    {
        proof {
            assert(j * (skip + 1) <= (N - 1) * (skip + 1)) by (nonlinear_arith)
                requires j < N;
            lemma_count_split(start as nat, n as nat, usize::MAX as nat);
        }
        let q = next_prime_from(n);
        proof {
            lemma_count_split(start as nat, n as nat, q as nat);
        }
        p[j] = q;
        if j + 1 < N {
            n = q + 1;
            assert(count_primes(start as nat, n as nat) == j * (skip + 1) + 1);
            let mut s: usize = 0;
            while s < skip
                invariant
                    j + 1 < N,
                    s <= skip,
                    start <= n,
                    count_primes(start as nat, usize::MAX as nat) > (N - 1) * (skip + 1),
                    count_primes(start as nat, n as nat) == j * (skip + 1) + 1 + s,
                decreases skip - s,
            {
                proof {
                    assert(j * (skip + 1) + 1 + s < (N - 1) * (skip + 1)) by (nonlinear_arith)
                        requires j + 1 < N, s < skip;
                    lemma_count_split(start as nat, n as nat, usize::MAX as nat);
                }
                let q2 = next_prime_from(n);
                proof {
                    lemma_count_split(start as nat, n as nat, q2 as nat);
                }
                n = q2 + 1;
                s = s + 1;
            }
            assert(count_primes(start as nat, n as nat) == (j + 1) * (skip + 1)) by (nonlinear_arith)
                requires count_primes(start as nat, n as nat) == j * (skip + 1) + 1 + skip;
        }
        j = j + 1;
    }
    p
}

} // verus!
