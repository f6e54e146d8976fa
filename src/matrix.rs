//! The Hadamard-derived feedback-mixing matrix, kept in integers.
//!
//! The real matrices are these integer ones scaled: the Hadamard matrix of order `n` by
//! `1 / sqrt(n)`, the pairwise rotation by `1 / sqrt(2)`, and so their product, the feedback
//! matrix, by `1 / sqrt(2 * n)`.

use vstd::prelude::*;

verus! {

/// The sum of `f(t)` over `t` in `[0, n)`.
pub open spec fn sum(n: nat, f: spec_fn(nat) -> int) -> int
    decreases n,
{
    if n == 0 {
        0
    } else {
        sum((n - 1) as nat, f) + f((n - 1) as nat)
    }
}

proof fn lemma_sum_ext(n: nat, f: spec_fn(nat) -> int, g: spec_fn(nat) -> int)
    requires
        forall|t: nat| t < n ==> #[trigger] f(t) == g(t),
    ensures
        sum(n, f) == sum(n, g),
    decreases n,
{
    if n > 0 {
        lemma_sum_ext((n - 1) as nat, f, g);
    }
}

proof fn lemma_sum_scale(n: nat, c: int, f: spec_fn(nat) -> int)
    ensures
        sum(n, |t: nat| c * f(t)) == c * sum(n, f),
    decreases n,
{
    if n > 0 {
        lemma_sum_scale((n - 1) as nat, c, f);
        let s = sum((n - 1) as nat, f);
        let x = f((n - 1) as nat);
        assert(c * s + c * x == c * (s + x)) by (nonlinear_arith);
    }
}

proof fn lemma_sum_add(n: nat, f: spec_fn(nat) -> int, g: spec_fn(nat) -> int)
    ensures
        sum(n, |t: nat| f(t) + g(t)) == sum(n, f) + sum(n, g),
    decreases n,
{
    if n > 0 {
        lemma_sum_add((n - 1) as nat, f, g);
    }
}

/// A sum over `[0, 2h)` taken in consecutive pairs.
proof fn lemma_sum_pairs(h: nat, f: spec_fn(nat) -> int)
    ensures
        sum(2 * h, f) == sum(h, |t: nat| f(2 * t) + f(2 * t + 1)),
    decreases h,
{
    if h > 0 {
        lemma_sum_pairs((h - 1) as nat, f);
        assert(sum(2 * h, f) == sum((2 * h - 1) as nat, f) + f((2 * h - 1) as nat));
        assert(sum((2 * h - 1) as nat, f) == sum((2 * h - 2) as nat, f) + f((2 * h - 2) as nat));
        assert((2 * (h - 1)) as nat == (2 * h - 2) as nat);
    }
}

/// A sum over `[0, a + b)` split at `a`.
proof fn lemma_sum_split(a: nat, b: nat, f: spec_fn(nat) -> int)
    ensures
        sum(a + b, f) == sum(a, f) + sum(b, |t: nat| f(a + t)),
    decreases b,
{
    if b > 0 {
        lemma_sum_split(a, (b - 1) as nat, f);
        assert((a + b - 1) as nat == a + (b - 1) as nat);
    }
}

/// A sum taken backwards.
proof fn lemma_sum_reverse(n: nat, f: spec_fn(nat) -> int)
    ensures
        sum(n, |t: nat| f((n - 1 - t) as nat)) == sum(n, f),
    decreases n,
{
    if n > 0 {
        let g = |t: nat| f((n - 1 - t) as nat);
        lemma_sum_split(1, (n - 1) as nat, g);
        assert(sum(0, g) == 0);
        assert(sum(1, g) == g(0));
        let shifted = |t: nat| g(1 + t);
        let rev = |t: nat| f(((n - 1) as nat - 1 - t) as nat);
        lemma_sum_ext((n - 1) as nat, shifted, rev);
        lemma_sum_reverse((n - 1) as nat, f);
        assert(1 + (n - 1) as nat == n);
    }
}

/// A sum whose terms vanish outside two distinct points `a` and `b`.
proof fn lemma_sum_two_points(n: nat, f: spec_fn(nat) -> int, a: nat, b: nat)
    requires
        a != b,
        forall|t: nat| t < n && t != a && t != b ==> #[trigger] f(t) == 0,
    ensures
        sum(n, f) == (if a < n { f(a) } else { 0 }) + (if b < n { f(b) } else { 0 }),
    decreases n,
{
    if n > 0 {
        lemma_sum_two_points((n - 1) as nat, f, a, b);
    }
}

/// `n` is a power of two.
pub open spec fn is_pow2(n: nat) -> bool
    decreases n,
{
    if n <= 1 {
        n == 1
    } else {
        n % 2 == 0 && is_pow2(n / 2)
    }
}

/// Entry `(x, y)` of the kernel `[[1, 1], [-1, 1]]`, for `x` and `y` in `{0, 1}`.
pub open spec fn kernel(x: nat, y: nat) -> int {
    if x == 1 && y == 0 {
        -1
    } else {
        1
    }
}

/// Entry `(i, j)` of the Hadamard matrix of order `n`, unscaled: the product of the kernel
/// entries that the bits of `i` and `j` select, one bit position at a time.
pub open spec fn hadamard(n: nat, i: nat, j: nat) -> int
    decreases n,
{
    if n <= 1 {
        1
    } else {
        kernel(i % 2, j % 2) * hadamard(n / 2, i / 2, j / 2)
    }
}

proof fn lemma_hadamard_unit(n: nat, i: nat, j: nat)
    ensures
        hadamard(n, i, j) == 1 || hadamard(n, i, j) == -1,
    decreases n,
{
    if n > 1 {
        lemma_hadamard_unit(n / 2, i / 2, j / 2);
    }
}

/// The products, row by row, of the entries of columns `i` and `l` of the Hadamard matrix.
pub open spec fn hadamard_column_products(n: nat, i: nat, l: nat) -> spec_fn(nat) -> int {
    |t: nat| hadamard(n, t, i) * hadamard(n, t, l)
}

/// The dot product of columns `i` and `l` of the unscaled Hadamard matrix of order `n`.
pub open spec fn hadamard_column_dot(n: nat, i: nat, l: nat) -> int {
    sum(n, hadamard_column_products(n, i, l))
}

proof fn lemma_kernel_dot(x: nat, y: nat)
    requires
        x < 2,
        y < 2,
    ensures
        kernel(0, x) * kernel(0, y) + kernel(1, x) * kernel(1, y) == if x == y { 2int } else { 0int },
{
}

/// The columns of the Hadamard matrix of order `n` are orthogonal, each of squared norm `n`.
pub proof fn lemma_hadamard_orthogonal(n: nat, i: nat, l: nat)
    requires
        is_pow2(n),
        i < n,
        l < n,
    ensures
        hadamard_column_dot(n, i, l) == if i == l { n as int } else { 0 },
    decreases n,
{
    let f = hadamard_column_products(n, i, l);
    if n <= 1 {
        assert(sum(0, f) == 0);
        assert(sum(1, f) == f(0));
    } else {
        let h = n / 2;
        lemma_hadamard_orthogonal(h, i / 2, l / 2);
        lemma_sum_pairs(h, f);
        assert(2 * h == n);
        let c = kernel(0, i % 2) * kernel(0, l % 2) + kernel(1, i % 2) * kernel(1, l % 2);
        lemma_kernel_dot(i % 2, l % 2);
        let e = hadamard_column_products(h, i / 2, l / 2);
        let pairs = |t: nat| f(2 * t) + f(2 * t + 1);
        let scaled = |t: nat| c * e(t);
        assert forall|t: nat| t < h implies #[trigger] pairs(t) == scaled(t) by {
            assert((2 * t) % 2 == 0 && (2 * t) / 2 == t);
            assert((2 * t + 1) % 2 == 1 && (2 * t + 1) / 2 == t);
            let a = hadamard(h, t, i / 2);
            let b = hadamard(h, t, l / 2);
            assert(f(2 * t) == (kernel(0, i % 2) * a) * (kernel(0, l % 2) * b));
            assert(f(2 * t + 1) == (kernel(1, i % 2) * a) * (kernel(1, l % 2) * b));
            assert((kernel(0, i % 2) * a) * (kernel(0, l % 2) * b) + (kernel(1, i % 2) * a) * (
            kernel(1, l % 2) * b) == c * (a * b)) by (nonlinear_arith)
                requires
                    c == kernel(0, i % 2) * kernel(0, l % 2) + kernel(1, i % 2) * kernel(1, l % 2),
            ;
        }
        lemma_sum_ext(h, pairs, scaled);
        lemma_sum_scale(h, c, e);
        assert(sum(h, e) == hadamard_column_dot(h, i / 2, l / 2));
        if i != l {
            assert(i % 2 != l % 2 || i / 2 != l / 2);
        }
    }
}

/// Sign of the low-line coefficient in row `r` of the pairwise rotation of order `n`.
pub open spec fn rotation_sign(n: nat, r: nat) -> int {
    if (r % 2 == 0) != (r >= n / 2) {
        1
    } else {
        -1
    }
}

/// Entry `(r, c)` of the pairwise rotation of order `n`, unscaled: rows `2i` and `2i + 1`
/// couple line `i` with line `n - 1 - i`, with opposite signs on line `i`.
pub open spec fn rotation(n: nat, r: nat, c: nat) -> int {
    if c == r / 2 {
        rotation_sign(n, r)
    } else if c as int == n - 1 - r / 2 {
        -1
    } else {
        0
    }
}

/// The terms of entry `(r, c)` of the product of the rotation and Hadamard matrices.
pub open spec fn feedback_terms(n: nat, r: nat, c: nat) -> spec_fn(nat) -> int {
    |t: nat| rotation(n, r, t) * hadamard(n, t, c)
}

/// Entry `(r, c)` of the feedback matrix of order `n`, unscaled: rotation times Hadamard.
pub open spec fn feedback(n: nat, r: nat, c: nat) -> int {
    sum(n, feedback_terms(n, r, c))
}

/// The products, row by row, of the entries of columns `i` and `l` of the feedback matrix.
pub open spec fn feedback_column_products(n: nat, i: nat, l: nat) -> spec_fn(nat) -> int {
    |r: nat| feedback(n, r, i) * feedback(n, r, l)
}

/// The dot product of columns `i` and `l` of the unscaled feedback matrix of order `n`.
pub open spec fn feedback_column_dot(n: nat, i: nat, l: nat) -> int {
    sum(n, feedback_column_products(n, i, l))
}

/// Row `r` of the feedback matrix combines two Hadamard rows.
proof fn lemma_feedback_row(n: nat, r: nat, c: nat)
    requires
        n % 2 == 0,
        r < n,
    ensures
        feedback(n, r, c) == rotation_sign(n, r) * hadamard(n, r / 2, c) - hadamard(
            n,
            (n - 1 - r / 2) as nat,
            c,
        ),
{
    let a = r / 2;
    let b = (n - 1 - r / 2) as nat;
    let f = feedback_terms(n, r, c);
    assert forall|t: nat| t < n && t != a && t != b implies #[trigger] f(t) == 0 by {
        assert(rotation(n, r, t) == 0);
    }
    lemma_sum_two_points(n, f, a, b);
}

/// The feedback matrix is orthogonal up to its scale: its columns are pairwise orthogonal and
/// each has squared norm `2 * n`, so that `Q^T * Q == 2n * I` before the `1 / sqrt(2n)` scaling.
pub proof fn lemma_feedback_orthogonal(n: nat, i: nat, l: nat)
    requires
        is_pow2(n),
        n >= 4,
        i < n,
        l < n,
    ensures
        feedback_column_dot(n, i, l) == if i == l { 2 * n } else { 0 },
{
    let h = n / 2;
    assert(is_pow2(h) && h >= 2);
    assert(n == 2 * h && h % 2 == 0);
    let f = feedback_column_products(n, i, l);
    let big_f = hadamard_column_products(n, i, l);
    let rev = |t: nat| big_f((n - 1 - t) as nat);
    let g = |t: nat| big_f(t) + rev(t);
    let pairs = |t: nat| f(2 * t) + f(2 * t + 1);
    let scaled = |t: nat| 2 * g(t);
    assert forall|t: nat| t < h implies #[trigger] pairs(t) == scaled(t) by {
        lemma_feedback_row(n, 2 * t, i);
        lemma_feedback_row(n, 2 * t, l);
        lemma_feedback_row(n, 2 * t + 1, i);
        lemma_feedback_row(n, 2 * t + 1, l);
        assert((2 * t) / 2 == t && (2 * t + 1) / 2 == t);
        assert((2 * t) % 2 == 0 && (2 * t + 1) % 2 == 1);
        assert((2 * t >= h) == (2 * t + 1 >= h));
        let s = rotation_sign(n, 2 * t);
        assert(rotation_sign(n, 2 * t + 1) == -s);
        let a = hadamard(n, t, i);
        let d = hadamard(n, t, l);
        let c = hadamard(n, (n - 1 - t) as nat, i);
        let e = hadamard(n, (n - 1 - t) as nat, l);
        assert((s * a - c) * (s * d - e) + (-s * a - c) * (-s * d - e) == 2 * (a * d + c * e))
            by (nonlinear_arith)
            requires
                s == 1 || s == -1,
        ;
    }
    lemma_sum_pairs(h, f);
    lemma_sum_ext(h, pairs, scaled);
    lemma_sum_scale(h, 2, g);
    lemma_sum_add(h, big_f, rev);
    let upper = |t: nat| big_f(h + t);
    lemma_sum_split(h, h, big_f);
    lemma_sum_reverse(h, upper);
    let upper_rev = |t: nat| upper((h - 1 - t) as nat);
    assert forall|t: nat| t < h implies #[trigger] rev(t) == upper_rev(t) by {
        assert(h + (h - 1 - t) as nat == (n - 1 - t) as nat);
    }
    lemma_sum_ext(h, rev, upper_rev);
    lemma_hadamard_orthogonal(n, i, l);
}

/// Entry `(i, j)` of the unscaled Hadamard matrix of order `n`, one bit position at a time.
fn hadamard_entry(n: usize, i: usize, j: usize) -> (e: i64)
    ensures
        e == hadamard(n as nat, i as nat, j as nat),
{
    let mut e: i64 = 1;
    let mut size = n;
    let mut a = i;
    let mut b = j;
    while size > 1
        invariant
            e == 1 || e == -1,
            hadamard(n as nat, i as nat, j as nat) == e * hadamard(size as nat, a as nat, b as nat),
        decreases size,
    {
        let ghost e0 = e;
        let ghost rest = hadamard((size / 2) as nat, (a / 2) as nat, (b / 2) as nat);
        let ghost k = kernel((a % 2) as nat, (b % 2) as nat);
        assert(hadamard(size as nat, a as nat, b as nat) == k * rest);
        if a % 2 == 1 && b % 2 == 0 {
            e = -e;
        }
        assert(e == e0 * k);
        assert(e0 * (k * rest) == e * rest) by (nonlinear_arith)
            requires e == e0 * k;
        a = a / 2;
        b = b / 2;
        size = size / 2;
    }
    e
}

/// The Hadamard matrix of order `n`, unscaled: entries `+1` and `-1`, built from the kernel
/// `[[1, 1], [-1, 1]]` bit position by bit position. Scaled by `1 / sqrt(n)` it is orthogonal
/// when `n` is a power of two.
pub fn hadamard_matrix(n: usize) -> (r: Vec<Vec<i64>>)
    ensures
        r.len() == n,
        forall|i: int| 0 <= i < n ==> (#[trigger] r[i]).len() == n,
        forall|i: int, j: int|
            0 <= i < n && 0 <= j < n ==> #[trigger] r[i][j] == hadamard(n as nat, i as nat, j as nat),
{
    let mut r: Vec<Vec<i64>> = Vec::new();
    let mut i: usize = 0;
    while i < n
        invariant
            i <= n,
            r.len() == i,
            forall|t: int| 0 <= t < i ==> (#[trigger] r[t]).len() == n,
            forall|t: int, j: int|
                0 <= t < i && 0 <= j < n ==> #[trigger] r[t][j] == hadamard(n as nat, t as nat, j as nat),
        decreases n - i,
    {
        let mut row: Vec<i64> = Vec::new();
        let mut j: usize = 0;
        while j < n
            invariant
                j <= n,
                row.len() == j,
                forall|c: int| 0 <= c < j ==> #[trigger] row[c] == hadamard(n as nat, i as nat, c as nat),
            decreases n - j,
        {
            row.push(hadamard_entry(n, i, j));
            j = j + 1;
        }
        r.push(row);
        i = i + 1;
    }
    r
}

/// The terms of entry `(i, j)` of the product `a * b`.
pub open spec fn product_terms(a: Seq<Vec<i64>>, b: Seq<Vec<i64>>, i: int, j: int) -> spec_fn(
    nat,
) -> int {
    |t: nat| a[i][t as int] * b[t as int][j]
}

/// Entry `(i, j)` of the product `a * b`, whose inner dimension is the number of rows of `b`.
pub open spec fn product_entry(a: Seq<Vec<i64>>, b: Seq<Vec<i64>>, i: int, j: int) -> int {
    sum(b.len(), product_terms(a, b, i, j))
}

/// The number of columns of `b`: the length of its first row, or zero when it has no rows.
pub open spec fn columns(b: Seq<Vec<i64>>) -> int {
    if b.len() == 0 {
        0
    } else {
        b[0].len() as int
    }
}

/// Every entry of `a` lies within `[-2^20, 2^20]`.
pub open spec fn entries_bounded(a: Seq<Vec<i64>>) -> bool {
    forall|i: int, j: int|
        0 <= i < a.len() && 0 <= j < a[i].len() ==> -1048576 <= #[trigger] a[i][j] <= 1048576
}

/// The matrix product `a * b`. Every row of `a` has as many entries as `b` has rows, and every
/// row of `b` has the same length; the entry and size bounds keep every partial sum within
/// `i64`.
pub fn mul_matrix(a: &Vec<Vec<i64>>, b: &Vec<Vec<i64>>) -> (r: Vec<Vec<i64>>)
    requires
        forall|i: int| 0 <= i < a.len() ==> (#[trigger] a[i]).len() == b.len(),
        forall|k: int| 0 <= k < b.len() ==> (#[trigger] b[k]).len() == columns(b@),
        entries_bounded(a@),
        entries_bounded(b@),
        b.len() <= 1048576,
    ensures
        r.len() == a.len(),
        forall|i: int| 0 <= i < a.len() ==> (#[trigger] r[i]).len() == columns(b@),
        forall|i: int, j: int|
            0 <= i < a.len() && 0 <= j < columns(b@) ==> #[trigger] r[i][j] == product_entry(
                a@,
                b@,
                i,
                j,
            ),
{
    let cols = if b.len() == 0 {
        0
    } else {
        b[0].len()
    };
    let mut r: Vec<Vec<i64>> = Vec::new();
    let mut i: usize = 0;
    while i < a.len()
        invariant
            cols == columns(b@),
            forall|t: int| 0 <= t < a.len() ==> (#[trigger] a[t]).len() == b.len(),
            forall|k: int| 0 <= k < b.len() ==> (#[trigger] b[k]).len() == columns(b@),
            entries_bounded(a@),
            entries_bounded(b@),
            b.len() <= 1048576,
            i <= a.len(),
            r.len() == i,
            forall|t: int| 0 <= t < i ==> (#[trigger] r[t]).len() == cols,
            forall|t: int, j: int|
                0 <= t < i && 0 <= j < cols ==> #[trigger] r[t][j] == product_entry(a@, b@, t, j),
        decreases a.len() - i,
    {
        let mut row: Vec<i64> = Vec::new();
        let mut j: usize = 0;
        while j < cols
            invariant
                cols == columns(b@),
                i < a.len(),
                forall|t: int| 0 <= t < a.len() ==> (#[trigger] a[t]).len() == b.len(),
                forall|k: int| 0 <= k < b.len() ==> (#[trigger] b[k]).len() == columns(b@),
                entries_bounded(a@),
                entries_bounded(b@),
                b.len() <= 1048576,
                j <= cols,
                row.len() == j,
                forall|c: int| 0 <= c < j ==> #[trigger] row[c] == product_entry(a@, b@, i as int, c),
            decreases cols - j,
        {
            let mut acc: i64 = 0;
            let mut k: usize = 0;
            while k < b.len()
                invariant
                    i < a.len(),
                    j < cols,
                    cols == columns(b@),
                    forall|t: int| 0 <= t < a.len() ==> (#[trigger] a[t]).len() == b.len(),
                    forall|q: int| 0 <= q < b.len() ==> (#[trigger] b[q]).len() == columns(b@),
                    entries_bounded(a@),
                    entries_bounded(b@),
                    b.len() <= 1048576,
                    k <= b.len(),
                    acc == sum(k as nat, product_terms(a@, b@, i as int, j as int)),
                    -(k as int) * 1099511627776 <= acc <= (k as int) * 1099511627776,
                decreases b.len() - k,
            {
                let x = a[i][k];
                let y = b[k][j];
                assert(-1048576 <= x <= 1048576 && -1048576 <= y <= 1048576);
                assert(-1099511627776 <= x * y <= 1099511627776) by (nonlinear_arith)
                    requires
                        -1048576 <= x <= 1048576,
                        -1048576 <= y <= 1048576,
                ;
                acc = acc + x * y;
                k = k + 1;
            }
            row.push(acc);
            j = j + 1;
        }
        r.push(row);
        i = i + 1;
    }
    r
}

/// The pairwise rotation of order `n`, unscaled: entries `+1`, `-1` and `0`.
fn rotation_matrix(n: usize) -> (r: Vec<Vec<i64>>)
    requires
        n % 2 == 0,
    ensures
        r.len() == n,
        forall|i: int| 0 <= i < n ==> (#[trigger] r[i]).len() == n,
        forall|i: int, j: int|
            0 <= i < n && 0 <= j < n ==> #[trigger] r[i][j] == rotation(n as nat, i as nat, j as nat),
{
    let mut r: Vec<Vec<i64>> = Vec::new();
    let mut i: usize = 0;
    while i < n
        invariant
            i <= n,
            r.len() == i,
            forall|t: int| 0 <= t < i ==> (#[trigger] r[t]).len() == n,
            forall|t: int, j: int|
                0 <= t < i && 0 <= j < n ==> #[trigger] r[t][j] == rotation(n as nat, t as nat, j as nat),
        decreases n - i,
    {
        let half = i / 2;
        let sign: i64 = if (i % 2 == 0) != (i >= n / 2) {
            1
        } else {
            -1
        };
        let mut row: Vec<i64> = Vec::new();
        let mut j: usize = 0;
        while j < n
            invariant
                i < n,
                half == i / 2,
                sign == rotation_sign(n as nat, i as nat),
                j <= n,
                row.len() == j,
                forall|c: int| 0 <= c < j ==> #[trigger] row[c] == rotation(n as nat, i as nat, c as nat),
            decreases n - j,
        {
            let e: i64 = if j == half {
                sign
            } else if j == n - 1 - half {
                -1
            } else {
                0
            };
            row.push(e);
            j = j + 1;
        }
        r.push(row);
        i = i + 1;
    }
    r
}

/// The feedback-mixing matrix of order `n`, unscaled: the pairwise rotation times the Hadamard
/// matrix. Scaled by `1 / sqrt(2 * n)` it is orthogonal (see `lemma_feedback_orthogonal`).
pub fn hadamard_feedback_matrix(n: usize) -> (r: Vec<Vec<i64>>)
    requires
        is_pow2(n as nat),
        4 <= n <= 1048576,
    ensures
        r.len() == n,
        forall|i: int| 0 <= i < n ==> (#[trigger] r[i]).len() == n,
        forall|i: int, j: int|
            0 <= i < n && 0 <= j < n ==> #[trigger] r[i][j] == feedback(n as nat, i as nat, j as nat),
{
    let h = hadamard_matrix(n);
    let p = rotation_matrix(n);
    proof {
        assert forall|i: int, j: int| 0 <= i < h@.len() && 0 <= j < h@[i].len() implies -1048576
            <= #[trigger] h@[i][j] <= 1048576 by {
            lemma_hadamard_unit(n as nat, i as nat, j as nat);
        }
        assert forall|i: int, j: int| 0 <= i < p@.len() && 0 <= j < p@[i].len() implies -1048576
            <= #[trigger] p@[i][j] <= 1048576 by {}
        assert(columns(h@) == n);
    }
    let q = mul_matrix(&p, &h);
    proof {
        assert forall|i: int, j: int| 0 <= i < n && 0 <= j < n implies #[trigger] q[i][j] == feedback(
            n as nat,
            i as nat,
            j as nat,
        ) by {
            let f = product_terms(p@, h@, i, j);
            let g = feedback_terms(n as nat, i as nat, j as nat);
            assert forall|t: nat| t < n implies #[trigger] f(t) == g(t) by {}
            lemma_sum_ext(n as nat, f, g);
        }
    }
    q
}

} // verus!
