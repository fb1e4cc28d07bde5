use vstd::prelude::*;

verus! {

/// Fixed-point scale of every amount and ratio: one unit is `UNIT` micro-units.
pub const UNIT: u64 = 1_000_000;

/// Total probability mass of a full weight table (the published weight scale).
pub const MASS_ONE: u64 = 1_125_899_906_842_624;

/// Smallest `k` with `k * k >= n`.
pub open spec fn is_ceil_sqrt(n: nat, k: nat) -> bool {
    k * k >= n && (k == 0 || (k - 1) * (k - 1) < n)
}

/// Size of each of the two ancestor pools for a population target `n`: `ceil(sqrt(n))`.
pub fn ceil_sqrt(n: u32) -> (k: u32)
    ensures
        is_ceil_sqrt(n as nat, k as nat),
{
    let mut k: u64 = 0;
    loop
        invariant
            k <= 65536,
            k == 0 || (k - 1) * (k - 1) < n,
        ensures
            k <= 65536,
            k * k >= n,
            k == 0 || (k - 1) * (k - 1) < n,
        decreases 65536 - k,
    {
        assert(k * k <= 65536 * 65536) by (nonlinear_arith)
            requires
                k <= 65536,
        ;
        if k * k >= n as u64 {
            break;
        }
        assert(k < 65536);
        k = k + 1;
    }
    k as u32
}

/// Sum of the first `n` entries of `s`.
pub open spec fn sum_u64(s: Seq<u64>, n: int) -> int
    decreases n,
{
    if n <= 0 || n > s.len() {
        0
    } else {
        sum_u64(s, n - 1) + s[n - 1]
    }
}

/// Sum of the first `n` entries of `s`.
pub open spec fn sum_u128(s: Seq<u128>, n: int) -> int
    decreases n,
{
    if n <= 0 || n > s.len() {
        0
    } else {
        sum_u128(s, n - 1) + s[n - 1]
    }
}

/// Sum of `x[i] * w[i]` over the first `n` indices.
pub open spec fn dot_u64(x: Seq<u64>, w: Seq<u64>, n: int) -> int
    decreases n,
{
    if n <= 0 || n > x.len() || n > w.len() {
        0
    } else {
        dot_u64(x, w, n - 1) + x[n - 1] * w[n - 1]
    }
}

/// Sum of `x[i] * w[i]` over the first `n` indices.
pub open spec fn dot_u128(x: Seq<u64>, w: Seq<u128>, n: int) -> int
    decreases n,
{
    if n <= 0 || n > x.len() || n > w.len() {
        0
    } else {
        dot_u128(x, w, n - 1) + x[n - 1] * w[n - 1]
    }
}

/// Prefix sums of non-negative entries grow with the prefix.
pub proof fn lemma_sum_u64_mono(s: Seq<u64>, i: int, j: int)
    requires
        0 <= i <= j <= s.len(),
    ensures
        0 <= sum_u64(s, i) <= sum_u64(s, j),
    decreases j - i,
{
    if i < j {
        lemma_sum_u64_mono(s, i, j - 1);
    } else {
        lemma_sum_u64_nonneg(s, i);
    }
}

/// Sums of non-negative entries are non-negative.
pub proof fn lemma_sum_u64_nonneg(s: Seq<u64>, n: int)
    ensures
        0 <= sum_u64(s, n),
    decreases n,
{
    if n > 0 && n <= s.len() {
        lemma_sum_u64_nonneg(s, n - 1);
    }
}

/// Prefix sums of non-negative entries grow with the prefix.
pub proof fn lemma_sum_u128_mono(s: Seq<u128>, i: int, j: int)
    requires
        0 <= i <= j <= s.len(),
    ensures
        0 <= sum_u128(s, i) <= sum_u128(s, j),
    decreases j - i,
{
    if i < j {
        lemma_sum_u128_mono(s, i, j - 1);
    } else {
        lemma_sum_u128_nonneg(s, i);
    }
}

/// Sums of non-negative entries are non-negative.
pub proof fn lemma_sum_u128_nonneg(s: Seq<u128>, n: int)
    ensures
        0 <= sum_u128(s, n),
    decreases n,
{
    if n > 0 && n <= s.len() {
        lemma_sum_u128_nonneg(s, n - 1);
    }
}

/// A single entry never exceeds the sum it belongs to.
pub proof fn lemma_entry_le_sum_u128(s: Seq<u128>, i: int)
    requires
        0 <= i < s.len(),
    ensures
        s[i] <= sum_u128(s, s.len() as int),
{
    lemma_sum_u128_mono(s, 0, i);
    lemma_sum_u128_mono(s, i + 1, s.len() as int);
}

/// A weighted sum is at most the largest factor times the plain sum.
pub proof fn lemma_dot_u64_bound(x: Seq<u64>, w: Seq<u64>, n: int, xmax: int)
    requires
        0 <= n <= x.len(),
        n <= w.len(),
        forall|i: int| 0 <= i < n ==> x[i] <= xmax,
    ensures
        0 <= dot_u64(x, w, n) <= xmax * sum_u64(w, n),
    decreases n,
{
    if n > 0 {
        lemma_dot_u64_bound(x, w, n - 1, xmax);
        let a = x[n - 1] as int;
        let b = w[n - 1] as int;
        assert(0 <= a * b <= xmax * b) by (nonlinear_arith)
            requires
                0 <= a <= xmax,
                0 <= b,
        ;
        let p = sum_u64(w, n - 1);
        assert(sum_u64(w, n) == p + b);
        assert(xmax * (p + b) == xmax * p + xmax * b) by (nonlinear_arith);
    }
}

} // verus!
