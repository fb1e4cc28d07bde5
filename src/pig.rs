use vstd::prelude::*;
use vstd::arithmetic::div_mod::{lemma_fundamental_div_mod, lemma_mod_bound};
use vstd::arithmetic::mul::{lemma_mul_is_associative, lemma_mul_is_commutative};
use crate::units::{UNIT, sum_u64, sum_u128, dot_u64, dot_u128, lemma_sum_u64_mono, lemma_sum_u128_mono, lemma_entry_le_sum_u128, lemma_dot_u64_bound};
use crate::chance::{jitter_draws, draw_jitter};

verus! {

/// Mass that a freshly evaluated candidate is scaled to.
pub const ANCESTOR_MASS: u64 = 1_048_576;

/// Mass that a bred candidate is scaled to.
pub const CHILD_MASS: u64 = 70_368_744_177_664;

/// Largest payout, in micro-units, that a candidate is evaluated at.
pub const MAX_PAYOUT: u64 = 1_099_511_627_776;

/// Fixed-point scale of a jitter factor.
pub const JITTER_ONE: u64 = 100_000_000;

/// Largest raw mass that can still be scaled to `ANCESTOR_MASS` in 128 bits.
pub const RAW_LIMIT: u128 = 1_267_650_600_228_229_401_496_703_205_376;

/// A regional modifier: payouts in `[low, high]` are multiplied by `scale` (micro-units).
#[derive(Clone, Copy, Debug, PartialEq, Eq, Structural)]
pub struct Region {
    pub low: u64,
    pub high: u64,
    pub scale: u64,
}

/// The weight `w` at payout `x` after the regional modifiers, in order; `None` once a
/// step leaves the 64-bit range.
pub open spec fn regional(w: int, x: int, regions: Seq<Region>) -> Option<int>
    decreases regions.len(),
{
    if regions.len() == 0 {
        Some(w)
    } else {
        match regional(w, x, regions.drop_last()) {
            None => None,
            Some(v) => {
                let r = regions.last();
                let nv = if r.low <= x <= r.high {
                    v * r.scale / (UNIT as int)
                } else {
                    v
                };
                if nv <= u64::MAX {
                    Some(nv)
                } else {
                    None
                }
            },
        }
    }
}

/// The jitter factor `1 + (draw / 100) * strength`, scaled by `JITTER_ONE`.
pub open spec fn jitter_factor(draw: int, strength: int) -> int {
    JITTER_ONE + draw * strength
}

/// The weight of one payout after its regional modifiers and its jitter factor.
pub open spec fn modified(w: int, x: int, regions: Seq<Region>, draw: int, strength: int) -> Option<int> {
    match regional(w, x, regions) {
        None => None,
        Some(v) => {
            let j = v * jitter_factor(draw, strength) / (JITTER_ONE as int);
            if j <= u64::MAX {
                Some(j)
            } else {
                None
            }
        },
    }
}

/// Each payout's modified weight, the jitter drawn from `seed` in payout order.
pub open spec fn density_weights(
    wins: Seq<u64>,
    density: Seq<u64>,
    regions: Seq<Region>,
    seed: u32,
    strength: u64,
) -> Seq<Option<int>> {
    Seq::new(
        wins.len(),
        |i: int|
            modified(
                density[i] as int,
                wins[i] as int,
                regions,
                jitter_draws(seed, wins.len())[i] as int,
                strength as int,
            ),
    )
}

/// Whether every modified weight stays in the 64-bit range.
pub open spec fn density_fits(
    wins: Seq<u64>,
    density: Seq<u64>,
    regions: Seq<Region>,
    seed: u32,
    strength: u64,
) -> bool {
    forall|i: int|
        0 <= i < wins.len() ==> (#[trigger] density_weights(wins, density, regions, seed, strength)[i]).is_some()
}

/// The modified weights as integers (meaningful where `density_fits` holds).
pub open spec fn evaluated(
    wins: Seq<u64>,
    density: Seq<u64>,
    regions: Seq<Region>,
    seed: u32,
    strength: u64,
) -> Seq<u64> {
    Seq::new(
        wins.len(),
        |i: int| density_weights(wins, density, regions, seed, strength)[i].unwrap() as u64,
    )
}

fn apply_regions(w: u64, x: u64, regions: &Vec<Region>) -> (r: Option<u64>)
    ensures
        match regional(w as int, x as int, regions@) {
            None => r.is_none(),
            Some(v) => r.is_some() && r.unwrap() as int == v,
        },
{
    let mut cur: u64 = w;
    let mut k: usize = 0;
    while k < regions.len()
        invariant
            k <= regions@.len(),
            regional(w as int, x as int, regions@.take(k as int)) == Some(cur as int),
        decreases regions@.len() - k,
    {
        let reg = regions[k];
        assert(regions@.take(k as int + 1).drop_last() =~= regions@.take(k as int));
        assert(regions@.take(k as int + 1).last() == reg);
        let next: u128 = if reg.low <= x && x <= reg.high {
            assert((cur as int) * (reg.scale as int) <= u64::MAX as int * u64::MAX as int) by (nonlinear_arith);
            (cur as u128) * (reg.scale as u128) / (UNIT as u128)
        } else {
            cur as u128
        };
        if next > u64::MAX as u128 {
            assert(regional(w as int, x as int, regions@.take(k as int + 1)).is_none());
            proof {
                lemma_regional_none_stays(w as int, x as int, regions@, k as int + 1);
            }
            return None;
        }
        cur = next as u64;
        k = k + 1;
    }
    assert(regions@.take(k as int) =~= regions@);
    Some(cur)
}

proof fn lemma_regional_none_stays(w: int, x: int, regions: Seq<Region>, k: int)
    requires
        0 <= k <= regions.len(),
        regional(w, x, regions.take(k)).is_none(),
    ensures
        regional(w, x, regions).is_none(),
    decreases regions.len() - k,
{
    if k < regions.len() {
        assert(regions.take(k + 1).drop_last() =~= regions.take(k));
        lemma_regional_none_stays(w, x, regions, k + 1);
    } else {
        assert(regions.take(k) =~= regions);
    }
}

/// Evaluates one candidate's weights from its kernel density at each payout: the
/// regional modifiers whose range holds the payout, then the seeded jitter factor.
/// `None` when a weight leaves the 64-bit range.
pub fn get_weights(
    wins: &Vec<u64>,
    density: &Vec<u64>,
    params: &Vec<Region>,
    random_seed: u32,
    random_weight: u64,
) -> (r: Option<Vec<u64>>)
    requires
        density@.len() == wins@.len(),
        random_weight <= UNIT,
    ensures
        r.is_some() <==> density_fits(wins@, density@, params@, random_seed, random_weight),
        r.is_some() ==> r.unwrap()@ == evaluated(wins@, density@, params@, random_seed, random_weight),
{
    let draws = draw_jitter(random_seed, wins.len());
    let ghost dw = density_weights(wins@, density@, params@, random_seed, random_weight);
    let mut out: Vec<u64> = Vec::new();
    let mut i: usize = 0;
    while i < wins.len()
        invariant
            i <= wins@.len(),
            density@.len() == wins@.len(),
            random_weight <= UNIT,
            draws@ == jitter_draws(random_seed, wins@.len() as nat),
            draws@.len() == wins@.len(),
            forall|j: int| 0 <= j < wins@.len() ==> -100 <= #[trigger] draws@[j] <= 100,
            dw == density_weights(wins@, density@, params@, random_seed, random_weight),
            out@.len() == i,
            forall|j: int| 0 <= j < i ==> (#[trigger] dw[j]).is_some() && out@[j] == dw[j].unwrap(),
        decreases wins@.len() - i,
    {
        let v = apply_regions(density[i], wins[i], params);
        match v {
            None => {
                assert(dw[i as int].is_none());
                return None;
            },
            Some(v) => {
                let d = draws[i];
                assert(-100 * 1_000_000 <= (d as int) * (random_weight as int) <= 100 * 1_000_000) by (nonlinear_arith)
                    requires
                        -100 <= d <= 100,
                        0 <= random_weight <= 1_000_000,
                ;
                let shift: i64 = (d as i64) * (random_weight as i64);
                let factor: u64 = (JITTER_ONE as i64 + shift) as u64;
                assert(factor as int == jitter_factor(d as int, random_weight as int));
                assert(factor <= 2 * JITTER_ONE);
                assert(dw[i as int] == modified(
                    density@[i as int] as int,
                    wins@[i as int] as int,
                    params@,
                    d as int,
                    random_weight as int,
                ));
                assert((v as int) * (factor as int) <= u64::MAX as int * (2 * JITTER_ONE)) by (nonlinear_arith)
                    requires
                        factor <= 2 * JITTER_ONE,
                ;
                let j: u128 = (v as u128) * (factor as u128) / (JITTER_ONE as u128);
                if j > u64::MAX as u128 {
                    assert(dw[i as int].is_none());
                    return None;
                }
                out.push(j as u64);
            },
        }
        i = i + 1;
    }
    assert(out@ =~= evaluated(wins@, density@, params@, random_seed, random_weight));
    Some(out)
}

/// A candidate density for one bucket, kept as its evaluated weights at the bucket's
/// payouts, with the totals that give its average win (`win_total / sum_dist`).
#[derive(Clone, Debug)]
pub struct Pig {
    pub weights: Vec<u64>,
    pub sum_dist: u64,
    pub win_total: u128,
    pub random_seeds: Vec<u32>,
    pub random_weights: Vec<u64>,
}

impl Pig {
    /// The totals match the weights, which sit at the payouts `wins`.
    pub open spec fn wf(&self, wins: Seq<u64>) -> bool {
        &&& self.weights@.len() == wins.len()
        &&& self.sum_dist as int == sum_u64(self.weights@, wins.len() as int)
        &&& self.win_total as int == dot_u64(wins, self.weights@, wins.len() as int)
        &&& self.sum_dist <= CHILD_MASS
        &&& self.random_seeds@.len() == self.random_weights@.len()
        &&& (forall|k: int| 0 <= k < self.random_weights@.len() ==> #[trigger] self.random_weights@[k] <= UNIT)
    }

    /// The candidate's average win exceeds `target`.
    pub open spec fn is_above(&self, target: int) -> bool {
        self.win_total > target * self.sum_dist
    }

    /// The candidate's average win is below `target`.
    pub open spec fn is_below(&self, target: int) -> bool {
        self.win_total < target * self.sum_dist
    }
}

/// Payouts that candidates are evaluated at: none above `MAX_PAYOUT`.
pub open spec fn payouts_in_range(wins: Seq<u64>) -> bool {
    forall|i: int| 0 <= i < wins.len() ==> #[trigger] wins[i] <= MAX_PAYOUT
}

/// `raw` scaled so that its total becomes `scale`, each entry rounded down.
pub open spec fn normalized(raw: Seq<u128>, scale: int) -> Seq<u64> {
    Seq::new(raw.len(), |i: int| (raw[i] * scale / sum_u128(raw, raw.len() as int)) as u64)
}

/// Scales `raw` to the total `scale`, rounding each entry down.
pub fn normalize(raw: &Vec<u128>, scale: u64) -> (r: Vec<u64>)
    requires
        sum_u128(raw@, raw@.len() as int) > 0,
        scale > 0,
        sum_u128(raw@, raw@.len() as int) * scale <= u128::MAX,
    ensures
        r@ == normalized(raw@, scale as int),
        forall|i: int| 0 <= i < r@.len() ==> r@[i] as int == raw@[i] * scale / sum_u128(raw@, raw@.len() as int),
        sum_u64(r@, r@.len() as int) <= scale,
        sum_u64(r@, r@.len() as int) + r@.len() >= scale,
{
    let ghost n = raw@.len() as int;
    let ghost total = sum_u128(raw@, n);
    let mut t: u128 = 0;
    let mut i: usize = 0;
    while i < raw.len()
        invariant
            i <= raw@.len(),
            n == raw@.len(),
            total == sum_u128(raw@, n),
            t as int == sum_u128(raw@, i as int),
            total * scale <= u128::MAX,
            scale > 0,
        decreases raw@.len() - i,
    {
        proof {
            lemma_sum_u128_mono(raw@, i as int + 1, n);
            assert(total <= total * scale) by (nonlinear_arith)
                requires
                    scale > 0,
                    total >= 0,
            ;
        }
        t = t + raw[i];
        i = i + 1;
    }
    let mut out: Vec<u64> = Vec::new();
    let mut j: usize = 0;
    while j < raw.len()
        invariant
            j <= raw@.len(),
            n == raw@.len(),
            total == sum_u128(raw@, n),
            t as int == total,
            total > 0,
            total * scale <= u128::MAX,
            out@.len() == j,
            forall|k: int| 0 <= k < j ==> out@[k] as int == raw@[k] * scale / total,
            sum_u64(out@, j as int) * total <= sum_u128(raw@, j as int) * scale,
            (sum_u64(out@, j as int) + j) * total >= sum_u128(raw@, j as int) * scale,
        decreases raw@.len() - j,
    {
        let a: u128 = raw[j];
        proof {
            lemma_entry_le_sum_u128(raw@, j as int);
            assert(a as int * scale <= total * scale) by (nonlinear_arith)
                requires
                    a <= total,
            ;
        }
        let q: u128 = a * (scale as u128) / t;
        proof {
            let m = a as int * scale as int;
            lemma_fundamental_div_mod(m, total);
            lemma_mod_bound(m, total);
            assert(q as int == m / total);
            assert(q * total <= m);
            assert(q <= scale) by (nonlinear_arith)
                requires
                    q * total <= m,
                    m <= total * scale,
                    total > 0,
            ;
            let pre = sum_u64(out@, j as int);
            let ghost out2 = out@.push(q as u64);
            assert(out2.subrange(0, j as int) =~= out@);
            lemma_sum_prefix_ext(out2, out@, j as int);
            assert(sum_u64(out2, j as int + 1) == pre + q);
            assert((pre + q) * total == pre * total + q * total) by (nonlinear_arith);
            assert((pre + q + j + 1) * total >= sum_u128(raw@, j as int) * scale + m) by (nonlinear_arith)
                requires
                    (pre + j) * total >= sum_u128(raw@, j as int) * scale,
                    m == total * q + m % total,
                    m % total < total,
            ;
            assert(sum_u128(raw@, j as int + 1) * scale == sum_u128(raw@, j as int) * scale + m) by (nonlinear_arith)
                requires
                    sum_u128(raw@, j as int + 1) == sum_u128(raw@, j as int) + a,
                    m == a * scale,
            ;
        }
        out.push(q as u64);
        j = j + 1;
    }
    proof {
        assert(sum_u64(out@, n) * total <= total * scale);
        assert(sum_u64(out@, n) <= scale) by (nonlinear_arith)
            requires
                sum_u64(out@, n) * total <= total * scale,
                total > 0,
        ;
        assert(sum_u64(out@, n) + n >= scale) by (nonlinear_arith)
            requires
                (sum_u64(out@, n) + n) * total >= total * scale,
                total > 0,
        ;
        assert(out@ =~= normalized(raw@, scale as int));
    }
    out
}

/// Sums over a prefix depend only on that prefix.
pub proof fn lemma_sum_prefix_ext(a: Seq<u64>, b: Seq<u64>, n: int)
    requires
        0 <= n <= a.len(),
        n <= b.len(),
        forall|i: int| 0 <= i < n ==> a[i] == b[i],
    ensures
        sum_u64(a, n) == sum_u64(b, n),
    decreases n,
{
    if n > 0 {
        lemma_sum_prefix_ext(a, b, n - 1);
    }
}

/// Sums over a prefix depend only on that prefix.
pub proof fn lemma_dot_prefix_ext(x: Seq<u64>, a: Seq<u64>, b: Seq<u64>, n: int)
    requires
        0 <= n <= a.len(),
        n <= b.len(),
        n <= x.len(),
        forall|i: int| 0 <= i < n ==> a[i] == b[i],
    ensures
        dot_u64(x, a, n) == dot_u64(x, b, n),
    decreases n,
{
    if n > 0 {
        lemma_dot_prefix_ext(x, a, b, n - 1);
    }
}

/// The mass and the payout-weighted mass of `weights`.
pub fn totals(wins: &Vec<u64>, weights: &Vec<u64>) -> (r: (u64, u128))
    requires
        wins@.len() == weights@.len(),
        payouts_in_range(wins@),
        sum_u64(weights@, weights@.len() as int) <= CHILD_MASS,
    ensures
        r.0 as int == sum_u64(weights@, weights@.len() as int),
        r.1 as int == dot_u64(wins@, weights@, weights@.len() as int),
{
    let ghost n = weights@.len() as int;
    let mut s: u64 = 0;
    let mut d: u128 = 0;
    let mut i: usize = 0;
    while i < weights.len()
        invariant
            i <= n,
            n == weights@.len(),
            wins@.len() == n,
            payouts_in_range(wins@),
            sum_u64(weights@, n) <= CHILD_MASS,
            s as int == sum_u64(weights@, i as int),
            d as int == dot_u64(wins@, weights@, i as int),
        decreases n - i,
    {
        proof {
            lemma_sum_u64_mono(weights@, i as int + 1, n);
            lemma_dot_u64_bound(wins@, weights@, i as int + 1, MAX_PAYOUT as int);
            assert(MAX_PAYOUT * sum_u64(weights@, i as int + 1) <= MAX_PAYOUT * CHILD_MASS) by (nonlinear_arith)
                requires
                    sum_u64(weights@, i as int + 1) <= CHILD_MASS,
            ;
        }
        s = s + weights[i];
        d = d + (wins[i] as u128) * (weights[i] as u128);
        i = i + 1;
    }
    (s, d)
}

/// What a fresh candidate built from `density` with `regions`, `seed` and `strength` is:
/// present exactly when every evaluated weight fits and their total is positive and at most
/// `RAW_LIMIT`; then its weights are the evaluated ones scaled to `ANCESTOR_MASS`.
pub open spec fn ancestor_of(
    wins: Seq<u64>,
    density: Seq<u64>,
    regions: Seq<Region>,
    seed: u32,
    strength: u64,
    r: Option<Pig>,
) -> bool {
    let raw = evaluated(wins, density, regions, seed, strength);
    let raw_total = sum_u64(raw, raw.len() as int);
    &&& r.is_some() <==> (density_fits(wins, density, regions, seed, strength) && 0 < raw_total <= RAW_LIMIT)
    &&& r.is_some() ==> {
        let p = r.unwrap();
        &&& p.wf(wins)
        &&& p.sum_dist <= ANCESTOR_MASS
        &&& (forall|i: int| 0 <= i < wins.len() ==> #[trigger] p.weights@[i] as int == raw[i] * ANCESTOR_MASS / raw_total)
        &&& p.random_seeds@ == seq![seed]
        &&& p.random_weights@ == seq![strength]
    }
}

/// Builds a fresh candidate: evaluates its weights (see `get_weights`) and scales them to
/// `ANCESTOR_MASS`. `None` when a weight leaves the 64-bit range, or the evaluated mass is
/// zero or above `RAW_LIMIT`.
pub fn get_weights_no_weight_array(
    wins: &Vec<u64>,
    density: &Vec<u64>,
    params: &Vec<Region>,
    random_seed: u32,
    random_weight: u64,
) -> (r: Option<Pig>)
    requires
        density@.len() == wins@.len(),
        random_weight <= UNIT,
        payouts_in_range(wins@),
    ensures
        ancestor_of(wins@, density@, params@, random_seed, random_weight, r),
{
    let ghost raw_s = evaluated(wins@, density@, params@, random_seed, random_weight);
    let ev = get_weights(wins, density, params, random_seed, random_weight);
    match ev {
        None => {
            assert(!density_fits(wins@, density@, params@, random_seed, random_weight));
            None
        },
        Some(raw) => {
            let mut wide: Vec<u128> = Vec::new();
            let mut t: u128 = 0;
            let mut i: usize = 0;
            while i < raw.len()
                invariant
                    i <= raw@.len(),
                    raw@ == raw_s,
                    raw_s == evaluated(wins@, density@, params@, random_seed, random_weight),
                    raw@.len() == wins@.len(),
                    wide@.len() == i,
                    forall|k: int| 0 <= k < i ==> wide@[k] as int == raw@[k] as int,
                    t as int == sum_u64(raw@, i as int),
                    t as int == sum_u128(wide@, i as int),
                    t <= RAW_LIMIT,
                decreases raw@.len() - i,
            {
                proof {
                    let w2 = wide@.push(raw[i as int] as u128);
                    lemma_sum_u128_prefix_ext(w2, wide@, i as int);
                }
                t = t + raw[i] as u128;
                wide.push(raw[i] as u128);
                if t > RAW_LIMIT {
                    proof {
                        lemma_sum_u64_mono(raw@, i as int + 1, raw@.len() as int);
                        assert(sum_u64(raw@, i as int + 1) > RAW_LIMIT);
                        assert(sum_u64(raw_s, raw_s.len() as int) > RAW_LIMIT);
                    }
                    return None;
                }
                i = i + 1;
            }
            if t == 0 {
                return None;
            }
            let weights = normalize(&wide, ANCESTOR_MASS);
            proof {
                assert(sum_u64(weights@, weights@.len() as int) <= ANCESTOR_MASS);
            }
            let (sum_dist, win_total) = totals(wins, &weights);
            let pig = Pig {
                weights,
                sum_dist,
                win_total,
                random_seeds: vec![random_seed],
                random_weights: vec![random_weight],
            };
            assert(pig.random_seeds@ =~= seq![random_seed]);
            assert(pig.random_weights@ =~= seq![random_weight]);
            Some(pig)
        },
    }
}

/// Sums over a prefix depend only on that prefix.
pub proof fn lemma_sum_u128_prefix_ext(a: Seq<u128>, b: Seq<u128>, n: int)
    requires
        0 <= n <= a.len(),
        n <= b.len(),
        forall|i: int| 0 <= i < n ==> a[i] == b[i],
    ensures
        sum_u128(a, n) == sum_u128(b, n),
    decreases n,
{
    if n > 0 {
        lemma_sum_u128_prefix_ext(a, b, n - 1);
    }
}

/// A single entry never exceeds the sum it belongs to.
pub proof fn lemma_entry_le_sum_u64(s: Seq<u64>, i: int)
    requires
        0 <= i < s.len(),
    ensures
        s[i] <= sum_u64(s, s.len() as int),
{
    lemma_sum_u64_mono(s, 0, i);
    lemma_sum_u64_mono(s, i + 1, s.len() as int);
}

/// Mixing coefficient of the above-target parent: `target * N - Rn` for the below-target
/// parent's mass `N` and payout-weighted mass `Rn`.
pub open spec fn above_coefficient(neg: Pig, target: int) -> int {
    target * neg.sum_dist - neg.win_total
}

/// Mixing coefficient of the below-target parent: `Rp - target * P`.
pub open spec fn below_coefficient(pos: Pig, target: int) -> int {
    pos.win_total - target * pos.sum_dist
}

/// The exact blend `a * p[i] + b * q[i]` of two weight vectors.
pub open spec fn blend(p: Seq<u64>, q: Seq<u64>, a: int, b: int) -> Seq<u128> {
    Seq::new(p.len(), |i: int| (a * p[i] + b * q[i]) as u128)
}

/// Sums and payout-weighted sums are linear in a blend.
pub proof fn lemma_blend_linear(x: Seq<u64>, p: Seq<u64>, q: Seq<u64>, c: Seq<u128>, a: int, b: int, n: int)
    requires
        0 <= n <= c.len(),
        n <= p.len(),
        n <= q.len(),
        n <= x.len(),
        forall|i: int| 0 <= i < n ==> c[i] as int == a * p[i] + b * q[i],
    ensures
        sum_u128(c, n) == a * sum_u64(p, n) + b * sum_u64(q, n),
        dot_u128(x, c, n) == a * dot_u64(x, p, n) + b * dot_u64(x, q, n),
    decreases n,
{
    if n > 0 {
        lemma_blend_linear(x, p, q, c, a, b, n - 1);
        let pi = p[n - 1] as int;
        let qi = q[n - 1] as int;
        let xi = x[n - 1] as int;
        let sp = sum_u64(p, n - 1);
        let sq = sum_u64(q, n - 1);
        let dp = dot_u64(x, p, n - 1);
        let dq = dot_u64(x, q, n - 1);
        assert(a * (sp + pi) + b * (sq + qi) == (a * sp + b * sq) + (a * pi + b * qi)) by (nonlinear_arith);
        let u = xi * pi;
        let v = xi * qi;
        assert(a * (dp + u) == a * dp + a * u) by (nonlinear_arith);
        assert(b * (dq + v) == b * dq + b * v) by (nonlinear_arith);
        assert(a * u == xi * (a * pi)) by {
            lemma_mul_is_associative(a, xi, pi);
            lemma_mul_is_associative(xi, a, pi);
            lemma_mul_is_commutative(a, xi);
        }
        assert(b * v == xi * (b * qi)) by {
            lemma_mul_is_associative(b, xi, qi);
            lemma_mul_is_associative(xi, b, qi);
            lemma_mul_is_commutative(b, xi);
        }
        assert(xi * (a * pi) + xi * (b * qi) == xi * (a * pi + b * qi)) by (nonlinear_arith);
    }
}

/// Blending an above-target candidate with a below-target one, with the coefficients
/// `target * N - Rn` and `Rp - target * P`, gives a positive mass whose average win is
/// exactly `target`: the payout-weighted mass equals `target` times the mass.
pub proof fn lemma_blend_hits_target(wins: Seq<u64>, p: Seq<u64>, q: Seq<u64>, c: Seq<u128>, target: int)
    requires
        p.len() == wins.len(),
        q.len() == wins.len(),
        c.len() == wins.len(),
        target >= 0,
        dot_u64(wins, p, wins.len() as int) > target * sum_u64(p, wins.len() as int),
        dot_u64(wins, q, wins.len() as int) < target * sum_u64(q, wins.len() as int),
        forall|i: int| 0 <= i < c.len() ==> c[i] as int
            == (target * sum_u64(q, wins.len() as int) - dot_u64(wins, q, wins.len() as int)) * p[i]
            + (dot_u64(wins, p, wins.len() as int) - target * sum_u64(p, wins.len() as int)) * q[i],
    ensures
        sum_u128(c, c.len() as int) > 0,
        dot_u128(wins, c, c.len() as int) == target * sum_u128(c, c.len() as int),
{
    let n = wins.len() as int;
    let pp = sum_u64(p, n);
    let rp = dot_u64(wins, p, n);
    let nn = sum_u64(q, n);
    let rn = dot_u64(wins, q, n);
    let a = target * nn - rn;
    let b = rp - target * pp;
    lemma_blend_linear(wins, p, q, c, a, b, n);
    lemma_sum_u64_nonneg_here(p, n);
    lemma_sum_u64_nonneg_here(q, n);
    lemma_dot_u64_bound(wins, p, n, u64::MAX as int);
    assert(pp > 0) by (nonlinear_arith)
        requires
            rp > target * pp,
            rp <= u64::MAX * pp,
            target >= 0,
            pp >= 0,
    ;
    assert(a * pp + b * nn > 0) by (nonlinear_arith)
        requires
            a > 0,
            b > 0,
            pp > 0,
            nn >= 0,
    ;
    assert(a * rp + b * rn == target * (a * pp + b * nn)) by (nonlinear_arith)
        requires
            a == target * nn - rn,
            b == rp - target * pp,
    ;
}

proof fn lemma_sum_u64_nonneg_here(s: Seq<u64>, n: int)
    requires
        0 <= n <= s.len(),
    ensures
        sum_u64(s, n) >= 0,
{
    lemma_sum_u64_mono(s, 0, n);
}

/// The exact blend of an above-target and a below-target candidate (see
/// `lemma_blend_hits_target`), entry by entry.
pub fn combine_distributions(pos_pig: &Pig, neg_pig: &Pig, wins: &Vec<u64>, target: u64) -> (r: Vec<u128>)
    requires
        pos_pig.wf(wins@),
        neg_pig.wf(wins@),
        pos_pig.sum_dist <= ANCESTOR_MASS,
        neg_pig.sum_dist <= ANCESTOR_MASS,
        pos_pig.is_above(target as int),
        neg_pig.is_below(target as int),
        target <= MAX_PAYOUT,
        payouts_in_range(wins@),
    ensures
        r@ == blend(
            pos_pig.weights@,
            neg_pig.weights@,
            above_coefficient(*neg_pig, target as int),
            below_coefficient(*pos_pig, target as int),
        ),
        r@.len() == wins@.len(),
        forall|i: int| 0 <= i < r@.len() ==> #[trigger] r@[i] as int
            == above_coefficient(*neg_pig, target as int) * pos_pig.weights@[i]
            + below_coefficient(*pos_pig, target as int) * neg_pig.weights@[i],
        sum_u128(r@, r@.len() as int) > 0,
        sum_u128(r@, r@.len() as int) * CHILD_MASS <= u128::MAX,
        dot_u128(wins@, r@, r@.len() as int) == target * sum_u128(r@, r@.len() as int),
{
    let ghost n = wins@.len() as int;
    proof {
        lemma_dot_u64_bound(wins@, pos_pig.weights@, n, MAX_PAYOUT as int);
        assert(pos_pig.win_total <= MAX_PAYOUT * ANCESTOR_MASS) by (nonlinear_arith)
            requires
                pos_pig.win_total <= MAX_PAYOUT * pos_pig.sum_dist,
                pos_pig.sum_dist <= ANCESTOR_MASS,
        ;
        assert(target * neg_pig.sum_dist <= MAX_PAYOUT * ANCESTOR_MASS) by (nonlinear_arith)
            requires
                target <= MAX_PAYOUT,
                neg_pig.sum_dist <= ANCESTOR_MASS,
        ;
        assert(target * pos_pig.sum_dist >= 0) by (nonlinear_arith);
    }
    let a: u128 = (target as u128) * (neg_pig.sum_dist as u128) - neg_pig.win_total;
    let b: u128 = pos_pig.win_total - (target as u128) * (pos_pig.sum_dist as u128);
    let ghost ga = above_coefficient(*neg_pig, target as int);
    let ghost gb = below_coefficient(*pos_pig, target as int);
    assert(a == ga && b == gb);
    let mut out: Vec<u128> = Vec::new();
    let mut i: usize = 0;
    while i < wins.len()
        invariant
            i <= n,
            n == wins@.len(),
            pos_pig.wf(wins@),
            neg_pig.wf(wins@),
            pos_pig.sum_dist <= ANCESTOR_MASS,
            neg_pig.sum_dist <= ANCESTOR_MASS,
            a == ga,
            b == gb,
            0 < a <= MAX_PAYOUT * ANCESTOR_MASS,
            0 < b <= MAX_PAYOUT * ANCESTOR_MASS,
            out@.len() == i,
            forall|k: int| 0 <= k < i ==> #[trigger] out@[k] as int
                == ga * pos_pig.weights@[k] + gb * neg_pig.weights@[k],
        decreases n - i,
    {
        let pw = pos_pig.weights[i];
        let nw = neg_pig.weights[i];
        proof {
            lemma_entry_le_sum_u64(pos_pig.weights@, i as int);
            lemma_entry_le_sum_u64(neg_pig.weights@, i as int);
            assert(a * pw + b * nw <= 2 * (MAX_PAYOUT * ANCESTOR_MASS) * ANCESTOR_MASS) by (nonlinear_arith)
                requires
                    a <= MAX_PAYOUT * ANCESTOR_MASS,
                    b <= MAX_PAYOUT * ANCESTOR_MASS,
                    pw <= ANCESTOR_MASS,
                    nw <= ANCESTOR_MASS,
            ;
            assert(a * pw <= (MAX_PAYOUT * ANCESTOR_MASS) * ANCESTOR_MASS) by (nonlinear_arith)
                requires
                    a <= MAX_PAYOUT * ANCESTOR_MASS,
                    pw <= ANCESTOR_MASS,
            ;
            assert(b * nw <= (MAX_PAYOUT * ANCESTOR_MASS) * ANCESTOR_MASS) by (nonlinear_arith)
                requires
                    b <= MAX_PAYOUT * ANCESTOR_MASS,
                    nw <= ANCESTOR_MASS,
            ;
        }
        out.push(a * (pw as u128) + b * (nw as u128));
        i = i + 1;
    }
    proof {
        assert(out@ =~= blend(pos_pig.weights@, neg_pig.weights@, ga, gb));
        lemma_blend_hits_target(wins@, pos_pig.weights@, neg_pig.weights@, out@, target as int);
        lemma_blend_linear(wins@, pos_pig.weights@, neg_pig.weights@, out@, ga, gb, n);
        let pp = sum_u64(pos_pig.weights@, n);
        let nn = sum_u64(neg_pig.weights@, n);
        assert(ga * pp + gb * nn <= 2 * (MAX_PAYOUT * ANCESTOR_MASS) * ANCESTOR_MASS) by (nonlinear_arith)
            requires
                ga <= MAX_PAYOUT * ANCESTOR_MASS,
                gb <= MAX_PAYOUT * ANCESTOR_MASS,
                0 <= pp <= ANCESTOR_MASS,
                0 <= nn <= ANCESTOR_MASS,
                ga > 0,
                gb > 0,
        ;
    }
    out
}

/// Sum of `|wins[i] - target|` over the first `n` payouts.
pub open spec fn deviation(wins: Seq<u64>, target: int, n: int) -> int
    decreases n,
{
    if n <= 0 || n > wins.len() {
        0
    } else {
        deviation(wins, target, n - 1) + if wins[n - 1] >= target {
            wins[n - 1] - target
        } else {
            target - wins[n - 1]
        }
    }
}

/// Sum of `(x[i] - t) * w[i]` over the first `n` indices.
pub open spec fn centered_u64(x: Seq<u64>, w: Seq<u64>, t: int, n: int) -> int
    decreases n,
{
    if n <= 0 || n > x.len() || n > w.len() {
        0
    } else {
        centered_u64(x, w, t, n - 1) + (x[n - 1] - t) * w[n - 1]
    }
}

/// Sum of `(x[i] - t) * w[i]` over the first `n` indices.
pub open spec fn centered_u128(x: Seq<u64>, w: Seq<u128>, t: int, n: int) -> int
    decreases n,
{
    if n <= 0 || n > x.len() || n > w.len() {
        0
    } else {
        centered_u128(x, w, t, n - 1) + (x[n - 1] - t) * w[n - 1]
    }
}

proof fn lemma_centered_u64(x: Seq<u64>, w: Seq<u64>, t: int, n: int)
    requires
        0 <= n <= x.len(),
        n <= w.len(),
    ensures
        centered_u64(x, w, t, n) == dot_u64(x, w, n) - t * sum_u64(w, n),
    decreases n,
{
    if n > 0 {
        lemma_centered_u64(x, w, t, n - 1);
        let a = x[n - 1] as int;
        let b = w[n - 1] as int;
        let s = sum_u64(w, n - 1);
        assert((a - t) * b == a * b - t * b) by (nonlinear_arith);
        assert(t * (s + b) == t * s + t * b) by (nonlinear_arith);
    }
}

proof fn lemma_centered_u128(x: Seq<u64>, w: Seq<u128>, t: int, n: int)
    requires
        0 <= n <= x.len(),
        n <= w.len(),
    ensures
        centered_u128(x, w, t, n) == dot_u128(x, w, n) - t * sum_u128(w, n),
    decreases n,
{
    if n > 0 {
        lemma_centered_u128(x, w, t, n - 1);
        let a = x[n - 1] as int;
        let b = w[n - 1] as int;
        let s = sum_u128(w, n - 1);
        assert((a - t) * b == a * b - t * b) by (nonlinear_arith);
        assert(t * (s + b) == t * s + t * b) by (nonlinear_arith);
    }
}

proof fn lemma_rounding_error(x: Seq<u64>, c: Seq<u128>, q: Seq<u64>, t: int, k: int, total: int, n: int)
    requires
        0 <= n <= x.len(),
        n <= c.len(),
        n <= q.len(),
        total > 0,
        k >= 0,
        forall|i: int| 0 <= i < n ==> #[trigger] q[i] as int == c[i] * k / total,
    ensures
        ({
            let d = centered_u64(x, q, t, n) * total - k * centered_u128(x, c, t, n);
            -(total * deviation(x, t, n)) <= d <= total * deviation(x, t, n)
        }),
    decreases n,
{
    if n > 0 {
        lemma_rounding_error(x, c, q, t, k, total, n - 1);
        let a = x[n - 1] as int - t;
        let ci = c[n - 1] as int;
        let qi = q[n - 1] as int;
        let m = ci * k;
        assert(m >= 0) by (nonlinear_arith)
            requires
                ci >= 0,
                k >= 0,
                m == ci * k,
        ;
        lemma_fundamental_div_mod(m, total);
        lemma_mod_bound(m, total);
        let e = m - qi * total;
        assert(0 <= e < total) by (nonlinear_arith)
            requires
                m == total * (m / total) + m % total,
                0 <= m % total < total,
                qi == m / total,
                e == m - qi * total,
        ;
        let dev = if x[n - 1] as int >= t { a } else { -a };
        assert(-(dev * total) <= a * e <= dev * total) by (nonlinear_arith)
            requires
                0 <= e < total,
                dev == a || dev == -a,
                dev >= 0,
        ;
        let cq = centered_u64(x, q, t, n - 1);
        let cc = centered_u128(x, c, t, n - 1);
        assert((cq + a * qi) * total - k * (cc + a * ci) == (cq * total - k * cc) - a * e) by (nonlinear_arith)
            requires
                e == ci * k - qi * total,
        ;
        assert(total * (deviation(x, t, n - 1) + dev) == total * deviation(x, t, n - 1) + dev * total) by (nonlinear_arith);
    }
}

/// Breeds a candidate from an above-target and a below-target parent: their exact blend
/// (`combine_distributions`), scaled to `CHILD_MASS`. The child keeps the first jitter
/// seed and strength of each parent, above-target parent first. Rounding keeps its mass
/// within one unit per payout of `CHILD_MASS` (2^46), and its payout-weighted mass within
/// `sum |wins[i] - target|` of `target` times its mass.
pub fn breed_pigs(pos_pig: &Pig, neg_pig: &Pig, wins: &Vec<u64>, target: u64) -> (r: Pig)
    requires
        pos_pig.wf(wins@),
        neg_pig.wf(wins@),
        pos_pig.sum_dist <= ANCESTOR_MASS,
        neg_pig.sum_dist <= ANCESTOR_MASS,
        pos_pig.is_above(target as int),
        neg_pig.is_below(target as int),
        pos_pig.random_seeds@.len() > 0,
        neg_pig.random_seeds@.len() > 0,
        target <= MAX_PAYOUT,
        payouts_in_range(wins@),
    ensures
        r.wf(wins@),
        r.weights@ == normalized(
            blend(
                pos_pig.weights@,
                neg_pig.weights@,
                above_coefficient(*neg_pig, target as int),
                below_coefficient(*pos_pig, target as int),
            ),
            CHILD_MASS as int,
        ),
        r.random_seeds@ == seq![pos_pig.random_seeds@[0], neg_pig.random_seeds@[0]],
        r.random_weights@ == seq![pos_pig.random_weights@[0], neg_pig.random_weights@[0]],
        -deviation(wins@, target as int, wins@.len() as int) <= r.win_total - target * r.sum_dist
            <= deviation(wins@, target as int, wins@.len() as int),
        r.sum_dist + wins@.len() >= CHILD_MASS,
{
    let mixed = combine_distributions(pos_pig, neg_pig, wins, target);
    let weights = normalize(&mixed, CHILD_MASS);
    let (sum_dist, win_total) = totals(wins, &weights);
    proof {
        let n = wins@.len() as int;
        let t = target as int;
        let c_total = sum_u128(mixed@, n);
        lemma_centered_u64(wins@, weights@, t, n);
        lemma_centered_u128(wins@, mixed@, t, n);
        lemma_rounding_error(wins@, mixed@, weights@, t, CHILD_MASS as int, c_total, n);
        let cq = centered_u64(wins@, weights@, t, n);
        let dev = deviation(wins@, t, n);
        assert(centered_u128(wins@, mixed@, t, n) == 0);
        assert(-dev <= cq <= dev) by (nonlinear_arith)
            requires
                -(c_total * dev) <= cq * c_total <= c_total * dev,
                c_total > 0,
        ;
    }
    let child = Pig {
        weights,
        sum_dist,
        win_total,
        random_seeds: vec![pos_pig.random_seeds[0], neg_pig.random_seeds[0]],
        random_weights: vec![pos_pig.random_weights[0], neg_pig.random_weights[0]],
    };
    proof {
        assert(child.random_weights@[0] <= UNIT);
        assert(child.random_weights@[1] <= UNIT);
    }
    child
}

/// The payout at the first index from `i` on where the running mass reaches half of
/// `total`; zero if there is none.
pub open spec fn median_from(wins: Seq<u64>, weights: Seq<u64>, total: int, i: int) -> int
    decreases wins.len() - i,
{
    if i < 0 || i >= wins.len() || i >= weights.len() {
        0
    } else if 2 * sum_u64(weights, i + 1) >= total {
        wins[i] as int
    } else {
        median_from(wins, weights, total, i + 1)
    }
}

/// The median payout of a candidate: where its cumulative weight first reaches half its mass.
pub open spec fn median_spec(wins: Seq<u64>, pig: Pig) -> int {
    median_from(wins, pig.weights@, pig.sum_dist as int, 0)
}

/// The volatility bound: unless the median is positive and `target / median` lies at or
/// below `min_ratio` or at or above `max_ratio` (ratios in micro-units).
pub open spec fn volatility_ok(target: int, median: int, min_ratio: int, max_ratio: int) -> bool {
    !(median > 0 && (target * UNIT <= min_ratio * median || target * UNIT >= max_ratio * median))
}

/// The median payout of `pig` (see `median_spec`).
pub fn median_win(wins: &Vec<u64>, pig: &Pig) -> (r: u64)
    requires
        pig.wf(wins@),
    ensures
        r as int == median_spec(wins@, *pig),
{
    let ghost n = wins@.len() as int;
    let mut cum: u64 = 0;
    let mut i: usize = 0;
    while i < wins.len()
        invariant
            i <= n,
            n == wins@.len(),
            pig.wf(wins@),
            cum as int == sum_u64(pig.weights@, i as int),
            median_from(wins@, pig.weights@, pig.sum_dist as int, 0) == median_from(
                wins@,
                pig.weights@,
                pig.sum_dist as int,
                i as int,
            ),
        decreases n - i,
    {
        proof {
            lemma_sum_u64_mono(pig.weights@, i as int + 1, n);
        }
        cum = cum + pig.weights[i];
        if 2 * (cum as u128) >= pig.sum_dist as u128 {
            return wins[i];
        }
        i = i + 1;
    }
    0
}

/// Whether a candidate's median meets the volatility bound for `target`.
pub fn mean_to_median_ok(wins: &Vec<u64>, pig: &Pig, target: u64, min_ratio: u64, max_ratio: u64) -> (r: bool)
    requires
        pig.wf(wins@),
    ensures
        r == volatility_ok(target as int, median_spec(wins@, *pig), min_ratio as int, max_ratio as int),
{
    let median = median_win(wins, pig);
    if median == 0 {
        return true;
    }
    proof {
        assert(target * UNIT <= u64::MAX * UNIT) by (nonlinear_arith);
        assert(min_ratio * median <= u64::MAX * u64::MAX) by (nonlinear_arith);
        assert(max_ratio * median <= u64::MAX * u64::MAX) by (nonlinear_arith);
    }
    let lhs: u128 = (target as u128) * (UNIT as u128);
    let lo: u128 = (min_ratio as u128) * (median as u128);
    let hi: u128 = (max_ratio as u128) * (median as u128);
    !(lhs <= lo || lhs >= hi)
}

/// The jitter factors that the seed `seed` and the strength `strength` give the first `n`
/// payouts.
pub open spec fn jitter_factors(seed: u32, strength: u64, n: nat) -> Seq<int> {
    Seq::new(n, |i: int| jitter_factor(jitter_draws(seed, n)[i] as int, strength as int))
}

/// Evaluating a candidate is deterministic: the same payouts, density, modifiers, seed and
/// strength give the same weights, bit for bit.
pub proof fn lemma_density_replays(
    wins: Seq<u64>,
    density: Seq<u64>,
    regions: Seq<Region>,
    seed: u32,
    strength: u64,
    first: Seq<u64>,
    second: Seq<u64>,
)
    requires
        first == evaluated(wins, density, regions, seed, strength),
        second == evaluated(wins, density, regions, seed, strength),
    ensures
        first == second,
{
}

/// A bred child replays its parents' jitter: the factors of its first jitter source are
/// those of the above-target parent, those of its second the below-target parent's.
pub proof fn lemma_child_replays_jitter(pos_pig: Pig, neg_pig: Pig, child: Pig, n: nat)
    requires
        pos_pig.random_seeds@.len() > 0,
        neg_pig.random_seeds@.len() > 0,
        pos_pig.random_weights@.len() > 0,
        neg_pig.random_weights@.len() > 0,
        child.random_seeds@ == seq![pos_pig.random_seeds@[0], neg_pig.random_seeds@[0]],
        child.random_weights@ == seq![pos_pig.random_weights@[0], neg_pig.random_weights@[0]],
    ensures
        jitter_factors(child.random_seeds@[0], child.random_weights@[0], n)
            == jitter_factors(pos_pig.random_seeds@[0], pos_pig.random_weights@[0], n),
        jitter_factors(child.random_seeds@[1], child.random_weights@[1], n)
            == jitter_factors(neg_pig.random_seeds@[0], neg_pig.random_weights@[0], n),
{
}

} // verus!
