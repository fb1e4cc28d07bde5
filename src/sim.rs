use vstd::prelude::*;
use crate::units::{UNIT, sum_u64, dot_u64, lemma_dot_u64_bound, lemma_sum_u64_nonneg};
use crate::pig::MAX_PAYOUT;
use crate::chance::sample_indices;
use crate::config::FarmError;

verus! {

/// The payouts won on the first `t` spins of one drawn sequence.
pub open spec fn prefix_total(wins: Seq<u64>, draw: Seq<usize>, t: int) -> int
    decreases t,
{
    if t <= 0 || t > draw.len() {
        0
    } else {
        prefix_total(wins, draw, t - 1) + wins[draw[t - 1] as int]
    }
}

/// Whether `total` won over `spins` spins at `bet` returns at least `pmb_rtp` (micro-units).
pub open spec fn survives(total: int, spins: int, bet: int, pmb_rtp: int) -> bool {
    total * UNIT >= pmb_rtp * spins * bet
}

/// How many of the first `n` drawn sequences survive their first `t` spins.
pub open spec fn survivors(wins: Seq<u64>, draws: Seq<Seq<usize>>, t: int, bet: int, pmb_rtp: int, n: int) -> int
    decreases n,
{
    if n <= 0 || n > draws.len() {
        0
    } else {
        survivors(wins, draws, t, bet, pmb_rtp, n - 1) + if survives(prefix_total(wins, draws[n - 1], t), t, bet, pmb_rtp) {
            1int
        } else {
            0int
        }
    }
}

/// Survivor counts, one per spin threshold.
pub open spec fn survivor_counts(
    wins: Seq<u64>,
    draws: Seq<Seq<usize>>,
    test_spins: Seq<u32>,
    bet: int,
    pmb_rtp: int,
) -> Seq<u64> {
    Seq::new(
        test_spins.len(),
        |i: int| survivors(wins, draws, test_spins[i] as int, bet, pmb_rtp, draws.len() as int) as u64,
    )
}

/// The score of a set of drawn sequences: the survival rate at each threshold, weighted by
/// `test_spins_weights` (micro-units), rounded down.
pub open spec fn score_of(
    wins: Seq<u64>,
    draws: Seq<Seq<usize>>,
    test_spins: Seq<u32>,
    test_spins_weights: Seq<u64>,
    bet: int,
    pmb_rtp: int,
) -> int {
    dot_u64(
        survivor_counts(wins, draws, test_spins, bet, pmb_rtp),
        test_spins_weights,
        test_spins.len() as int,
    ) / (draws.len() as int)
}

/// Drawn sequences that index the payouts and are at least `spins` long.
pub open spec fn draws_fit(wins: Seq<u64>, draws: Seq<Seq<usize>>, spins: int) -> bool {
    &&& (forall|k: int, s: int| 0 <= k < draws.len() && 0 <= s < draws[k].len() ==> (#[trigger] draws[k][s]) < wins.len())
    &&& (forall|k: int| 0 <= k < draws.len() ==> (#[trigger] draws[k]).len() >= spins)
}

/// The largest threshold, zero for none.
pub open spec fn spins_max(test_spins: Seq<u32>) -> int
    decreases test_spins.len(),
{
    if test_spins.len() == 0 {
        0
    } else {
        let m = spins_max(test_spins.drop_last());
        if test_spins.last() > m {
            test_spins.last() as int
        } else {
            m
        }
    }
}

/// Every threshold is at most `m`.
pub open spec fn all_at_most(test_spins: Seq<u32>, m: int) -> bool {
    forall|i: int| 0 <= i < test_spins.len() ==> #[trigger] test_spins[i] <= m
}

proof fn lemma_prefix_bound(wins: Seq<u64>, draw: Seq<usize>, t: int)
    requires
        0 <= t <= draw.len(),
        forall|s: int| 0 <= s < draw.len() ==> (#[trigger] draw[s]) < wins.len(),
        forall|i: int| 0 <= i < wins.len() ==> #[trigger] wins[i] <= MAX_PAYOUT,
    ensures
        0 <= prefix_total(wins, draw, t) <= t * MAX_PAYOUT,
    decreases t,
{
    if t > 0 {
        lemma_prefix_bound(wins, draw, t - 1);
    }
}

proof fn lemma_survivors_bound(wins: Seq<u64>, draws: Seq<Seq<usize>>, t: int, bet: int, pmb_rtp: int, n: int)
    requires
        0 <= n <= draws.len(),
    ensures
        0 <= survivors(wins, draws, t, bet, pmb_rtp, n) <= n,
    decreases n,
{
    if n > 0 {
        lemma_survivors_bound(wins, draws, t, bet, pmb_rtp, n - 1);
    }
}

/// Counts the sequences that survive their first `t` spins (see `survivors`).
fn count_survivors(wins: &Vec<u64>, draws: &Vec<Vec<usize>>, t: u32, bet: u64, pmb_rtp: u64) -> (r: u64)
    requires
        draws_fit(wins@, draws@.map_values(|d: Vec<usize>| d@), t as int),
        forall|i: int| 0 <= i < wins@.len() ==> #[trigger] wins@[i] <= MAX_PAYOUT,
        bet <= MAX_PAYOUT,
        pmb_rtp <= MAX_PAYOUT,
        draws@.len() <= u32::MAX,
    ensures
        r as int == survivors(wins@, draws@.map_values(|d: Vec<usize>| d@), t as int, bet as int, pmb_rtp as int, draws@.len() as int),
{
    let ghost ds = draws@.map_values(|d: Vec<usize>| d@);
    proof {
        assert(pmb_rtp as int * t as int <= MAX_PAYOUT * u32::MAX) by (nonlinear_arith)
            requires
                pmb_rtp <= MAX_PAYOUT,
                t <= u32::MAX,
        ;
        assert(pmb_rtp as int * t as int * bet as int <= MAX_PAYOUT * u32::MAX * MAX_PAYOUT) by (nonlinear_arith)
            requires
                pmb_rtp <= MAX_PAYOUT,
                t <= u32::MAX,
                bet <= MAX_PAYOUT,
        ;
    }
    let need: u128 = (pmb_rtp as u128) * (t as u128) * (bet as u128);
    let mut count: u64 = 0;
    let mut k: usize = 0;
    while k < draws.len()
        invariant
            k <= draws@.len(),
            ds == draws@.map_values(|d: Vec<usize>| d@),
            draws_fit(wins@, ds, t as int),
            forall|i: int| 0 <= i < wins@.len() ==> #[trigger] wins@[i] <= MAX_PAYOUT,
            draws@.len() <= u32::MAX,
            need as int == pmb_rtp * t * bet,
            count as int == survivors(wins@, ds, t as int, bet as int, pmb_rtp as int, k as int),
            count <= k,
        decreases draws@.len() - k,
    {
        let d = &draws[k];
        assert(ds[k as int] == d@);
        let mut total: u128 = 0;
        let mut s: usize = 0;
        while s < t as usize
            invariant
                s <= t,
                d@.len() >= t,
                ds[k as int] == d@,
                forall|q: int| 0 <= q < d@.len() ==> (#[trigger] d@[q]) < wins@.len(),
                forall|i: int| 0 <= i < wins@.len() ==> #[trigger] wins@[i] <= MAX_PAYOUT,
                total as int == prefix_total(wins@, d@, s as int),
                total <= s * MAX_PAYOUT,
            decreases t - s,
        {
            assert(d@[s as int] < wins@.len());
            total = total + wins[d[s]] as u128;
            s = s + 1;
        }
        proof {
            assert(total * UNIT <= u32::MAX * MAX_PAYOUT * UNIT) by (nonlinear_arith)
                requires
                    total <= s * MAX_PAYOUT,
                    s <= u32::MAX,
            ;
        }
        if total * (UNIT as u128) >= need {
            count = count + 1;
        }
        k = k + 1;
    }
    count
}

/// The score of already drawn sequences (see `score_of`).
pub fn score_draws(
    wins: &Vec<u64>,
    draws: &Vec<Vec<usize>>,
    bet: u64,
    test_spins: &Vec<u32>,
    test_spins_weights: &Vec<u64>,
    pmb_rtp: u64,
) -> (r: u64)
    requires
        draws@.len() > 0,
        draws@.len() <= u32::MAX,
        test_spins_weights@.len() == test_spins@.len(),
        sum_u64(test_spins_weights@, test_spins_weights@.len() as int) <= u64::MAX,
        forall|i: int| 0 <= i < wins@.len() ==> #[trigger] wins@[i] <= MAX_PAYOUT,
        bet <= MAX_PAYOUT,
        pmb_rtp <= MAX_PAYOUT,
        forall|i: int| 0 <= i < test_spins@.len() ==> draws_fit(
            wins@,
            draws@.map_values(|d: Vec<usize>| d@),
            #[trigger] test_spins@[i] as int,
        ),
    ensures
        r as int == score_of(
            wins@,
            draws@.map_values(|d: Vec<usize>| d@),
            test_spins@,
            test_spins_weights@,
            bet as int,
            pmb_rtp as int,
        ),
{
    let ghost ds = draws@.map_values(|d: Vec<usize>| d@);
    let ghost n = test_spins@.len() as int;
    let mut counts: Vec<u64> = Vec::new();
    let mut i: usize = 0;
    while i < test_spins.len()
        invariant
            i <= n,
            n == test_spins@.len(),
            ds == draws@.map_values(|d: Vec<usize>| d@),
            draws@.len() <= u32::MAX,
            forall|q: int| 0 <= q < wins@.len() ==> #[trigger] wins@[q] <= MAX_PAYOUT,
            bet <= MAX_PAYOUT,
            pmb_rtp <= MAX_PAYOUT,
            forall|q: int| 0 <= q < n ==> draws_fit(wins@, ds, #[trigger] test_spins@[q] as int),
            counts@.len() == i,
            forall|q: int| 0 <= q < i ==> #[trigger] counts@[q] == survivor_counts(wins@, ds, test_spins@, bet as int, pmb_rtp as int)[q],
            forall|q: int| 0 <= q < i ==> #[trigger] counts@[q] <= draws@.len(),
        decreases n - i,
    {
        assert(draws_fit(wins@, ds, test_spins@[i as int] as int));
        let c = count_survivors(wins, draws, test_spins[i], bet, pmb_rtp);
        proof {
            lemma_survivors_bound(wins@, ds, test_spins@[i as int] as int, bet as int, pmb_rtp as int, ds.len() as int);
        }
        counts.push(c);
        i = i + 1;
    }
    assert(counts@ =~= survivor_counts(wins@, ds, test_spins@, bet as int, pmb_rtp as int));
    let ghost total_w = sum_u64(test_spins_weights@, n);
    proof {
        lemma_dot_u64_bound(counts@, test_spins_weights@, n, draws@.len() as int);
    }
    let mut acc: u128 = 0;
    let mut j: usize = 0;
    while j < counts.len()
        invariant
            j <= n,
            counts@.len() == n,
            test_spins_weights@.len() == n,
            total_w == sum_u64(test_spins_weights@, n),
            total_w <= u64::MAX,
            forall|q: int| 0 <= q < n ==> #[trigger] counts@[q] <= draws@.len(),
            draws@.len() <= u32::MAX,
            acc as int == dot_u64(counts@, test_spins_weights@, j as int),
        decreases n - j,
    {
        proof {
            lemma_dot_u64_bound(counts@, test_spins_weights@, j as int + 1, draws@.len() as int);
            crate::units::lemma_sum_u64_mono(test_spins_weights@, j as int + 1, n);
            assert(draws@.len() * sum_u64(test_spins_weights@, j as int + 1) <= u32::MAX * u64::MAX) by (nonlinear_arith)
                requires
                    draws@.len() <= u32::MAX,
                    0 <= sum_u64(test_spins_weights@, j as int + 1) <= u64::MAX,
            ;
            assert(counts@[j as int] * test_spins_weights@[j as int] <= u32::MAX * u64::MAX) by (nonlinear_arith)
                requires
                    counts@[j as int] <= u32::MAX,
            ;
        }
        acc = acc + (counts[j] as u128) * (test_spins_weights[j] as u128);
        j = j + 1;
    }
    let score: u128 = acc / (draws.len() as u128);
    proof {
        lemma_dot_u64_bound(counts@, test_spins_weights@, n, draws@.len() as int);
        lemma_sum_u64_nonneg(test_spins_weights@, n);
        let a = acc as int;
        let dl = draws@.len() as int;
        assert(a / dl <= total_w) by (nonlinear_arith)
            requires
                a <= dl * total_w,
                dl > 0,
                total_w >= 0,
                a >= 0,
        ;
        assert(a <= dl * total_w) by (nonlinear_arith)
            requires
                a <= dl * sum_u64(test_spins_weights@, n),
                total_w == sum_u64(test_spins_weights@, n),
        ;
    }
    proof {
        assert(acc / (draws@.len() as u128) <= total_w);
    }
    score as u64
}

proof fn lemma_survivors_monotone(
    wins: Seq<u64>,
    draws: Seq<Seq<usize>>,
    t: int,
    bet: int,
    pmb_low: int,
    pmb_high: int,
    n: int,
)
    requires
        pmb_low <= pmb_high,
        bet >= 0,
        t >= 0,
    ensures
        survivors(wins, draws, t, bet, pmb_high, n) <= survivors(wins, draws, t, bet, pmb_low, n),
    decreases n,
{
    if n > 0 && n <= draws.len() {
        lemma_survivors_monotone(wins, draws, t, bet, pmb_low, pmb_high, n - 1);
        let total = prefix_total(wins, draws[n - 1], t);
        assert(pmb_low * t * bet <= pmb_high * t * bet) by (nonlinear_arith)
            requires
                pmb_low <= pmb_high,
                t >= 0,
                bet >= 0,
        ;
    }
}

proof fn lemma_dot_monotone(a: Seq<u64>, b: Seq<u64>, w: Seq<u64>, n: int)
    requires
        0 <= n <= a.len(),
        n <= b.len(),
        n <= w.len(),
        forall|i: int| 0 <= i < n ==> #[trigger] a[i] <= b[i],
    ensures
        dot_u64(a, w, n) <= dot_u64(b, w, n),
    decreases n,
{
    if n > 0 {
        lemma_dot_monotone(a, b, w, n - 1);
        let x = a[n - 1] as int;
        let y = b[n - 1] as int;
        let z = w[n - 1] as int;
        assert(x * z <= y * z) by (nonlinear_arith)
            requires
                x <= y,
                z >= 0,
        ;
    }
}

/// For the same drawn sequences, raising the return threshold `pmb_rtp` never raises the
/// score: every sequence that meets the higher threshold meets the lower one.
pub proof fn lemma_score_monotone(
    wins: Seq<u64>,
    draws: Seq<Seq<usize>>,
    test_spins: Seq<u32>,
    test_spins_weights: Seq<u64>,
    bet: int,
    pmb_low: int,
    pmb_high: int,
)
    requires
        pmb_low <= pmb_high,
        bet >= 0,
        draws.len() > 0,
        draws.len() <= u64::MAX,
        test_spins_weights.len() == test_spins.len(),
    ensures
        score_of(wins, draws, test_spins, test_spins_weights, bet, pmb_high)
            <= score_of(wins, draws, test_spins, test_spins_weights, bet, pmb_low),
{
    let hi = survivor_counts(wins, draws, test_spins, bet, pmb_high);
    let lo = survivor_counts(wins, draws, test_spins, bet, pmb_low);
    assert forall|i: int| 0 <= i < test_spins.len() implies #[trigger] hi[i] <= lo[i] by {
        let t = test_spins[i] as int;
        lemma_survivors_monotone(wins, draws, t, bet, pmb_low, pmb_high, draws.len() as int);
        lemma_survivors_bound(wins, draws, t, bet, pmb_low, draws.len() as int);
        lemma_survivors_bound(wins, draws, t, bet, pmb_high, draws.len() as int);
    }
    lemma_dot_monotone(hi, lo, test_spins_weights, test_spins.len() as int);
    let a = dot_u64(hi, test_spins_weights, test_spins.len() as int);
    let b = dot_u64(lo, test_spins_weights, test_spins.len() as int);
    let d = draws.len() as int;
    assert(a / d <= b / d) by (nonlinear_arith)
        requires
            a <= b,
            d > 0,
    ;
}

/// The largest threshold, zero for none.
pub fn max_spins(test_spins: &Vec<u32>) -> (r: u32)
    ensures
        r as int == spins_max(test_spins@),
        all_at_most(test_spins@, r as int),
        test_spins@.len() == 0 ==> r == 0,
        test_spins@.len() > 0 ==> exists|i: int| 0 <= i < test_spins@.len() && test_spins@[i] == r,
{
    let mut m: u32 = 0;
    let mut i: usize = 0;
    while i < test_spins.len()
        invariant
            i <= test_spins@.len(),
            all_at_most(test_spins@.take(i as int), m as int),
            i == 0 ==> m == 0,
            i > 0 ==> exists|k: int| 0 <= k < i && test_spins@[k] == m,
            m as int == spins_max(test_spins@.take(i as int)),
        decreases test_spins@.len() - i,
    {
        assert(test_spins@.take(i as int + 1).drop_last() =~= test_spins@.take(i as int));
        if test_spins[i] > m {
            m = test_spins[i];
        }
        assert(forall|k: int| 0 <= k < i ==> test_spins@.take(i as int)[k] == test_spins@[k]);
        i = i + 1;
    }
    assert(test_spins@.take(i as int) =~= test_spins@);
    m
}

/// Scores a weight table: draws `trials` sequences of `max(test_spins)` spins from the
/// categorical distribution `weights` over `wins`, then scores them (see `score_of`).
/// Fails exactly when the weights have no mass.
pub fn run_simulation(
    wins: &Vec<u64>,
    weights: &Vec<u64>,
    trials: u32,
    bet: u64,
    test_spins: &Vec<u32>,
    test_spins_weights: &Vec<u64>,
    pmb_rtp: u64,
) -> (r: Result<u64, FarmError>)
    requires
        wins@.len() == weights@.len(),
        sum_u64(weights@, weights@.len() as int) <= u64::MAX,
        trials > 0,
        test_spins_weights@.len() == test_spins@.len(),
        sum_u64(test_spins_weights@, test_spins_weights@.len() as int) <= u64::MAX,
        forall|i: int| 0 <= i < wins@.len() ==> #[trigger] wins@[i] <= MAX_PAYOUT,
        bet <= MAX_PAYOUT,
        pmb_rtp <= MAX_PAYOUT,
    ensures
        r == Err::<u64, FarmError>(FarmError::InvalidWeights) <==> sum_u64(weights@, weights@.len() as int) == 0,
        r.is_err() ==> r == Err::<u64, FarmError>(FarmError::InvalidWeights),
        r.is_ok() ==> exists|draws: Seq<Seq<usize>>| {
            &&& draws.len() == trials
            &&& (forall|k: int| 0 <= k < draws.len() ==> (#[trigger] draws[k]).len() == spins_max(test_spins@))
            &&& (forall|k: int, s: int| 0 <= k < draws.len() && 0 <= s < draws[k].len() ==> (#[trigger] draws[k][s]) < wins@.len()
                && weights@[draws[k][s] as int] > 0)
            &&& r.unwrap() as int == score_of(wins@, draws, test_spins@, test_spins_weights@, bet as int, pmb_rtp as int)
        },
{
    let spins = max_spins(test_spins);
    let mut draws: Vec<Vec<usize>> = Vec::new();
    let mut k: u32 = 0;
    while k < trials
        invariant
            k <= trials,
            draws@.len() == k,
            wins@.len() == weights@.len(),
            sum_u64(weights@, weights@.len() as int) <= u64::MAX,
            sum_u64(weights@, weights@.len() as int) > 0 || k == 0,
            forall|q: int, s: int| 0 <= q < k && 0 <= s < draws@[q]@.len() ==> (#[trigger] draws@[q]@[s]) < wins@.len()
                && weights@[draws@[q]@[s] as int] > 0,
            forall|q: int| 0 <= q < k ==> (#[trigger] draws@[q]@).len() == spins,
        decreases trials - k,
    {
        proof {
            lemma_sum_u64_nonneg(weights@, weights@.len() as int);
        }
        match sample_indices(weights, spins as usize) {
            None => {
                return Err(FarmError::InvalidWeights);
            },
            Some(d) => {
                draws.push(d);
            },
        }
        k = k + 1;
    }
    let ghost ds = draws@.map_values(|d: Vec<usize>| d@);
    assert forall|i: int| 0 <= i < test_spins@.len() implies draws_fit(wins@, ds, #[trigger] test_spins@[i] as int) by {
        assert forall|q: int, s: int| 0 <= q < ds.len() && 0 <= s < ds[q].len() implies (#[trigger] ds[q][s]) < wins@.len() by {
            assert(ds[q] == draws@[q]@);
        }
        assert forall|q: int| 0 <= q < ds.len() implies (#[trigger] ds[q]).len() >= test_spins@[i] as int by {
            assert(ds[q] == draws@[q]@);
        }
    }
    let score = score_draws(wins, &draws, bet, test_spins, test_spins_weights, pmb_rtp);
    proof {
        assert forall|q: int| 0 <= q < ds.len() implies (#[trigger] ds[q]).len() == spins_max(test_spins@) by {
            assert(ds[q] == draws@[q]@);
        }
        assert forall|q: int, s: int| 0 <= q < ds.len() && 0 <= s < ds[q].len() implies (#[trigger] ds[q][s]) < wins@.len()
            && weights@[ds[q][s] as int] > 0 by {
            assert(ds[q] == draws@[q]@);
        }
    }
    Ok(score)
}

/// Whether `count` of `trials` sequences of `spins` spins drawn from `weights` survive,
/// each spin a payout of positive weight.
pub open spec fn curve_point(
    wins: Seq<u64>,
    weights: Seq<u64>,
    count: u64,
    spins: int,
    trials: u32,
    bet: u64,
    pmb_rtp: u64,
) -> bool {
    exists|draws: Seq<Seq<usize>>| {
        &&& draws.len() == trials
        &&& (forall|k: int| 0 <= k < draws.len() ==> (#[trigger] draws[k]).len() == spins)
        &&& (forall|k: int, s: int| 0 <= k < draws.len() && 0 <= s < draws[k].len() ==> (#[trigger] draws[k][s]) < wins.len()
            && weights[draws[k][s] as int] > 0)
        &&& count as int == survivors(wins, draws, spins, bet as int, pmb_rtp as int, trials as int)
    }
}

/// The survival rate at every spin count from 1 to `max(test_spins)`, each from `trials`
/// fresh sequences: for each count, how many sequences survive (see `survives`).
/// Fails exactly when there is something to draw and the weights have no mass.
pub fn run_enhanced_simulation(
    wins: &Vec<u64>,
    weights: &Vec<u64>,
    trials: u32,
    bet: u64,
    test_spins: &Vec<u32>,
    pmb_rtp: u64,
) -> (r: Result<Vec<u64>, FarmError>)
    requires
        wins@.len() == weights@.len(),
        sum_u64(weights@, weights@.len() as int) <= u64::MAX,
        trials > 0,
        forall|i: int| 0 <= i < wins@.len() ==> #[trigger] wins@[i] <= MAX_PAYOUT,
        bet <= MAX_PAYOUT,
        pmb_rtp <= MAX_PAYOUT,
    ensures
        r.is_err() ==> r == Err::<Vec<u64>, FarmError>(FarmError::InvalidWeights)
            && sum_u64(weights@, weights@.len() as int) == 0,
        r.is_ok() ==> {
            let v = r.unwrap();
            &&& all_at_most(test_spins@, v@.len() as int)
            &&& (test_spins@.len() > 0 ==> exists|i: int| 0 <= i < test_spins@.len() && test_spins@[i] == v@.len())
            &&& (forall|i: int| 0 <= i < v@.len() ==> #[trigger] v@[i] <= trials)
            &&& (forall|i: int| 0 <= i < v@.len() ==> curve_point(wins@, weights@, #[trigger] v@[i], i + 1, trials, bet, pmb_rtp))
        },
{
    let spins = max_spins(test_spins);
    let mut out: Vec<u64> = Vec::new();
    let mut n: u64 = 1;
    while n <= spins as u64
        invariant
            1 <= n,
            n <= spins + 1,
            out@.len() == n - 1,
            wins@.len() == weights@.len(),
            sum_u64(weights@, weights@.len() as int) <= u64::MAX,
            forall|i: int| 0 <= i < wins@.len() ==> #[trigger] wins@[i] <= MAX_PAYOUT,
            bet <= MAX_PAYOUT,
            pmb_rtp <= MAX_PAYOUT,
            forall|i: int| 0 <= i < out@.len() ==> #[trigger] out@[i] <= trials,
            forall|i: int| 0 <= i < out@.len() ==> curve_point(wins@, weights@, #[trigger] out@[i], i + 1, trials, bet, pmb_rtp),
        decreases spins + 1 - n,
    {
        let nn: u32 = n as u32;
        let mut draws: Vec<Vec<usize>> = Vec::new();
        let mut k: u32 = 0;
        while k < trials
            invariant
                k <= trials,
                draws@.len() == k,
                nn == n,
                wins@.len() == weights@.len(),
                sum_u64(weights@, weights@.len() as int) <= u64::MAX,
                forall|q: int, s: int| 0 <= q < k && 0 <= s < draws@[q]@.len() ==> (#[trigger] draws@[q]@[s]) < wins@.len()
                    && weights@[draws@[q]@[s] as int] > 0,
                forall|q: int| 0 <= q < k ==> (#[trigger] draws@[q]@).len() == n,
            decreases trials - k,
        {
            proof {
                lemma_sum_u64_nonneg(weights@, weights@.len() as int);
            }
            match sample_indices(weights, nn as usize) {
                None => {
                        return Err(FarmError::InvalidWeights);
                },
                Some(d) => {
                    draws.push(d);
                },
            }
            k = k + 1;
        }
        let ghost ds = draws@.map_values(|d: Vec<usize>| d@);
        assert forall|q: int, s: int| 0 <= q < ds.len() && 0 <= s < ds[q].len() implies (#[trigger] ds[q][s]) < wins@.len() by {
            assert(ds[q] == draws@[q]@);
        }
        assert forall|q: int| 0 <= q < ds.len() implies (#[trigger] ds[q]).len() >= n as int by {
            assert(ds[q] == draws@[q]@);
        }
        let c = count_survivors(wins, &draws, nn, bet, pmb_rtp);
        proof {
            lemma_survivors_bound(wins@, ds, n as int, bet as int, pmb_rtp as int, ds.len() as int);
        }
        out.push(c);
        n = n + 1;
    }
    Ok(out)
}

} // verus!
