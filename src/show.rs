use vstd::prelude::*;
use vstd::seq_lib::{to_multiset_build, to_multiset_insert, to_multiset_len};
use vstd::multiset::{Multiset, lemma_multiset_empty_len};
use vstd::arithmetic::div_mod::{lemma_fundamental_div_mod, lemma_mod_bound};
use crate::units::{MASS_ONE, sum_u64};
use crate::pig::{Pig, MAX_PAYOUT, lemma_sum_prefix_ext};
use crate::fence::{Fence, WinGroup, masses};
use crate::config::FarmError;
use crate::chance::random_below;
use crate::sim::{run_simulation, score_of, spins_max};

verus! {

/// One full solution: a candidate index per bucket, and its score.
#[derive(Clone, Debug)]
pub struct ShowPig {
    pub pig_indexes: Vec<usize>,
    pub success_score: u64,
}

/// Whether a bucket can contribute to a weight table with the candidates `pen`: a
/// single-value bucket pins one payout; a distribution bucket has candidates whose weights
/// match its payout groups and have mass.
pub open spec fn fence_ready(f: Fence, pen: Seq<Pig>) -> bool {
    &&& f.mass <= MASS_ONE
    &&& if f.win_type {
        f.wins@.len() == 1 && f.wins@[0] <= MAX_PAYOUT
    } else {
        &&& pen.len() > 0
        &&& (forall|g: int| 0 <= g < f.win_dist@.len() ==> (#[trigger] f.win_dist@[g]).win <= MAX_PAYOUT)
        &&& (forall|k: int| 0 <= k < pen.len() ==> {
            let p = #[trigger] pen[k];
            &&& p.weights@.len() == f.win_dist@.len()
            &&& p.sum_dist > 0
            &&& p.sum_dist as int == sum_u64(p.weights@, p.weights@.len() as int)
        })
    }
}

/// The payouts of a bucket's groups.
pub open spec fn group_wins(groups: Seq<WinGroup>) -> Seq<u64> {
    Seq::new(groups.len(), |g: int| groups[g].win)
}

/// The share of a bucket's mass at one of its payouts: `mass * w / sum`, rounded down.
pub open spec fn share(mass: int, w: int, sum: int) -> int {
    mass * w / sum
}

/// The weight table entries of one bucket: a single-value bucket puts its whole mass on its
/// payout; a distribution bucket spreads its mass over its payouts in proportion to the
/// chosen candidate's weights.
pub open spec fn fence_wins(f: Fence) -> Seq<u64> {
    if f.win_type {
        f.wins@
    } else {
        group_wins(f.win_dist@)
    }
}

pub open spec fn fence_weights(f: Fence, p: Pig) -> Seq<u64> {
    if f.win_type {
        seq![f.mass]
    } else {
        Seq::new(p.weights@.len(), |i: int| share(f.mass as int, p.weights@[i] as int, p.sum_dist as int) as u64)
    }
}

/// The chosen candidate of bucket `b` (any candidate for a single-value bucket).
pub open spec fn chosen(pens: Seq<Seq<Pig>>, idx: Seq<usize>, b: int) -> Pig {
    pens[b][idx[b] as int]
}

/// Payouts of the weight table of the first `n` buckets, bucket by bucket.
pub open spec fn table_wins(fences: Seq<Fence>, n: int) -> Seq<u64>
    decreases n,
{
    if n <= 0 {
        seq![]
    } else {
        table_wins(fences, n - 1) + fence_wins(fences[n - 1])
    }
}

/// Weights of the weight table of the first `n` buckets, bucket by bucket.
pub open spec fn table_weights(fences: Seq<Fence>, pens: Seq<Seq<Pig>>, idx: Seq<usize>, n: int) -> Seq<u64>
    decreases n,
{
    if n <= 0 {
        seq![]
    } else {
        table_weights(fences, pens, idx, n - 1) + fence_weights(fences[n - 1], chosen(pens, idx, n - 1))
    }
}

/// Buckets, their candidates and a choice of one candidate per bucket that a weight table
/// can be built from.
pub open spec fn tables_ready(fences: Seq<Fence>, pens: Seq<Seq<Pig>>, idx: Seq<usize>) -> bool {
    &&& pens.len() == fences.len()
    &&& idx.len() == fences.len()
    &&& (forall|b: int| 0 <= b < fences.len() ==> fence_ready(#[trigger] fences[b], pens[b]))
    &&& (forall|b: int| 0 <= b < fences.len() && !fences[b].win_type ==> (#[trigger] idx[b]) < pens[b].len())
}

fn push_fence(fence: &Fence, pig: &Pig, wins: &mut Vec<u64>, weights: &mut Vec<u64>)
    requires
        fence.mass <= MASS_ONE,
        fence.win_type ==> fence.wins@.len() == 1,
        !fence.win_type ==> pig.weights@.len() == fence.win_dist@.len() && pig.sum_dist > 0
            && pig.sum_dist as int == sum_u64(pig.weights@, pig.weights@.len() as int),
    ensures
        final(wins)@ == old(wins)@ + fence_wins(*fence),
        final(weights)@ == old(weights)@ + fence_weights(*fence, *pig),
{
    if fence.win_type {
        wins.push(fence.wins[0]);
        weights.push(fence.mass);
        assert(fence.wins@ =~= seq![fence.wins@[0]]);
        return;
    }
    let ghost w0 = wins@;
    let ghost g0 = weights@;
    let n = fence.win_dist.len();
    let mut i: usize = 0;
    while i < n
        invariant
            i <= n,
            n == fence.win_dist@.len(),
            !fence.win_type,
            fence.mass <= MASS_ONE,
            pig.weights@.len() == n,
            pig.sum_dist > 0,
            pig.sum_dist as int == sum_u64(pig.weights@, n as int),
            wins@ == w0 + group_wins(fence.win_dist@).take(i as int),
            weights@ == g0 + fence_weights(*fence, *pig).take(i as int),
        decreases n - i,
    {
        let w = pig.weights[i];
        proof {
            crate::pig::lemma_entry_le_sum_u64(pig.weights@, i as int);
            assert(fence.mass as int * w as int <= fence.mass as int * pig.sum_dist as int) by (nonlinear_arith)
                requires
                    w <= pig.sum_dist,
            ;
            assert(fence.mass as int * pig.sum_dist as int <= MASS_ONE as int * u64::MAX as int) by (nonlinear_arith)
                requires
                    fence.mass <= MASS_ONE,
            ;
            assert((fence.mass as int * w as int) / (pig.sum_dist as int) <= fence.mass) by (nonlinear_arith)
                requires
                    fence.mass as int * w as int <= fence.mass as int * pig.sum_dist as int,
                    pig.sum_dist > 0,
            ;
        }
        let v = (fence.mass as u128) * (w as u128) / (pig.sum_dist as u128);
        wins.push(fence.win_dist[i].win);
        weights.push(v as u64);
        proof {
            assert(group_wins(fence.win_dist@).take(i as int + 1) =~= group_wins(fence.win_dist@).take(i as int).push(fence.win_dist@[i as int].win));
            assert(fence_weights(*fence, *pig).take(i as int + 1) =~= fence_weights(*fence, *pig).take(i as int).push(v as u64));
        }
        i = i + 1;
    }
    assert(group_wins(fence.win_dist@).take(i as int) =~= group_wins(fence.win_dist@));
    assert(fence_weights(*fence, *pig).take(i as int) =~= fence_weights(*fence, *pig));
}

/// Builds the weight table of a full solution: bucket by bucket, a single-value bucket's
/// mass at its payout, a distribution bucket's mass spread by its chosen candidate.
pub fn assemble_table(fences: &Vec<Fence>, pig_pens: &Vec<Vec<Pig>>, pig_indexes: &Vec<usize>) -> (r: (Vec<u64>, Vec<u64>))
    requires
        tables_ready(fences@, pig_pens@.map_values(|p: Vec<Pig>| p@), pig_indexes@),
    ensures
        r.0@ == table_wins(fences@, fences@.len() as int),
        r.1@ == table_weights(fences@, pig_pens@.map_values(|p: Vec<Pig>| p@), pig_indexes@, fences@.len() as int),
{
    let ghost pens = pig_pens@.map_values(|p: Vec<Pig>| p@);
    let mut wins: Vec<u64> = Vec::new();
    let mut weights: Vec<u64> = Vec::new();
    let mut b: usize = 0;
    while b < fences.len()
        invariant
            b <= fences@.len(),
            pens == pig_pens@.map_values(|p: Vec<Pig>| p@),
            tables_ready(fences@, pens, pig_indexes@),
            wins@ == table_wins(fences@, b as int),
            weights@ == table_weights(fences@, pens, pig_indexes@, b as int),
        decreases fences@.len() - b,
    {
        let fence = &fences[b];
        assert(fence_ready(fences@[b as int], pens[b as int]));
        assert(pens[b as int] == pig_pens@[b as int]@);
        if fence.win_type {
            if pig_pens[b].len() > 0 {
                push_fence(fence, &pig_pens[b][0], &mut wins, &mut weights);
                assert(fence_weights(*fence, pig_pens@[b as int]@[0]) == fence_weights(*fence, chosen(pens, pig_indexes@, b as int)));
            } else {
                wins.push(fence.wins[0]);
                weights.push(fence.mass);
                assert(fence.wins@ =~= seq![fence.wins@[0]]);
            }
        } else {
            let k = pig_indexes[b];
            assert(k < pens[b as int].len());
            let pig = &pig_pens[b][k];
            assert(*pig == chosen(pens, pig_indexes@, b as int));
            proof {
                let p = pens[b as int][k as int];
                assert(p.weights@.len() == fence.win_dist@.len());
            }
            push_fence(fence, pig, &mut wins, &mut weights);
        }
        b = b + 1;
    }
    (wins, weights)
}

proof fn lemma_sum_concat(a: Seq<u64>, b: Seq<u64>, n: int)
    requires
        0 <= n <= b.len(),
    ensures
        sum_u64(a + b, a.len() + n) == sum_u64(a, a.len() as int) + sum_u64(b, n),
    decreases n,
{
    if n > 0 {
        lemma_sum_concat(a, b, n - 1);
        assert((a + b)[a.len() + n - 1] == b[n - 1]);
    } else {
        lemma_sum_prefix_ext(a + b, a, a.len() as int);
    }
}

proof fn lemma_shares_bound(mass: int, p: Pig, n: int)
    requires
        0 <= n <= p.weights@.len(),
        p.sum_dist > 0,
        p.sum_dist as int == sum_u64(p.weights@, p.weights@.len() as int),
        0 <= mass <= MASS_ONE,
    ensures
        ({
            let q = Seq::new(p.weights@.len(), |i: int| share(mass, p.weights@[i] as int, p.sum_dist as int) as u64);
            let s = p.sum_dist as int;
            &&& sum_u64(q, n) * s <= mass * sum_u64(p.weights@, n)
            &&& (sum_u64(q, n) + n) * s >= mass * sum_u64(p.weights@, n)
        }),
    decreases n,
{
    let q = Seq::new(p.weights@.len(), |i: int| share(mass, p.weights@[i] as int, p.sum_dist as int) as u64);
    let s = p.sum_dist as int;
    if n > 0 {
        lemma_shares_bound(mass, p, n - 1);
        let w = p.weights@[n - 1] as int;
        let m = mass * w;
        assert(m >= 0) by (nonlinear_arith)
            requires
                mass >= 0,
                w >= 0,
                m == mass * w,
        ;
        crate::pig::lemma_entry_le_sum_u64(p.weights@, n - 1);
        lemma_fundamental_div_mod(m, s);
        lemma_mod_bound(m, s);
        let d = m / s;
        assert(d >= 0) by (nonlinear_arith)
            requires
                m >= 0,
                s > 0,
                m == s * d + m % s,
                m % s < s,
        ;
        assert(d <= mass) by (nonlinear_arith)
            requires
                m == s * d + m % s,
                0 <= m % s,
                m == mass * w,
                w <= s,
                s > 0,
                mass >= 0,
        ;
        assert(q[n - 1] as int == d);
        let sq = sum_u64(q, n - 1);
        let sw = sum_u64(p.weights@, n - 1);
        assert((sq + d) * s <= mass * (sw + w)) by (nonlinear_arith)
            requires
                sq * s <= mass * sw,
                d * s <= m,
                m == mass * w,
                s * d == d * s,
        ;
        assert((sq + d + n) * s >= mass * (sw + w)) by (nonlinear_arith)
            requires
                (sq + n - 1) * s >= mass * sw,
                m < s * d + s,
                m == mass * w,
        ;
    }
}

proof fn lemma_fence_mass(f: Fence, p: Pig, pen: Seq<Pig>)
    requires
        fence_ready(f, pen),
        !f.win_type ==> pen.contains(p),
    ensures
        sum_u64(fence_weights(f, p), fence_weights(f, p).len() as int) <= f.mass,
        sum_u64(fence_weights(f, p), fence_weights(f, p).len() as int) + fence_weights(f, p).len() >= f.mass,
{
    let fw = fence_weights(f, p);
    if f.win_type {
        assert(sum_u64(fw, 1) == sum_u64(fw, 0) + fw[0]);
    } else {
        let k = choose|k: int| 0 <= k < pen.len() && pen[k] == p;
        assert(fence_ready(f, pen));
        let pk = pen[k];
        assert(pk.weights@.len() == f.win_dist@.len());
        let n = p.weights@.len() as int;
        lemma_shares_bound(f.mass as int, p, n);
        let sq = sum_u64(fw, n);
        let s = p.sum_dist as int;
        let m = f.mass as int;
        assert(sq <= m) by (nonlinear_arith)
            requires
                sq * s <= m * s,
                s > 0,
        ;
        assert(sq + n >= m) by (nonlinear_arith)
            requires
                (sq + n) * s >= m * s,
                s > 0,
        ;
    }
}

/// A weight table holds at most the masses of its buckets and loses less than one unit per
/// entry to rounding. With the masses adding up to `MASS_ONE`, its weights form a
/// categorical distribution whose total is one up to that rounding.
pub proof fn lemma_table_mass(fences: Seq<Fence>, pens: Seq<Seq<Pig>>, idx: Seq<usize>, n: int)
    requires
        tables_ready(fences, pens, idx),
        0 <= n <= fences.len(),
    ensures
        ({
            let t = table_weights(fences, pens, idx, n);
            &&& sum_u64(t, t.len() as int) <= masses(fences, n)
            &&& sum_u64(t, t.len() as int) + t.len() >= masses(fences, n)
        }),
    decreases n,
{
    if n > 0 {
        lemma_table_mass(fences, pens, idx, n - 1);
        let prev = table_weights(fences, pens, idx, n - 1);
        let f = fences[n - 1];
        let p = chosen(pens, idx, n - 1);
        let fw = fence_weights(f, p);
        assert(fence_ready(fences[n - 1], pens[n - 1]));
        if !f.win_type {
            assert(idx[n - 1] < pens[n - 1].len());
            assert(pens[n - 1][idx[n - 1] as int] == p);
        }
        lemma_fence_mass(f, p, pens[n - 1]);
        lemma_sum_concat(prev, fw, fw.len() as int);
    }
}

/// Buckets with candidates for every distribution bucket, whose masses fit in one table.
pub open spec fn pens_ready(fences: Seq<Fence>, pens: Seq<Seq<Pig>>) -> bool {
    &&& pens.len() == fences.len()
    &&& (forall|b: int| 0 <= b < fences.len() ==> fence_ready(#[trigger] fences[b], pens[b]))
    &&& masses(fences, fences.len() as int) <= MASS_ONE
}

proof fn lemma_table_shape(fences: Seq<Fence>, pens: Seq<Seq<Pig>>, idx: Seq<usize>, n: int)
    requires
        tables_ready(fences, pens, idx),
        0 <= n <= fences.len(),
    ensures
        table_wins(fences, n).len() == table_weights(fences, pens, idx, n).len(),
        forall|i: int| 0 <= i < table_wins(fences, n).len() ==> #[trigger] table_wins(fences, n)[i] <= MAX_PAYOUT,
    decreases n,
{
    if n > 0 {
        lemma_table_shape(fences, pens, idx, n - 1);
        let f = fences[n - 1];
        assert(fence_ready(fences[n - 1], pens[n - 1]));
        let prev = table_wins(fences, n - 1);
        let fw = fence_wins(f);
        if !f.win_type {
            assert(idx[n - 1] < pens[n - 1].len());
            let p = pens[n - 1][idx[n - 1] as int];
            assert(p.weights@.len() == f.win_dist@.len());
        }
        assert forall|i: int| 0 <= i < table_wins(fences, n).len() implies #[trigger] table_wins(fences, n)[i] <= MAX_PAYOUT by {
            if i >= prev.len() {
                assert(table_wins(fences, n)[i] == fw[i - prev.len()]);
            } else {
                assert(table_wins(fences, n)[i] == prev[i]);
            }
        }
    }
}

/// Whether `score` is the score (`score_of`) of `trials` sequences of `max(test_spins)`
/// spins drawn from the weight table of the solution `idx`, each spin a payout of positive weight.
pub open spec fn scored_by(
    fences: Seq<Fence>,
    pens: Seq<Seq<Pig>>,
    idx: Seq<usize>,
    score: u64,
    trials: u32,
    test_spins: Seq<u32>,
    test_spins_weights: Seq<u64>,
    bet: u64,
    pmb_rtp: u64,
) -> bool {
    let wins = table_wins(fences, fences.len() as int);
    let weights = table_weights(fences, pens, idx, fences.len() as int);
    exists|draws: Seq<Seq<usize>>| {
        &&& draws.len() == trials
        &&& (forall|k: int| 0 <= k < draws.len() ==> (#[trigger] draws[k]).len() == spins_max(test_spins))
        &&& (forall|k: int, s: int| 0 <= k < draws.len() && 0 <= s < draws[k].len() ==> (#[trigger] draws[k][s]) < wins.len()
            && weights[draws[k][s] as int] > 0)
        &&& score as int == score_of(wins, draws, test_spins, test_spins_weights, bet as int, pmb_rtp as int)
    }
}

/// Draws one candidate index per distribution bucket (zero for a single-value bucket).
pub fn choose_indexes(fences: &Vec<Fence>, pig_pens: &Vec<Vec<Pig>>) -> (r: Vec<usize>)
    requires
        pens_ready(fences@, pig_pens@.map_values(|p: Vec<Pig>| p@)),
    ensures
        tables_ready(fences@, pig_pens@.map_values(|p: Vec<Pig>| p@), r@),
{
    let ghost pens = pig_pens@.map_values(|p: Vec<Pig>| p@);
    let mut out: Vec<usize> = Vec::new();
    let mut b: usize = 0;
    while b < fences.len()
        invariant
            b <= fences@.len(),
            pens == pig_pens@.map_values(|p: Vec<Pig>| p@),
            pens_ready(fences@, pens),
            out@.len() == b,
            forall|q: int| 0 <= q < b && !fences@[q].win_type ==> (#[trigger] out@[q]) < pens[q].len(),
        decreases fences@.len() - b,
    {
        assert(fence_ready(fences@[b as int], pens[b as int]));
        assert(pens[b as int] == pig_pens@[b as int]@);
        if fences[b].win_type {
            out.push(0);
        } else {
            out.push(random_below(pig_pens[b].len()));
        }
        b = b + 1;
    }
    out
}

/// The score of the last solution of `v`, zero for none.
pub open spec fn best_so_far(v: Seq<ShowPig>) -> u64 {
    if v.len() == 0 {
        0
    } else {
        v.last().success_score
    }
}

/// The solutions of `drawn` that the search keeps, in order: those whose score is positive
/// and at least the score of the last one kept before.
pub open spec fn greedy_kept(drawn: Seq<ShowPig>) -> Seq<ShowPig>
    decreases drawn.len(),
{
    if drawn.len() == 0 {
        seq![]
    } else {
        let prev = greedy_kept(drawn.drop_last());
        let c = drawn.last();
        if c.success_score != 0 && c.success_score >= best_so_far(prev) {
            prev.push(c)
        } else {
            prev
        }
    }
}

/// Whether every weight table the buckets and candidates allow has mass.
pub open spec fn all_tables_have_mass(fences: Seq<Fence>, pens: Seq<Seq<Pig>>) -> bool {
    forall|idx: Seq<usize>| #[trigger] tables_ready(fences, pens, idx) ==> {
        let t = table_weights(fences, pens, idx, fences.len() as int);
        sum_u64(t, t.len() as int) > 0
    }
}

/// Whether `drawn` are solutions drawn by the search: each a valid choice of candidates
/// with the score of its weight table.
pub open spec fn drawn_solutions(
    fences: Seq<Fence>,
    pens: Seq<Seq<Pig>>,
    drawn: Seq<ShowPig>,
    trials: u32,
    test_spins: Seq<u32>,
    test_spins_weights: Seq<u64>,
    bet: u64,
    pmb_rtp: u64,
) -> bool {
    forall|k: int| 0 <= k < drawn.len() ==> {
        let c = #[trigger] drawn[k];
        &&& tables_ready(fences, pens, c.pig_indexes@)
        &&& scored_by(fences, pens, c.pig_indexes@, c.success_score, trials, test_spins, test_spins_weights, bet, pmb_rtp)
    }
}

/// Searches full solutions: `num_pigs` times, draws a candidate per bucket, scores the
/// weight table (`run_simulation`) and keeps the solution when its score is positive and
/// at least the best kept so far.
pub fn create_show_pigs(
    fences: &Vec<Fence>,
    pig_pens: &Vec<Vec<Pig>>,
    num_pigs: u32,
    test_spins: &Vec<u32>,
    test_spins_weights: &Vec<u64>,
    trials: u32,
    bet_amount: u64,
    pmb_rtp: u64,
) -> (r: Result<Vec<ShowPig>, FarmError>)
    requires
        pens_ready(fences@, pig_pens@.map_values(|p: Vec<Pig>| p@)),
        trials > 0,
        test_spins_weights@.len() == test_spins@.len(),
        sum_u64(test_spins_weights@, test_spins_weights@.len() as int) <= u64::MAX,
        bet_amount <= MAX_PAYOUT,
        pmb_rtp <= MAX_PAYOUT,
    ensures
        r.is_err() ==> r == Err::<Vec<ShowPig>, FarmError>(FarmError::InvalidWeights),
        all_tables_have_mass(fences@, pig_pens@.map_values(|p: Vec<Pig>| p@)) ==> r.is_ok(),
        r.is_ok() ==> exists|drawn: Seq<ShowPig>|
            drawn.len() == num_pigs && drawn_solutions(
                fences@,
                pig_pens@.map_values(|p: Vec<Pig>| p@),
                drawn,
                trials,
                test_spins@,
                test_spins_weights@,
                bet_amount,
                pmb_rtp,
            ) && r.unwrap()@ == #[trigger] greedy_kept(drawn),
        r.is_ok() ==> {
            let v = r.unwrap();
            &&& v@.len() <= num_pigs
            &&& (forall|k: int| 0 <= k < v@.len() ==> (#[trigger] v@[k]).success_score > 0)
            &&& (forall|k: int| 0 <= k < v@.len() ==> tables_ready(
                fences@,
                pig_pens@.map_values(|p: Vec<Pig>| p@),
                (#[trigger] v@[k]).pig_indexes@,
            ))
            &&& (forall|a: int, b: int| 0 <= a < b < v@.len() ==> (#[trigger] v@[a]).success_score <= (#[trigger] v@[b]).success_score)
            &&& (forall|k: int| 0 <= k < v@.len() ==> scored_by(
                fences@,
                pig_pens@.map_values(|p: Vec<Pig>| p@),
                (#[trigger] v@[k]).pig_indexes@,
                v@[k].success_score,
                trials,
                test_spins@,
                test_spins_weights@,
                bet_amount,
                pmb_rtp,
            ))
        },
{
    let ghost pens = pig_pens@.map_values(|p: Vec<Pig>| p@);
    let mut best: u64 = 0;
    let mut out: Vec<ShowPig> = Vec::new();
    let ghost mut drawn: Seq<ShowPig> = seq![];
    let mut p: u32 = 0;
    while p < num_pigs
        invariant
            p <= num_pigs,
            out@.len() <= p,
            pens == pig_pens@.map_values(|p: Vec<Pig>| p@),
            pens_ready(fences@, pens),
            trials > 0,
            test_spins_weights@.len() == test_spins@.len(),
            sum_u64(test_spins_weights@, test_spins_weights@.len() as int) <= u64::MAX,
            bet_amount <= MAX_PAYOUT,
            pmb_rtp <= MAX_PAYOUT,
            forall|k: int| 0 <= k < out@.len() ==> (#[trigger] out@[k]).success_score > 0,
            forall|k: int| 0 <= k < out@.len() ==> tables_ready(fences@, pens, (#[trigger] out@[k]).pig_indexes@),
            forall|a: int, b: int| 0 <= a < b < out@.len() ==> (#[trigger] out@[a]).success_score <= (#[trigger] out@[b]).success_score,
            forall|k: int| 0 <= k < out@.len() ==> (#[trigger] out@[k]).success_score <= best,
            drawn.len() == p,
            drawn_solutions(fences@, pens, drawn, trials, test_spins@, test_spins_weights@, bet_amount, pmb_rtp),
            out@ == greedy_kept(drawn),
            best == best_so_far(out@),
            forall|k: int| 0 <= k < out@.len() ==> scored_by(
                fences@,
                pens,
                (#[trigger] out@[k]).pig_indexes@,
                out@[k].success_score,
                trials,
                test_spins@,
                test_spins_weights@,
                bet_amount,
                pmb_rtp,
            ),
        decreases num_pigs - p,
    {
        let idx = choose_indexes(fences, pig_pens);
        let (wins, weights) = assemble_table(fences, pig_pens, &idx);
        proof {
            lemma_table_shape(fences@, pens, idx@, fences@.len() as int);
            lemma_table_mass(fences@, pens, idx@, fences@.len() as int);
        }
        let score = run_simulation(&wins, &weights, trials, bet_amount, test_spins, test_spins_weights, pmb_rtp);
        match score {
            Err(e) => {
                proof {
                    assert(tables_ready(fences@, pens, idx@));
                }
                return Err(e);
            },
            Ok(score) => {
                assert(scored_by(
                    fences@,
                    pens,
                    idx@,
                    score,
                    trials,
                    test_spins@,
                    test_spins_weights@,
                    bet_amount,
                    pmb_rtp,
                ));
                let sp = ShowPig { pig_indexes: idx, success_score: score };
                let ghost before = drawn;
                proof {
                    drawn = drawn.push(sp);
                    assert(drawn.drop_last() =~= before);
                    assert forall|k: int| 0 <= k < drawn.len() implies {
                        let c = #[trigger] drawn[k];
                        &&& tables_ready(fences@, pens, c.pig_indexes@)
                        &&& scored_by(fences@, pens, c.pig_indexes@, c.success_score, trials, test_spins@, test_spins_weights@, bet_amount, pmb_rtp)
                    } by {
                        if k < before.len() {
                            assert(drawn[k] == before[k]);
                        }
                    }
                }
                if score != 0 && score >= best {
                    best = score;
                    out.push(sp);
                }
            },
        }
        p = p + 1;
    }
    assert(drawn_solutions(fences@, pens, drawn, trials, test_spins@, test_spins_weights@, bet_amount, pmb_rtp));
    Ok(out)
}

/// Whether scores never rise along `v`.
pub open spec fn ranked(v: Seq<ShowPig>) -> bool {
    forall|a: int, b: int| 0 <= a < b < v.len() ==> (#[trigger] v[a]).success_score >= (#[trigger] v[b]).success_score
}

/// Orders full solutions by score, best first.
pub fn rank_show_pigs(show_pigs: Vec<ShowPig>) -> (r: Vec<ShowPig>)
    ensures
        ranked(r@),
        r@.to_multiset() == show_pigs@.to_multiset(),
{
    let mut rest = show_pigs;
    let mut out: Vec<ShowPig> = Vec::new();
    proof {
        broadcast use to_multiset_len, lemma_multiset_empty_len;
        assert(out@.to_multiset().len() == 0);
        assert(out@.to_multiset() =~= Multiset::empty());
        assert(rest@.to_multiset().add(out@.to_multiset()) =~= show_pigs@.to_multiset());
    }
    while rest.len() > 0
        invariant
            ranked(out@),
            rest@.to_multiset().add(out@.to_multiset()) == show_pigs@.to_multiset(),
        decreases rest@.len(),
    {
        let ghost before = rest@;
        let x = rest.pop().unwrap();
        proof {
            broadcast use to_multiset_build;
            assert(before == rest@.push(x));
            assert(before.to_multiset() =~= rest@.to_multiset().insert(x));
        }
        let mut q: usize = 0;
        while q < out.len() && out[q].success_score >= x.success_score
            invariant
                q <= out@.len(),
                forall|k: int| 0 <= k < q ==> (#[trigger] out@[k]).success_score >= x.success_score,
            decreases out@.len() - q,
        {
            q = q + 1;
        }
        let ghost old_out = out@;
        out.insert(q, x);
        proof {
            broadcast use to_multiset_insert;
            assert(out@ == old_out.insert(q as int, x));
            assert(out@.to_multiset() =~= old_out.to_multiset().insert(x));
            assert(rest@.to_multiset().add(out@.to_multiset()) =~= show_pigs@.to_multiset());
            assert forall|a: int, b: int| 0 <= a < b < out@.len() implies (#[trigger] out@[a]).success_score >= (#[trigger] out@[b]).success_score by {
                if b < q {
                    assert(out@[a] == old_out[a] && out@[b] == old_out[b]);
                } else if b == q {
                    assert(out@[a] == old_out[a]);
                } else if a < q {
                    assert(out@[a] == old_out[a] && out@[b] == old_out[b - 1]);
                    if q < old_out.len() {
                        assert(old_out[q as int].success_score < x.success_score);
                    }
                } else if a == q {
                    assert(out@[b] == old_out[b - 1]);
                    assert(old_out[q as int].success_score < x.success_score);
                } else {
                    assert(out@[a] == old_out[a - 1] && out@[b] == old_out[b - 1]);
                }
            }
        }
    }
    proof {
        broadcast use to_multiset_len, lemma_multiset_empty_len;
        assert(rest@.len() == 0);
        assert(rest@.to_multiset().len() == 0);
        assert(rest@.to_multiset() =~= Multiset::empty());
        assert(out@.to_multiset() =~= show_pigs@.to_multiset());
    }
    out
}

} // verus!
