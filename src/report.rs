use vstd::prelude::*;
use vstd::arithmetic::div_mod::{lemma_fundamental_div_mod, lemma_mod_bound};
use std::collections::HashMap;
use crate::units::{MASS_ONE, UNIT};
use crate::pig::{Pig, CHILD_MASS};
use crate::fence::{Fence, rounded_div};
use crate::config::LookUpTableEntry;
use crate::show::{tables_ready, chosen};

verus! {

broadcast use vstd::std_specs::hash::group_hash_axioms;

/// The weight of each outcome of group `g` of bucket `f` with chosen candidate `p`: the
/// group's share of the bucket mass (all of it for a single-value bucket), split evenly
/// over the group's outcomes, rounded to the nearest integer.
pub open spec fn group_weight(f: Fence, p: Pig, g: int) -> int {
    share_of_group(f, g, p.weights@[g] as int, p.sum_dist as int)
}

/// The bucket's mass as a fraction `(numerator, denominator)`: `MASS_ONE / hr`, or the
/// complement mass itself for the bucket that takes it.
pub open spec fn mass_fraction(f: Fence) -> (int, int) {
    if f.complement {
        (f.mass as int, 1)
    } else {
        (MASS_ONE * UNIT, f.hr as int)
    }
}

/// The weight of each outcome of group `g` of bucket `f` when the candidate gives the group
/// `w` out of `sum`: the exact share of the bucket mass, split over the group's outcomes and
/// rounded once to the nearest integer.
pub open spec fn share_of_group(f: Fence, g: int, w: int, sum: int) -> int {
    let n = f.win_dist@[g].book_ids@.len() as int;
    let (a, d) = mass_fraction(f);
    if f.win_type {
        rounded_div(a, d * n)
    } else {
        rounded_div(a * w, d * sum * n)
    }
}

/// Largest denominator worked with in 128 bits; beyond it every share rounds to zero.
pub const SHARE_LIMIT: u128 = 1_329_227_995_784_915_872_903_807_060_280_344_576;

/// The weight of each outcome of group `g` (see `share_of_group`).
pub fn outcome_weight(fence: &Fence, g: usize, w: u64, sum: u64) -> (r: u64)
    requires
        g < fence.win_dist@.len(),
        fence.win_dist@[g as int].book_ids@.len() > 0,
        fence.mass <= MASS_ONE,
        fence.complement || fence.hr >= UNIT,
        !fence.win_type ==> 0 < sum <= CHILD_MASS && w <= sum,
    ensures
        r as int == share_of_group(*fence, g as int, w as int, sum as int),
        r <= MASS_ONE,
{
    let n = fence.win_dist[g].book_ids.len() as u128;
    let (a, d): (u128, u128) = if fence.complement {
        (fence.mass as u128, 1)
    } else {
        ((MASS_ONE as u128) * (UNIT as u128), fence.hr as u128)
    };
    proof {
        assert(a <= MASS_ONE as int * d) by (nonlinear_arith)
            requires
                fence.complement ==> a == fence.mass && d == 1,
                !fence.complement ==> a == MASS_ONE * UNIT && d == fence.hr && fence.hr >= UNIT,
                fence.mass <= MASS_ONE,
        ;
        assert(a * CHILD_MASS <= MASS_ONE as int * UNIT * CHILD_MASS) by (nonlinear_arith)
            requires
                a <= MASS_ONE as int * UNIT,
        ;
        assert(d * CHILD_MASS <= u64::MAX as int * CHILD_MASS) by (nonlinear_arith)
            requires
                d <= u64::MAX,
        ;
    }
    let (num, d1): (u128, u128) = if fence.win_type {
        (a, d)
    } else {
        proof {
            assert(a * w <= a * CHILD_MASS) by (nonlinear_arith)
                requires
                    w <= CHILD_MASS,
                    a >= 0,
            ;
            assert(d * sum <= d * CHILD_MASS) by (nonlinear_arith)
                requires
                    sum <= CHILD_MASS,
                    d >= 0,
            ;
        }
        (a * (w as u128), d * (sum as u128))
    };
    proof {
        assert(num <= MASS_ONE as int * d1) by (nonlinear_arith)
            requires
                fence.win_type ==> num == a && d1 == d,
                !fence.win_type ==> num == a * w && d1 == d * sum && w <= sum,
                a <= MASS_ONE as int * d,
                w >= 0,
        ;
        assert(d1 >= 1) by (nonlinear_arith)
            requires
                fence.win_type ==> d1 == d,
                !fence.win_type ==> d1 == d * sum && sum >= 1,
                d >= 1,
        ;
        assert(num <= 2 * MASS_ONE as int * UNIT * CHILD_MASS) by (nonlinear_arith)
            requires
                fence.win_type ==> num == a,
                !fence.win_type ==> num == a * w && w <= CHILD_MASS,
                a <= MASS_ONE as int * UNIT,
                w >= 0,
        ;
    }
    let cap = SHARE_LIMIT / d1;
    if n > cap {
        proof {
            let den = d1 as int * n as int;
            lemma_fundamental_div_mod(SHARE_LIMIT as int, d1 as int);
            lemma_mod_bound(SHARE_LIMIT as int, d1 as int);
            assert(den > SHARE_LIMIT) by (nonlinear_arith)
                requires
                    n >= cap + 1,
                    SHARE_LIMIT == d1 * cap + SHARE_LIMIT % d1,
                    SHARE_LIMIT % d1 < d1,
                    den == d1 * n,
                    d1 >= 1,
            ;
            let x = 2 * num as int + den;
            vstd::arithmetic::div_mod::lemma_basic_div(x, 2 * den);
            assert(fence.win_type ==> d1 as int * n as int == d * n);
            assert(!fence.win_type ==> d1 as int * n as int == d * sum * n);
        }
        return 0;
    }
    proof {
        lemma_fundamental_div_mod(SHARE_LIMIT as int, d1 as int);
        lemma_mod_bound(SHARE_LIMIT as int, d1 as int);
        assert(d1 as int * n as int <= SHARE_LIMIT) by (nonlinear_arith)
            requires
                n <= cap,
                SHARE_LIMIT == d1 * cap + SHARE_LIMIT % d1,
                SHARE_LIMIT % d1 >= 0,
                d1 >= 1,
        ;
    }
    let den = d1 * n;
    proof {
        assert(fence.win_type ==> den == d * n);
        assert(!fence.win_type ==> den as int == d * sum * n);
        assert(den >= 1) by (nonlinear_arith)
            requires
                den == d1 * n,
                d1 >= 1,
                n >= 1,
        ;
        let x = (2 * num as int + den as int) / (2 * den as int);
        lemma_fundamental_div_mod(2 * num as int + den as int, 2 * den as int);
        lemma_mod_bound(2 * num as int + den as int, 2 * den as int);
        assert(num <= MASS_ONE as int * den) by (nonlinear_arith)
            requires
                num <= MASS_ONE as int * d1,
                den == d1 * n,
                n >= 1,
        ;
        assert(x <= MASS_ONE) by (nonlinear_arith)
            requires
                2 * den * x <= 2 * num + den,
                num <= MASS_ONE * den,
                den >= 1,
        ;
    }
    ((2 * num + den) / (2 * den)) as u64
}

/// Whether the outcome `id` is in some group of some bucket.
pub open spec fn claimed(fences: Seq<Fence>, id: u32) -> bool {
    exists|b: int, g: int|
        0 <= b < fences.len() && 0 <= g < fences[b].win_dist@.len() && (#[trigger] fences[b].win_dist@[g]).book_ids@.contains(id)
}

/// Whether `w` is the weight that a group holding `id` gives it.
pub open spec fn weight_from_group(fences: Seq<Fence>, pens: Seq<Seq<Pig>>, idx: Seq<usize>, id: u32, w: u64) -> bool {
    exists|b: int, g: int|
        0 <= b < fences.len() && 0 <= g < fences[b].win_dist@.len() && (#[trigger] fences[b].win_dist@[g]).book_ids@.contains(id)
            && w == group_weight(fences[b], chosen(pens, idx, b), g)
}

/// Whether the bucket's groups line up with its chosen candidate.
pub open spec fn groups_ready(f: Fence, p: Pig) -> bool {
    &&& f.mass <= MASS_ONE
    &&& (f.complement || f.hr >= UNIT)
    &&& (!f.win_type ==> p.weights@.len() == f.win_dist@.len() && p.sum_dist > 0 && p.sum_dist <= CHILD_MASS && (forall|g: int|
        0 <= g < p.weights@.len() ==> #[trigger] p.weights@[g] <= p.sum_dist))
}

fn add_group(m: &mut HashMap<u32, u64>, ids: &Vec<u32>, w: u64)
    ensures
        forall|k: u32| #![trigger final(m)@.contains_key(k)] final(m)@.contains_key(k) <==> (old(m)@.contains_key(k) || ids@.contains(k)),
        forall|k: u32| #![trigger final(m)@[k]] ids@.contains(k) ==> final(m)@[k] == w,
        forall|k: u32| #![trigger final(m)@[k]] !ids@.contains(k) && old(m)@.contains_key(k) ==> final(m)@[k] == old(m)@[k],
{
    let ghost m0 = m@;
    let mut j: usize = 0;
    while j < ids.len()
        invariant
            j <= ids@.len(),
            forall|k: u32| m@.contains_key(k) <==> (m0.contains_key(k) || ids@.take(j as int).contains(k)),
            forall|k: u32| #![trigger m@[k]] ids@.take(j as int).contains(k) ==> m@[k] == w,
            forall|k: u32| #![trigger m@[k]] !ids@.take(j as int).contains(k) && m0.contains_key(k) ==> m@[k] == m0[k],
        decreases ids@.len() - j,
    {
        let id = ids[j];
        let ghost before = m@;
        m.insert(id, w);
        proof {
            assert(vstd::std_specs::hash::obeys_key_model::<u32>());
            assert(vstd::std_specs::hash::builds_valid_hashers::<std::hash::RandomState>());
            assert(m@ == before.insert(id, w));
            let t0 = ids@.take(j as int);
            let t1 = ids@.take(j as int + 1);
            assert(t1 =~= t0.push(id));
            assert forall|k: u32| t1.contains(k) <==> (t0.contains(k) || k == id) by {
                if t1.contains(k) {
                    let q = choose|q: int| 0 <= q < t1.len() && #[trigger] t1[q] == k;
                    if q < t0.len() {
                        assert(t0[q] == k);
                    }
                }
                if t0.contains(k) {
                    let q = choose|q: int| 0 <= q < t0.len() && #[trigger] t0[q] == k;
                    assert(t1[q] == k);
                }
                if k == id {
                    assert(t1[j as int] == k);
                }
            }
            assert forall|k: u32| m@.contains_key(k) <==> (m0.contains_key(k) || t1.contains(k)) by {
                assert(before.contains_key(k) <==> (m0.contains_key(k) || t0.contains(k)));
            }
            assert forall|k: u32| #![trigger m@[k]] t1.contains(k) implies m@[k] == w by {
                if k != id {
                    assert(t0.contains(k));
                    assert(before[k] == w);
                }
            }
            assert forall|k: u32| #![trigger m@[k]] !t1.contains(k) && m0.contains_key(k) implies m@[k] == m0[k] by {
                assert(!t0.contains(k));
                assert(before[k] == m0[k]);
            }
        }
        j = j + 1;
    }
    assert(ids@.take(j as int) =~= ids@);
}

/// The weight of every catalog outcome for a full solution: an outcome in a bucket group
/// gets that group's weight (`group_weight`); any other keeps its catalog weight.
pub fn lookup_weights(
    catalog: &Vec<LookUpTableEntry>,
    fences: &Vec<Fence>,
    pig_pens: &Vec<Vec<Pig>>,
    pig_indexes: &Vec<usize>,
) -> (r: Vec<LookUpTableEntry>)
    requires
        tables_ready(fences@, pig_pens@.map_values(|p: Vec<Pig>| p@), pig_indexes@),
        forall|b: int| 0 <= b < fences@.len() ==> groups_ready(
            #[trigger] fences@[b],
            chosen(pig_pens@.map_values(|p: Vec<Pig>| p@), pig_indexes@, b),
        ),
    ensures
        r@.len() == catalog@.len(),
        forall|i: int| 0 <= i < r@.len() ==> {
            let e = #[trigger] r@[i];
            let c = catalog@[i];
            &&& e.id == c.id
            &&& e.win == c.win
            &&& (claimed(fences@, c.id) ==> weight_from_group(
                fences@,
                pig_pens@.map_values(|p: Vec<Pig>| p@),
                pig_indexes@,
                c.id,
                e.weight,
            ))
            &&& (!claimed(fences@, c.id) ==> e.weight == c.weight)
        },
{
    let ghost pens = pig_pens@.map_values(|p: Vec<Pig>| p@);
    let mut m: HashMap<u32, u64> = HashMap::new();
    let mut b: usize = 0;
    while b < fences.len()
        invariant
            b <= fences@.len(),
            pens == pig_pens@.map_values(|p: Vec<Pig>| p@),
            tables_ready(fences@, pens, pig_indexes@),
            forall|q: int| 0 <= q < fences@.len() ==> groups_ready(#[trigger] fences@[q], chosen(pens, pig_indexes@, q)),
            forall|k: u32| m@.contains_key(k) ==> weight_from_group(fences@, pens, pig_indexes@, k, #[trigger] m@[k]),
            forall|k: u32| #![trigger m@.contains_key(k)] (exists|q: int, g: int|
                0 <= q < b && 0 <= g < fences@[q].win_dist@.len() && (#[trigger] fences@[q].win_dist@[g]).book_ids@.contains(k))
                ==> m@.contains_key(k),
        decreases fences@.len() - b,
    {
        let fence = &fences[b];
        let ghost p = chosen(pens, pig_indexes@, b as int);
        let mut g: usize = 0;
        while g < fence.win_dist.len()
            invariant
                b < fences@.len(),
                fence == fences@[b as int],
                g <= fence.win_dist@.len(),
                pens == pig_pens@.map_values(|p: Vec<Pig>| p@),
                tables_ready(fences@, pens, pig_indexes@),
                p == chosen(pens, pig_indexes@, b as int),
                groups_ready(*fence, p),
                forall|k: u32| m@.contains_key(k) ==> weight_from_group(fences@, pens, pig_indexes@, k, #[trigger] m@[k]),
                forall|k: u32| #![trigger m@.contains_key(k)] (exists|q: int, h: int|
                    0 <= q < b && 0 <= h < fences@[q].win_dist@.len() && (#[trigger] fences@[q].win_dist@[h]).book_ids@.contains(k))
                    ==> m@.contains_key(k),
                forall|k: u32| #![trigger m@.contains_key(k)] (exists|h: int|
                    0 <= h < g && (#[trigger] fence.win_dist@[h]).book_ids@.contains(k)) ==> m@.contains_key(k),
            decreases fence.win_dist@.len() - g,
        {
            let group = &fence.win_dist[g];
            let n = group.book_ids.len();
            if n > 0 {
                let w: u64 = if fence.win_type {
                    outcome_weight(fence, g, 1, 1)
                } else {
                    let k = pig_indexes[b];
                    let pig = &pig_pens[b][k];
                    assert(*pig == p);
                    outcome_weight(fence, g, pig.weights[g], pig.sum_dist)
                };
                let ghost m_old = m@;
                add_group(&mut m, &group.book_ids, w);
                proof {
                    assert(w as int == group_weight(*fence, p, g as int));
                    assert forall|k: u32| m@.contains_key(k) implies weight_from_group(fences@, pens, pig_indexes@, k, #[trigger] m@[k]) by {
                        if group.book_ids@.contains(k) {
                            assert(fences@[b as int].win_dist@[g as int] == *group);
                        } else {
                            assert(m_old.contains_key(k));
                        }
                    }
                    assert forall|k: u32| #![trigger m@.contains_key(k)] (exists|h: int|
                        0 <= h < g + 1 && (#[trigger] fence.win_dist@[h]).book_ids@.contains(k)) implies m@.contains_key(k) by {
                        let h = choose|h: int| 0 <= h < g + 1 && (#[trigger] fence.win_dist@[h]).book_ids@.contains(k);
                        if h < g {
                            assert(exists|h2: int| 0 <= h2 < g && (#[trigger] fence.win_dist@[h2]).book_ids@.contains(k));
                            assert(m_old.contains_key(k));
                        } else {
                            assert(fence.win_dist@[h] == *group);
                            assert(group.book_ids@.contains(k));
                        }
                    }
                    assert forall|k: u32| #![trigger m@.contains_key(k)] (exists|q: int, h: int|
                        0 <= q < b && 0 <= h < fences@[q].win_dist@.len() && (#[trigger] fences@[q].win_dist@[h]).book_ids@.contains(k))
                        implies m@.contains_key(k) by {
                        assert(m_old.contains_key(k));
                    }
                }
            } else {
                proof {
                    assert forall|k: u32| #![trigger m@.contains_key(k)] (exists|h: int|
                        0 <= h < g + 1 && (#[trigger] fence.win_dist@[h]).book_ids@.contains(k)) implies m@.contains_key(k) by {
                        let h = choose|h: int| 0 <= h < g + 1 && (#[trigger] fence.win_dist@[h]).book_ids@.contains(k);
                        if h == g {
                            assert(fence.win_dist@[h].book_ids@.len() == 0);
                        }
                    }
                }
            }
            g = g + 1;
        }
        proof {
            assert forall|k: u32| #![trigger m@.contains_key(k)] (exists|q: int, h: int|
                0 <= q < b + 1 && 0 <= h < fences@[q].win_dist@.len() && (#[trigger] fences@[q].win_dist@[h]).book_ids@.contains(k))
                implies m@.contains_key(k) by {
                let (q, h) = choose|q: int, h: int|
                    0 <= q < b + 1 && 0 <= h < fences@[q].win_dist@.len() && (#[trigger] fences@[q].win_dist@[h]).book_ids@.contains(k);
                if q == b {
                    assert(fence.win_dist@[h].book_ids@.contains(k));
                }
            }
        }
        b = b + 1;
    }
    let mut out: Vec<LookUpTableEntry> = Vec::new();
    let mut i: usize = 0;
    while i < catalog.len()
        invariant
            i <= catalog@.len(),
            out@.len() == i,
            pens == pig_pens@.map_values(|p: Vec<Pig>| p@),
            forall|k: u32| m@.contains_key(k) ==> weight_from_group(fences@, pens, pig_indexes@, k, #[trigger] m@[k]),
            forall|k: u32| #![trigger m@.contains_key(k)] (exists|q: int, h: int|
                0 <= q < fences@.len() && 0 <= h < fences@[q].win_dist@.len() && (#[trigger] fences@[q].win_dist@[h]).book_ids@.contains(k))
                ==> m@.contains_key(k),
            forall|q: int| 0 <= q < i ==> {
                let e = #[trigger] out@[q];
                let c = catalog@[q];
                &&& e.id == c.id
                &&& e.win == c.win
                &&& (claimed(fences@, c.id) ==> weight_from_group(fences@, pens, pig_indexes@, c.id, e.weight))
                &&& (!claimed(fences@, c.id) ==> e.weight == c.weight)
            },
        decreases catalog@.len() - i,
    {
        let c = catalog[i];
        let weight = match m.get(&c.id) {
            Some(w) => *w,
            None => c.weight,
        };
        proof {
            if claimed(fences@, c.id) {
                assert(m@.contains_key(c.id));
            }
            if m@.contains_key(c.id) {
                let (q, h) = choose|q: int, h: int|
                    0 <= q < fences@.len() && 0 <= h < fences@[q].win_dist@.len()
                        && (#[trigger] fences@[q].win_dist@[h]).book_ids@.contains(c.id)
                        && m@[c.id] == group_weight(fences@[q], chosen(pens, pig_indexes@, q), h);
                assert(claimed(fences@, c.id));
            }
        }
        out.push(LookUpTableEntry { id: c.id, weight, win: c.win });
        i = i + 1;
    }
    out
}

/// Lower edges of the payout bands of the win-rate summary, then the last upper edge
/// (micro-units); band `b` is `[edges[b], edges[b + 1])`.
pub open spec fn band_edges() -> Seq<u64> {
    seq![
        0, 100_000, 1_000_000, 2_000_000, 3_000_000, 5_000_000, 10_000_000, 20_000_000, 50_000_000,
        100_000_000, 200_000_000, 500_000_000, 1_000_000_000, 2_000_000_000, 3_000_000_000,
        5_001_000_000,
    ]
}

/// The band edges (see `band_edges`).
pub fn win_band_edges() -> (r: Vec<u64>)
    ensures
        r@ == band_edges(),
{
    let r = vec![
        0, 100_000, 1_000_000, 2_000_000, 3_000_000, 5_000_000, 10_000_000, 20_000_000, 50_000_000,
        100_000_000, 200_000_000, 500_000_000, 1_000_000_000, 2_000_000_000, 3_000_000_000,
        5_001_000_000,
    ];
    assert(r@ =~= band_edges());
    r
}

/// The weight of the first `n` payouts that lie in `[low, high)`.
pub open spec fn band_total(wins: Seq<u64>, weights: Seq<u64>, low: int, high: int, n: int) -> int
    decreases n,
{
    if n <= 0 || n > wins.len() || n > weights.len() {
        0
    } else {
        band_total(wins, weights, low, high, n - 1) + if low <= wins[n - 1] && wins[n - 1] < high {
            weights[n - 1] as int
        } else {
            0int
        }
    }
}

proof fn lemma_band_total_bound(wins: Seq<u64>, weights: Seq<u64>, low: int, high: int, n: int)
    requires
        0 <= n <= wins.len(),
        n <= weights.len(),
    ensures
        0 <= band_total(wins, weights, low, high, n) <= n * u64::MAX,
    decreases n,
{
    if n > 0 {
        lemma_band_total_bound(wins, weights, low, high, n - 1);
    }
}

/// The total weight in each payout band of the win-rate summary (see `band_edges`).
pub fn get_win_ranges(wins: &Vec<u64>, weights: &Vec<u64>) -> (r: Vec<u128>)
    requires
        wins@.len() == weights@.len(),
    ensures
        r@.len() == 15,
        forall|b: int| 0 <= b < 15 ==> #[trigger] r@[b] as int == band_total(
            wins@,
            weights@,
            band_edges()[b] as int,
            band_edges()[b + 1] as int,
            wins@.len() as int,
        ),
{
    let edges = win_band_edges();
    let mut out: Vec<u128> = Vec::new();
    let mut b: usize = 0;
    while b < 15
        invariant
            b <= 15,
            edges@ == band_edges(),
            wins@.len() == weights@.len(),
            out@.len() == b,
            forall|q: int| 0 <= q < b ==> #[trigger] out@[q] as int == band_total(
                wins@,
                weights@,
                band_edges()[q] as int,
                band_edges()[q + 1] as int,
                wins@.len() as int,
            ),
        decreases 15 - b,
    {
        let low = edges[b];
        let high = edges[b + 1];
        let mut acc: u128 = 0;
        let mut i: usize = 0;
        while i < wins.len()
            invariant
                i <= wins@.len(),
                wins@.len() == weights@.len(),
                acc as int == band_total(wins@, weights@, low as int, high as int, i as int),
            decreases wins@.len() - i,
        {
            proof {
                lemma_band_total_bound(wins@, weights@, low as int, high as int, i as int);
                assert(i as int * u64::MAX + u64::MAX <= u64::MAX as int * u64::MAX as int + u64::MAX) by (nonlinear_arith)
                    requires
                        i <= u64::MAX,
                ;
            }
            if low <= wins[i] && wins[i] < high {
                acc = acc + weights[i] as u128;
            }
            i = i + 1;
        }
        out.push(acc);
        b = b + 1;
    }
    out
}

/// Sum of `weight * win` over the first `n` outcomes.
pub open spec fn paid_sum(t: Seq<LookUpTableEntry>, n: int) -> int
    decreases n,
{
    if n <= 0 || n > t.len() {
        0
    } else {
        paid_sum(t, n - 1) + t[n - 1].weight * t[n - 1].win
    }
}

/// Sum of the weights of the first `n` outcomes.
pub open spec fn weight_sum(t: Seq<LookUpTableEntry>, n: int) -> int
    decreases n,
{
    if n <= 0 || n > t.len() {
        0
    } else {
        weight_sum(t, n - 1) + t[n - 1].weight
    }
}

proof fn lemma_paid_mono(t: Seq<LookUpTableEntry>, i: int, j: int)
    requires
        0 <= i <= j <= t.len(),
    ensures
        paid_sum(t, i) <= paid_sum(t, j),
    decreases j - i,
{
    if i < j {
        lemma_paid_mono(t, i, j - 1);
        assert(t[j - 1].weight * t[j - 1].win >= 0) by (nonlinear_arith)
            requires
                t[j - 1].weight >= 0,
                t[j - 1].win >= 0,
        ;
    }
}

proof fn lemma_weight_sum_bound(t: Seq<LookUpTableEntry>, n: int)
    requires
        0 <= n <= t.len(),
    ensures
        0 <= weight_sum(t, n) <= n * u64::MAX,
    decreases n,
{
    if n > 0 {
        lemma_weight_sum_bound(t, n - 1);
    }
}

/// The payout-weighted weight and the total weight of a weight table, whose ratio is its
/// realized return to player; `None` when the payout-weighted weight exceeds 128 bits.
pub fn realized_rtp(table: &Vec<LookUpTableEntry>) -> (r: Option<(u128, u128)>)
    ensures
        r.is_none() <==> paid_sum(table@, table@.len() as int) > u128::MAX,
        r.is_some() ==> r.unwrap().0 as int == paid_sum(table@, table@.len() as int)
            && r.unwrap().1 as int == weight_sum(table@, table@.len() as int),
{
    let mut paid: u128 = 0;
    let mut mass: u128 = 0;
    let mut i: usize = 0;
    while i < table.len()
        invariant
            i <= table@.len(),
            paid as int == paid_sum(table@, i as int),
            mass as int == weight_sum(table@, i as int),
        decreases table@.len() - i,
    {
        let e = table[i];
        proof {
            assert(e.weight as int * e.win as int <= u64::MAX as int * u64::MAX as int) by (nonlinear_arith);
            lemma_weight_sum_bound(table@, i as int + 1);
            assert((i as int + 1) * u64::MAX <= u64::MAX as int * u64::MAX as int + u64::MAX) by (nonlinear_arith)
                requires
                    i < u64::MAX,
            ;
        }
        let term: u128 = (e.weight as u128) * (e.win as u128);
        if paid > u128::MAX - term {
            proof {
                lemma_paid_mono(table@, i as int + 1, table@.len() as int);
            }
            return None;
        }
        paid = paid + term;
        mass = mass + e.weight as u128;
        i = i + 1;
    }
    Some((paid, mass))
}

} // verus!
