use vstd::prelude::*;
use crate::units::{UNIT, ceil_sqrt, is_ceil_sqrt, sum_u64};
use crate::pig::{
    ancestor_of,
    median_from,
    Pig, Region, MAX_PAYOUT, ANCESTOR_MASS, CHILD_MASS, payouts_in_range, get_weights_no_weight_array,
    breed_pigs, mean_to_median_ok, volatility_ok, median_spec, normalized, blend, above_coefficient,
    below_coefficient,
};
use crate::fence::{Dress, ScaleFactor, Fence};
use crate::chance::random_below;
use crate::config::FarmError;

verus! {

/// Scale of the modifier that lifts the payouts an unfilled pool lacks.
pub const BOOST_LOW_SCALE: u64 = 150_000_000;

/// Scale of the modifier that lifts high payouts when the below-target pool fills first.
pub const BOOST_HIGH_SCALE: u64 = 50_000_000;

/// Scale of the modifier that all but silences the other half of the payouts.
pub const DAMP_SCALE: u64 = 100;

/// The setting in which one bucket's candidates are generated: its sorted distinct payouts,
/// its modifiers, the population target and the target average win (micro-units).
#[derive(Clone, Debug)]
pub struct PigHeaven {
    pub bet_amount: u64,
    pub wins: Vec<u64>,
    pub rtp: u64,
    pub pig_params: Vec<Dress>,
    pub num_pigs: u32,
    pub max_win: u64,
    pub min_win: u64,
    pub avg_win: u64,
}

impl PigHeaven {
    pub open spec fn wf(&self) -> bool {
        &&& self.wins@.len() > 0
        &&& payouts_in_range(self.wins@)
        &&& self.avg_win <= MAX_PAYOUT
        &&& self.min_win == self.wins@[0]
        &&& self.max_win == self.wins@[self.wins@.len() - 1]
    }
}

/// A candidate that may enter the above-target pool.
pub open spec fn pos_ok(p: Pig, h: PigHeaven) -> bool {
    &&& p.wf(h.wins@)
    &&& p.sum_dist <= ANCESTOR_MASS
    &&& p.is_above(h.avg_win as int)
    &&& p.random_seeds@.len() > 0
}

/// A candidate that may enter the below-target pool.
pub open spec fn neg_ok(p: Pig, h: PigHeaven) -> bool {
    &&& p.wf(h.wins@)
    &&& p.sum_dist <= ANCESTOR_MASS
    &&& p.is_below(h.avg_win as int)
    &&& p.random_seeds@.len() > 0
}

/// The two ancestor pools of one bucket while they fill, with the extra modifiers added
/// once the first pool is full.
#[derive(Clone, Debug)]
pub struct Pens {
    pub pos_pigs: Vec<Pig>,
    pub neg_pigs: Vec<Pig>,
    pub pool_size: u32,
    pub extra_params: Vec<Region>,
    pub added_extra_params: bool,
    pub loop_count: u64,
    pub already_printed: bool,
}

/// A progress note of the pool filling: after `5 * num_pigs` offers, once, which way the
/// candidates lean.
#[derive(Clone, Copy, Debug, PartialEq, Eq, Structural)]
pub enum PenEvent {
    Quiet,
    RtpTooLow,
    RtpTooHigh,
}

impl Pens {
    pub open spec fn wf(&self, h: PigHeaven) -> bool {
        &&& self.pos_pigs@.len() <= self.pool_size
        &&& self.neg_pigs@.len() <= self.pool_size
        &&& (forall|i: int| 0 <= i < self.pos_pigs@.len() ==> pos_ok(#[trigger] self.pos_pigs@[i], h))
        &&& (forall|i: int| 0 <= i < self.neg_pigs@.len() ==> neg_ok(#[trigger] self.neg_pigs@[i], h))
        &&& self.added_extra_params == (self.extra_params@.len() > 0)
    }

    pub open spec fn full(&self) -> bool {
        self.pos_pigs@.len() >= self.pool_size && self.neg_pigs@.len() >= self.pool_size
    }

    /// Empty pools, each to hold `ceil(sqrt(num_pigs))` candidates.
    pub fn new(heaven: &PigHeaven) -> (r: Pens)
        ensures
            r.wf(*heaven),
            is_ceil_sqrt(heaven.num_pigs as nat, r.pool_size as nat),
            r.pos_pigs@.len() == 0,
            r.neg_pigs@.len() == 0,
            r.extra_params@.len() == 0,
            r.loop_count == 0,
            !r.already_printed,
    {
        Pens {
            pos_pigs: Vec::new(),
            neg_pigs: Vec::new(),
            pool_size: ceil_sqrt(heaven.num_pigs),
            extra_params: Vec::new(),
            added_extra_params: false,
            loop_count: 0,
            already_printed: false,
        }
    }

    /// Whether both pools are full.
    pub fn is_full(&self) -> (r: bool)
        ensures
            r == self.full(),
    {
        self.pos_pigs.len() >= self.pool_size as usize && self.neg_pigs.len() >= self.pool_size as usize
    }

    /// Counts a candidate whose evaluation failed, as an offer that joined no pool.
    pub fn note_discarded(&mut self)
        requires
            old(self).loop_count < u64::MAX,
        ensures
            final(self).loop_count == old(self).loop_count + 1,
            final(self).pos_pigs == old(self).pos_pigs,
            final(self).neg_pigs == old(self).neg_pigs,
            final(self).pool_size == old(self).pool_size,
            final(self).extra_params == old(self).extra_params,
            final(self).added_extra_params == old(self).added_extra_params,
            final(self).already_printed == old(self).already_printed,
    {
        self.loop_count = self.loop_count + 1;
    }

    /// Whether filling the pools should be given up: `max_offers` offers were made and the
    /// pools are still not full.
    pub fn exhausted(&self, max_offers: u64) -> (r: bool)
        ensures
            r == (self.loop_count >= max_offers && !self.full()),
    {
        self.loop_count >= max_offers && !self.is_full()
    }

    /// Offers a fresh candidate: it joins the above-target pool if its average win is above
    /// the target and that pool has room, else the below-target pool if below and with room,
    /// else it is dropped. The first time a pool is full, two wide modifiers are added for
    /// later candidates. After `5 * num_pigs` offers the pools' balance is reported once.
    pub fn offer(&mut self, heaven: &PigHeaven, pig: Pig) -> (r: PenEvent)
        requires
            old(self).wf(*heaven),
            heaven.wf(),
            pig.wf(heaven.wins@),
            pig.sum_dist <= ANCESTOR_MASS,
            pig.random_seeds@.len() > 0,
            old(self).loop_count < u64::MAX,
        ensures
            final(self).wf(*heaven),
            final(self).pool_size == old(self).pool_size,
            final(self).loop_count == old(self).loop_count + 1,
            ({
                let to_pos = pig.is_above(heaven.avg_win as int) && old(self).pos_pigs@.len() < old(self).pool_size;
                let to_neg = !to_pos && pig.is_below(heaven.avg_win as int) && old(self).neg_pigs@.len() < old(self).pool_size;
                &&& final(self).pos_pigs@ == (if to_pos { old(self).pos_pigs@.push(pig) } else { old(self).pos_pigs@ })
                &&& final(self).neg_pigs@ == (if to_neg { old(self).neg_pigs@.push(pig) } else { old(self).neg_pigs@ })
            }),
            old(self).added_extra_params ==> final(self).extra_params == old(self).extra_params,
            !old(self).added_extra_params && final(self).pos_pigs@.len() >= final(self).pool_size ==>
                final(self).extra_params@ == seq![
                    Region { low: heaven.min_win, high: heaven.avg_win / 2, scale: BOOST_LOW_SCALE },
                    Region { low: heaven.avg_win / 2, high: heaven.max_win, scale: DAMP_SCALE },
                ],
            !old(self).added_extra_params && final(self).pos_pigs@.len() < final(self).pool_size
                && final(self).neg_pigs@.len() >= final(self).pool_size ==>
                final(self).extra_params@ == seq![
                    Region { low: (2 * heaven.avg_win) as u64, high: heaven.max_win, scale: BOOST_HIGH_SCALE },
                    Region { low: heaven.min_win, high: heaven.avg_win, scale: DAMP_SCALE },
                ],
            !old(self).added_extra_params && final(self).pos_pigs@.len() < final(self).pool_size
                && final(self).neg_pigs@.len() < final(self).pool_size ==> final(self).extra_params@.len() == 0,
            r != PenEvent::Quiet <==> (final(self).loop_count > 5 * heaven.num_pigs && !old(self).already_printed),
            r == PenEvent::RtpTooLow ==> final(self).neg_pigs@.len() > final(self).pos_pigs@.len(),
            r == PenEvent::RtpTooHigh ==> final(self).neg_pigs@.len() <= final(self).pos_pigs@.len(),
            final(self).already_printed == (old(self).already_printed || r != PenEvent::Quiet),
    {
        self.loop_count = self.loop_count + 1;
        let target = heaven.avg_win as u128;
        proof {
            assert(heaven.avg_win * pig.sum_dist <= MAX_PAYOUT * CHILD_MASS) by (nonlinear_arith)
                requires
                    heaven.avg_win <= MAX_PAYOUT,
                    pig.sum_dist <= CHILD_MASS,
            ;
        }
        let above = pig.win_total > target * (pig.sum_dist as u128);
        let below = pig.win_total < target * (pig.sum_dist as u128);
        if above && self.pos_pigs.len() < self.pool_size as usize {
            self.pos_pigs.push(pig);
        } else if below && self.neg_pigs.len() < self.pool_size as usize {
            self.neg_pigs.push(pig);
        }
        if self.pos_pigs.len() >= self.pool_size as usize && !self.added_extra_params {
            self.added_extra_params = true;
            self.extra_params = vec![
                Region { low: heaven.min_win, high: heaven.avg_win / 2, scale: BOOST_LOW_SCALE },
                Region { low: heaven.avg_win / 2, high: heaven.max_win, scale: DAMP_SCALE },
            ];
        }
        if self.neg_pigs.len() >= self.pool_size as usize && !self.added_extra_params {
            self.added_extra_params = true;
            self.extra_params = vec![
                Region { low: 2 * heaven.avg_win, high: heaven.max_win, scale: BOOST_HIGH_SCALE },
                Region { low: heaven.min_win, high: heaven.avg_win, scale: DAMP_SCALE },
            ];
        }
        let mut event = PenEvent::Quiet;
        if self.loop_count > 5 * (heaven.num_pigs as u64) && !self.already_printed {
            self.already_printed = true;
            if self.neg_pigs.len() > self.pos_pigs.len() {
                event = PenEvent::RtpTooLow;
            } else {
                event = PenEvent::RtpTooHigh;
            }
        }
        event
    }
}

/// The region a modifier gives a candidate for the draws `draw` and `u` (micro-units, below
/// `UNIT`): none unless `draw < prob`; else its payout range at its fixed scale, or at its
/// scale times `u / UNIT` (rounded down) for a redrawn one.
pub open spec fn region_pick(d: Dress, draw: u64, u: u64) -> Option<Region> {
    if draw < d.prob {
        Some(
            Region {
                low: d.identity_condition_win_range.low,
                high: d.identity_condition_win_range.high,
                scale: match d.scale_factor {
                    ScaleFactor::Factor(f) => f,
                    ScaleFactor::FactorR(f) => (f as int * u as int / (UNIT as int)) as u64,
                },
            },
        )
    } else {
        None
    }
}

/// The regions that the modifiers `dresses` give, in order, for the draws `draws` and `us`.
pub open spec fn picked(dresses: Seq<Dress>, draws: Seq<u64>, us: Seq<u64>) -> Seq<Region>
    decreases dresses.len(),
{
    if dresses.len() == 0 {
        seq![]
    } else {
        let n = dresses.len() - 1;
        let rest = picked(dresses.drop_last(), draws.take(n), us.take(n));
        match region_pick(dresses.last(), draws[n], us[n]) {
            Some(r) => rest.push(r),
            None => rest,
        }
    }
}

/// Draws below `UNIT`, one per modifier.
pub open spec fn unit_draws(s: Seq<u64>, n: int) -> bool {
    s.len() == n && forall|i: int| 0 <= i < n ==> #[trigger] s[i] < UNIT
}

/// Whether `r` is what `pick_regions` may give: the modifiers kept by some draws, in order,
/// then the extra regions.
pub open spec fn regions_picked(dresses: Seq<Dress>, extra: Seq<Region>, r: Seq<Region>) -> bool {
    exists|draws: Seq<u64>, us: Seq<u64>|
        unit_draws(draws, dresses.len() as int) && unit_draws(us, dresses.len() as int) && r
            == #[trigger] picked(dresses, draws, us) + extra
}

/// The region that `dress` gives for the draws `draw` and `u` (see `region_pick`).
pub fn pick_region(dress: &Dress, draw: u64, u: u64) -> (r: Option<Region>)
    requires
        u < UNIT,
    ensures
        r == region_pick(*dress, draw, u),
{
    if draw < dress.prob {
        let scale = match dress.scale_factor {
            ScaleFactor::Factor(f) => f,
            ScaleFactor::FactorR(f) => {
                proof {
                    assert(f as int * u as int <= f as int * UNIT) by (nonlinear_arith)
                        requires
                            u < UNIT,
                    ;
                    assert(f as int * u as int <= u64::MAX as int * UNIT) by (nonlinear_arith)
                        requires
                            u < UNIT,
                    ;
                    assert((f as int * u as int) / (UNIT as int) <= f) by (nonlinear_arith)
                        requires
                            f as int * u as int <= f as int * UNIT,
                    ;
                }
                ((f as u128) * (u as u128) / (UNIT as u128)) as u64
            },
        };
        Some(
            Region {
                low: dress.identity_condition_win_range.low,
                high: dress.identity_condition_win_range.high,
                scale,
            },
        )
    } else {
        None
    }
}

/// Draws the regional modifiers of one fresh candidate: each of the bucket's modifiers
/// with its probability (a redrawn scale uniformly below its factor), then every extra one.
pub fn pick_regions(heaven: &PigHeaven, extra: &Vec<Region>) -> (r: Vec<Region>)
    ensures
        regions_picked(heaven.pig_params@, extra@, r@),
{
    let ghost dresses = heaven.pig_params@;
    let ghost mut draws: Seq<u64> = seq![];
    let ghost mut us: Seq<u64> = seq![];
    let mut out: Vec<Region> = Vec::new();
    let mut k: usize = 0;
    while k < heaven.pig_params.len()
        invariant
            k <= dresses.len(),
            dresses == heaven.pig_params@,
            unit_draws(draws, k as int),
            unit_draws(us, k as int),
            out@ == picked(dresses.take(k as int), draws, us),
        decreases dresses.len() - k,
    {
        let draw = random_below(1_000_000) as u64;
        let u = random_below(1_000_000) as u64;
        let picked_region = pick_region(&heaven.pig_params[k], draw, u);
        proof {
            let d2 = draws.push(draw);
            let u2 = us.push(u);
            let t = dresses.take(k as int + 1);
            assert(t.drop_last() =~= dresses.take(k as int));
            assert(d2.take(k as int) =~= draws);
            assert(u2.take(k as int) =~= us);
            assert(t.last() == heaven.pig_params@[k as int]);
            draws = d2;
            us = u2;
        }
        match picked_region {
            Some(reg) => {
                out.push(reg);
            },
            None => {},
        }
        k = k + 1;
    }
    assert(dresses.take(k as int) =~= dresses);
    let ghost chosen = out@;
    let mut j: usize = 0;
    while j < extra.len()
        invariant
            j <= extra@.len(),
            out@ == chosen + extra@.take(j as int),
        decreases extra@.len() - j,
    {
        out.push(extra[j]);
        assert(extra@.take(j as int + 1) =~= extra@.take(j as int).push(extra@[j as int]));
        j = j + 1;
    }
    assert(extra@.take(j as int) =~= extra@);
    assert(out@ == picked(dresses, draws, us) + extra@);
    out
}

/// Builds one fresh candidate of the bucket from its kernel density at each payout: draws
/// its regional modifiers (`pick_regions`), a jitter seed and strength, and evaluates it
/// (`get_weights_no_weight_array`). `None` when the evaluation fails.
pub fn create_ancestor(heaven: &PigHeaven, pens: &Pens, density: &Vec<u64>) -> (r: Option<Pig>)
    requires
        heaven.wf(),
        density@.len() == heaven.wins@.len(),
    ensures
        exists|regions: Seq<Region>, seed: u32, strength: u64|
            seed <= 1_000_000_000 && strength < UNIT && regions_picked(heaven.pig_params@, pens.extra_params@, regions)
                && #[trigger] ancestor_of(heaven.wins@, density@, regions, seed, strength, r),
        r.is_some() ==> {
            let p = r.unwrap();
            &&& p.wf(heaven.wins@)
            &&& p.sum_dist <= ANCESTOR_MASS
            &&& p.random_seeds@.len() == 1
            &&& p.random_seeds@[0] <= 1_000_000_000
            &&& p.random_weights@[0] < UNIT
        },
{
    let regions = pick_regions(heaven, &pens.extra_params);
    let seed = random_below(1_000_000_001) as u32;
    let strength = random_below(1_000_000) as u64;
    let r = get_weights_no_weight_array(&heaven.wins, density, &regions, seed, strength);
    assert(ancestor_of(heaven.wins@, density@, regions@, seed, strength, r));
    r
}

/// Whether `c` is the bred child of some pair of the two pools.
pub open spec fn bred_from_pools(c: Pig, pens: Pens, h: PigHeaven) -> bool {
    exists|i: int, j: int|
        0 <= i < pens.pos_pigs@.len() && 0 <= j < pens.neg_pigs@.len() && c.weights@ == normalized(
            blend(
                (#[trigger] pens.pos_pigs@[i]).weights@,
                (#[trigger] pens.neg_pigs@[j]).weights@,
                above_coefficient(pens.neg_pigs@[j], h.avg_win as int),
                below_coefficient(pens.pos_pigs@[i], h.avg_win as int),
            ),
            CHILD_MASS as int,
        )
}

/// The weights of the child of the `i`-th above-target and `j`-th below-target candidates.
pub open spec fn pair_child_weights(pens: Pens, h: PigHeaven, i: int, j: int) -> Seq<u64> {
    normalized(
        blend(
            pens.pos_pigs@[i].weights@,
            pens.neg_pigs@[j].weights@,
            above_coefficient(pens.neg_pigs@[j], h.avg_win as int),
            below_coefficient(pens.pos_pigs@[i], h.avg_win as int),
        ),
        CHILD_MASS as int,
    )
}

/// Whether the child of every pair of the two pools meets the volatility bound.
pub open spec fn all_pairs_ok(pens: Pens, h: PigHeaven, min_ratio: u64, max_ratio: u64) -> bool {
    forall|i: int, j: int|
        0 <= i < pens.pos_pigs@.len() && 0 <= j < pens.neg_pigs@.len() ==> {
            let w = #[trigger] pair_child_weights(pens, h, i, j);
            volatility_ok(
                h.avg_win as int,
                median_from(h.wins@, w, sum_u64(w, w.len() as int), 0),
                min_ratio as int,
                max_ratio as int,
            )
        }
}

/// Breeds the bucket's population from its full pools: `|pos| * |neg|` children, each from a
/// uniformly drawn pair (`breed_pigs`), redrawn until its median meets the volatility bound.
/// Gives up with `ConvergenceFailed` when one child takes more than `max_attempts` draws.
pub fn breed_population(
    heaven: &PigHeaven,
    pens: &Pens,
    min_mean_to_median: u64,
    max_mean_to_median: u64,
    max_attempts: u64,
) -> (r: Result<Vec<Pig>, FarmError>)
    requires
        heaven.wf(),
        pens.wf(*heaven),
    ensures
        r.is_err() ==> r == Err::<Vec<Pig>, FarmError>(FarmError::ConvergenceFailed { iterations: max_attempts }),
        pens.pos_pigs@.len() == 0 || pens.neg_pigs@.len() == 0 ==> r.is_ok(),
        max_attempts > 0 && all_pairs_ok(*pens, *heaven, min_mean_to_median, max_mean_to_median) ==> r.is_ok(),
        r.is_ok() ==> {
            let v = r.unwrap();
            &&& v@.len() == pens.pos_pigs@.len() * pens.neg_pigs@.len()
            &&& (forall|k: int| 0 <= k < v@.len() ==> (#[trigger] v@[k]).wf(heaven.wins@))
            &&& (forall|k: int| 0 <= k < v@.len() ==> volatility_ok(
                heaven.avg_win as int,
                median_spec(heaven.wins@, #[trigger] v@[k]),
                min_mean_to_median as int,
                max_mean_to_median as int,
            ))
            &&& (forall|k: int| 0 <= k < v@.len() ==> bred_from_pools(#[trigger] v@[k], *pens, *heaven))
        },
{
    let np = pens.pos_pigs.len();
    let nn = pens.neg_pigs.len();
    proof {
        assert(np as int * nn as int <= u32::MAX as int * u32::MAX as int) by (nonlinear_arith)
            requires
                np <= u32::MAX,
                nn <= u32::MAX,
        ;
    }
    let total: u64 = (np as u64) * (nn as u64);
    let mut out: Vec<Pig> = Vec::new();
    if np == 0 || nn == 0 {
        proof {
            assert(np as int * nn as int == 0) by (nonlinear_arith)
                requires
                    np == 0 || nn == 0,
            ;
        }
        return Ok(out);
    }
    let mut count: u64 = 0;
    while count < total
        invariant
            count <= total,
            total == np * nn,
            np == pens.pos_pigs@.len(),
            nn == pens.neg_pigs@.len(),
            np > 0,
            nn > 0,
            heaven.wf(),
            pens.wf(*heaven),
            out@.len() == count,
            forall|k: int| 0 <= k < out@.len() ==> (#[trigger] out@[k]).wf(heaven.wins@),
            forall|k: int| 0 <= k < out@.len() ==> volatility_ok(
                heaven.avg_win as int,
                median_spec(heaven.wins@, #[trigger] out@[k]),
                min_mean_to_median as int,
                max_mean_to_median as int,
            ),
            forall|k: int| 0 <= k < out@.len() ==> bred_from_pools(#[trigger] out@[k], *pens, *heaven),
        decreases total - count,
    {
        let mut attempts: u64 = 0;
        let mut accepted: Option<Pig> = None;
        while accepted.is_none()
            invariant
                np == pens.pos_pigs@.len(),
                nn == pens.neg_pigs@.len(),
                np > 0,
                nn > 0,
                heaven.wf(),
                pens.wf(*heaven),
                attempts <= max_attempts,
                max_attempts > 0 && all_pairs_ok(*pens, *heaven, min_mean_to_median, max_mean_to_median)
                    && accepted.is_none() ==> attempts == 0,
                accepted.is_some() ==> {
                    let c = accepted.unwrap();
                    &&& c.wf(heaven.wins@)
                    &&& volatility_ok(
                        heaven.avg_win as int,
                        median_spec(heaven.wins@, c),
                        min_mean_to_median as int,
                        max_mean_to_median as int,
                    )
                    &&& bred_from_pools(c, *pens, *heaven)
                },
            decreases max_attempts - attempts + (if accepted.is_none() { 1int } else { 0int }),
        {
            if attempts >= max_attempts {
                return Err(FarmError::ConvergenceFailed { iterations: max_attempts });
            }
            attempts = attempts + 1;
            let i = random_below(np);
            let j = random_below(nn);
            let pos = &pens.pos_pigs[i];
            let neg = &pens.neg_pigs[j];
            assert(pos_ok(pens.pos_pigs@[i as int], *heaven));
            assert(neg_ok(pens.neg_pigs@[j as int], *heaven));
            let child = breed_pigs(pos, neg, &heaven.wins, heaven.avg_win);
            proof {
                if max_attempts > 0 && all_pairs_ok(*pens, *heaven, min_mean_to_median, max_mean_to_median) {
                    let w = pair_child_weights(*pens, *heaven, i as int, j as int);
                    assert(child.weights@ == w);
                    assert(median_spec(heaven.wins@, child) == median_from(heaven.wins@, w, sum_u64(w, w.len() as int), 0));
                }
            }
            if mean_to_median_ok(&heaven.wins, &child, heaven.avg_win, min_mean_to_median, max_mean_to_median) {
                assert(bred_from_pools(child, *pens, *heaven));
                accepted = Some(child);
            }
        }
        match accepted {
            Some(c) => {
                out.push(c);
            },
            None => {},
        }
        count = count + 1;
    }
    Ok(out)
}

/// The generation setting of a distribution bucket: its group payouts, the modifiers given,
/// and its target average win in currency (`avg_win * bet_amount`). `None` when the bucket
/// has no outcomes or a payout or the target exceeds `MAX_PAYOUT`.
pub fn pig_heaven_for(fence: &Fence, pig_params: Vec<Dress>, bet_amount: u64, num_pigs: u32) -> (r: Option<PigHeaven>)
    ensures
        r.is_some() ==> {
            let h = r.unwrap();
            &&& h.wf()
            &&& h.wins@ == crate::show::group_wins(fence.win_dist@)
            &&& h.avg_win as int == fence.avg_win as int * bet_amount as int / (UNIT as int)
            &&& h.pig_params == pig_params
            &&& h.num_pigs == num_pigs
            &&& h.rtp == fence.rtp
            &&& h.bet_amount == bet_amount
        },
        r.is_none() ==> fence.win_dist@.len() == 0 || !payouts_in_range(crate::show::group_wins(fence.win_dist@))
            || fence.avg_win as int * bet_amount as int / (UNIT as int) > MAX_PAYOUT,
{
    let n = fence.win_dist.len();
    if n == 0 {
        return None;
    }
    let mut wins: Vec<u64> = Vec::new();
    let mut i: usize = 0;
    while i < n
        invariant
            i <= n,
            n == fence.win_dist@.len(),
            wins@ == crate::show::group_wins(fence.win_dist@).take(i as int),
            payouts_in_range(wins@),
        decreases n - i,
    {
        let w = fence.win_dist[i].win;
        if w > MAX_PAYOUT {
            proof {
                assert(crate::show::group_wins(fence.win_dist@)[i as int] == w);
            }
            return None;
        }
        wins.push(w);
        assert(crate::show::group_wins(fence.win_dist@).take(i as int + 1) =~= crate::show::group_wins(fence.win_dist@).take(i as int).push(w));
        i = i + 1;
    }
    assert(crate::show::group_wins(fence.win_dist@).take(i as int) =~= crate::show::group_wins(fence.win_dist@));
    proof {
        assert(fence.avg_win as int * bet_amount as int <= u64::MAX as int * u64::MAX as int) by (nonlinear_arith);
    }
    let avg: u128 = (fence.avg_win as u128) * (bet_amount as u128) / (UNIT as u128);
    if avg > MAX_PAYOUT as u128 {
        return None;
    }
    let min_win = wins[0];
    let max_win = wins[n - 1];
    Some(
        PigHeaven {
            bet_amount,
            wins,
            rtp: fence.rtp,
            pig_params,
            num_pigs,
            max_win,
            min_win,
            avg_win: avg as u64,
        },
    )
}

} // verus!
