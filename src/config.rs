use vstd::prelude::*;

verus! {

/// An inclusive payout range, in micro-units.
#[derive(Clone, Copy, Debug, PartialEq, Eq, Structural)]
pub struct WinRange {
    pub low: u64,
    pub high: u64,
}

/// One named tag constraint, or one tag of a recorded outcome group.
#[derive(Clone, Debug)]
pub struct SearchKey {
    pub name: String,
    pub value: String,
}

/// A recorded group of outcomes sharing a set of tags.
#[derive(Clone, Debug)]
pub struct SearchResult {
    pub search: Vec<SearchKey>,
    pub times_triggered: u32,
    pub book_ids: Vec<u32>,
}

/// How a bucket picks its outcomes: tag constraints, or a pinned payout range (in
/// micro-units; a negative bound means none), possibly negated.
#[derive(Clone, Debug)]
pub struct IdentityCondition {
    pub search: Vec<SearchKey>,
    pub opposite: bool,
    pub win_range_start: i64,
    pub win_range_end: i64,
}

/// A bet mode: its cost, target return to player and largest win, in micro-units.
#[derive(Clone, Debug)]
pub struct BetMode {
    pub bet_mode: String,
    pub cost: u64,
    pub rtp: u64,
    pub max_win: u64,
}

/// A bucket as configured: hit rate, return to player and average win as decimal text
/// (the hit rate may be `x`), and the volatility bounds.
#[derive(Clone, Debug)]
pub struct FenceJson {
    pub name: String,
    pub hr: Option<String>,
    pub rtp: Option<String>,
    pub avg_win: Option<String>,
    pub identity_condition: IdentityCondition,
    pub min_mean_to_median: Option<String>,
    pub max_mean_to_median: Option<String>,
}

#[derive(Clone, Debug)]
pub struct FencesInfo {
    pub bet_mode: String,
    pub fences: Vec<FenceJson>,
}

/// A modifier as configured: its bucket, scale text (`<decimal>` or `<decimal>r`), payout
/// range and probability (micro-units).
#[derive(Clone, Debug)]
pub struct DressJson {
    pub fence: String,
    pub scale_factor: String,
    pub identity_condition_force: Option<String>,
    pub identity_condition_win_range: Option<WinRange>,
    pub prob: Option<u64>,
}

#[derive(Clone, Debug)]
pub struct DressesInfo {
    pub bet_mode: String,
    pub dresses: Vec<DressJson>,
}

#[derive(Clone, Debug)]
pub struct BiasInfo {
    pub bet_mode: String,
    pub bias: Vec<BiasJson>,
}

/// With probability `prob`, a kernel mean of the bucket `criteria` is drawn from `range`.
#[derive(Clone, Debug)]
pub struct BiasJson {
    pub criteria: String,
    pub range: WinRange,
    pub prob: u64,
}

#[derive(Clone, Debug)]
pub struct ConfigData {
    pub game_id: String,
    pub bet_modes: Vec<BetMode>,
    pub fences: Vec<FencesInfo>,
    pub dresses: Vec<DressesInfo>,
    pub bias: Vec<BiasInfo>,
}

/// One outcome of the catalog: its id, weight and payout (micro-units).
#[derive(Clone, Copy, Debug, PartialEq, Eq, Structural)]
pub struct LookUpTableEntry {
    pub id: u32,
    pub weight: u64,
    pub win: u64,
}

/// The run settings; ratios and weights in micro-units.
#[derive(Clone, Debug)]
pub struct SetupConfig {
    pub game_name: String,
    pub bet_type: String,
    pub num_show_pigs: u32,
    pub num_pigs_per_fence: u32,
    pub threads_for_fence_construction: u32,
    pub threads_for_show_construction: u32,
    pub score_type: String,
    pub test_spins: Vec<u32>,
    pub test_spins_weights: Vec<u64>,
    pub simulation_trials: u32,
    pub run_1000_batch: bool,
    pub path_to_games: String,
    pub min_mean_to_median: u64,
    pub max_mean_to_median: u64,
    pub pmb_rtp: u64,
    pub max_trial_dist: u32,
}

/// Why a run cannot go on.
#[derive(Clone, Copy, Debug, PartialEq, Eq, Structural)]
pub enum FarmError {
    /// A numeric text of the configuration is not a decimal that fits.
    BadNumber,
    /// A derived target does not fit in 64 bits.
    NumberTooLarge,
    /// The hit-rate masses of the buckets reach one.
    ProbabilityOverflow,
    /// A single-value bucket's payout is not in the catalog.
    PayoutMissing,
    /// A sampling loop gave up after `iterations` attempts.
    ConvergenceFailed { iterations: u64 },
    /// A weight table has no mass to sample from.
    InvalidWeights,
}

/// The position of the first bet mode named `bet_type`.
pub fn bet_mode_index(config: &ConfigData, bet_type: &String) -> (r: Option<usize>)
    ensures
        match r {
            Some(i) => i < config.bet_modes@.len() && config.bet_modes@[i as int].bet_mode@ == bet_type@
                && forall|k: int| 0 <= k < i ==> #[trigger] config.bet_modes@[k].bet_mode@ != bet_type@,
            None => forall|k: int| 0 <= k < config.bet_modes@.len() ==> #[trigger] config.bet_modes@[k].bet_mode@ != bet_type@,
        },
{
    let mut i: usize = 0;
    while i < config.bet_modes.len()
        invariant
            i <= config.bet_modes@.len(),
            forall|k: int| 0 <= k < i ==> #[trigger] config.bet_modes@[k].bet_mode@ != bet_type@,
        decreases config.bet_modes@.len() - i,
    {
        if config.bet_modes[i].bet_mode == *bet_type {
            return Some(i);
        }
        i = i + 1;
    }
    None
}

/// The position of the first bucket list of the bet mode `bet_type`.
pub fn fences_index(config: &ConfigData, bet_type: &String) -> (r: Option<usize>)
    ensures
        match r {
            Some(i) => i < config.fences@.len() && config.fences@[i as int].bet_mode@ == bet_type@
                && forall|k: int| 0 <= k < i ==> #[trigger] config.fences@[k].bet_mode@ != bet_type@,
            None => forall|k: int| 0 <= k < config.fences@.len() ==> #[trigger] config.fences@[k].bet_mode@ != bet_type@,
        },
{
    let mut i: usize = 0;
    while i < config.fences.len()
        invariant
            i <= config.fences@.len(),
            forall|k: int| 0 <= k < i ==> #[trigger] config.fences@[k].bet_mode@ != bet_type@,
        decreases config.fences@.len() - i,
    {
        if config.fences[i].bet_mode == *bet_type {
            return Some(i);
        }
        i = i + 1;
    }
    None
}

/// The position of the first modifier list of the bet mode `bet_type`.
pub fn dresses_index(config: &ConfigData, bet_type: &String) -> (r: Option<usize>)
    ensures
        match r {
            Some(i) => i < config.dresses@.len() && config.dresses@[i as int].bet_mode@ == bet_type@
                && forall|k: int| 0 <= k < i ==> #[trigger] config.dresses@[k].bet_mode@ != bet_type@,
            None => forall|k: int| 0 <= k < config.dresses@.len() ==> #[trigger] config.dresses@[k].bet_mode@ != bet_type@,
        },
{
    let mut i: usize = 0;
    while i < config.dresses.len()
        invariant
            i <= config.dresses@.len(),
            forall|k: int| 0 <= k < i ==> #[trigger] config.dresses@[k].bet_mode@ != bet_type@,
        decreases config.dresses@.len() - i,
    {
        if config.dresses[i].bet_mode == *bet_type {
            return Some(i);
        }
        i = i + 1;
    }
    None
}

/// The position of the first bias list of the bet mode `bet_type`.
pub fn bias_index(config: &ConfigData, bet_type: &String) -> (r: Option<usize>)
    ensures
        match r {
            Some(i) => i < config.bias@.len() && config.bias@[i as int].bet_mode@ == bet_type@
                && forall|k: int| 0 <= k < i ==> #[trigger] config.bias@[k].bet_mode@ != bet_type@,
            None => forall|k: int| 0 <= k < config.bias@.len() ==> #[trigger] config.bias@[k].bet_mode@ != bet_type@,
        },
{
    let mut i: usize = 0;
    while i < config.bias.len()
        invariant
            i <= config.bias@.len(),
            forall|k: int| 0 <= k < i ==> #[trigger] config.bias@[k].bet_mode@ != bet_type@,
        decreases config.bias@.len() - i,
    {
        if config.bias[i].bet_mode == *bet_type {
            return Some(i);
        }
        i = i + 1;
    }
    None
}

/// The first bias rule for the bucket `name`, if any.
pub fn bias_for(rules: &Vec<BiasJson>, name: &String) -> (r: Option<usize>)
    ensures
        match r {
            Some(i) => i < rules@.len() && rules@[i as int].criteria@ == name@
                && forall|k: int| 0 <= k < i ==> #[trigger] rules@[k].criteria@ != name@,
            None => forall|k: int| 0 <= k < rules@.len() ==> #[trigger] rules@[k].criteria@ != name@,
        },
{
    let mut i: usize = 0;
    while i < rules.len()
        invariant
            i <= rules@.len(),
            forall|k: int| 0 <= k < i ==> #[trigger] rules@[k].criteria@ != name@,
        decreases rules@.len() - i,
    {
        if rules[i].criteria == *name {
            return Some(i);
        }
        i = i + 1;
    }
    None
}

} // verus!
