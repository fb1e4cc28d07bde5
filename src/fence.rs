use vstd::prelude::*;
use crate::units::{UNIT, MASS_ONE};
use crate::decimal::{decimal_value, parse_micro};
use crate::config::{DressJson, FarmError, FenceJson, IdentityCondition, LookUpTableEntry, SearchKey, SearchResult, WinRange};

verus! {

/// A modifier's multiplier in micro-units: fixed, or redrawn uniformly below it for
/// every candidate.
#[derive(Clone, Copy, Debug, PartialEq, Eq, Structural)]
pub enum ScaleFactor {
    Factor(u64),
    FactorR(u64),
}

/// A modifier of one bucket's density over a payout range.
#[derive(Clone, Debug)]
pub struct Dress {
    pub fence: String,
    pub scale_factor: ScaleFactor,
    pub identity_condition_win_range: WinRange,
    pub prob: u64,
}

/// The outcome ids of one bucket that pay `win`.
#[derive(Clone, Debug)]
pub struct WinGroup {
    pub win: u64,
    pub book_ids: Vec<u32>,
}

/// A bucket: its resolved targets (micro-units; a hit rate of zero is still to be
/// resolved), its probability mass out of `MASS_ONE`, its outcomes and modifiers.
#[derive(Clone, Debug)]
pub struct Fence {
    pub name: String,
    pub hr: u64,
    pub rtp: u64,
    pub avg_win: u64,
    pub mass: u64,
    pub complement: bool,
    pub identity_condition: IdentityCondition,
    pub win_type: bool,
    pub dresses: Vec<Dress>,
    pub wins: Vec<u64>,
    pub outcomes: Vec<LookUpTableEntry>,
    pub win_dist: Vec<WinGroup>,
    pub opposite_statement: bool,
    pub min_mean_to_median: u64,
    pub max_mean_to_median: u64,
}

/// The text `x`, which marks a hit rate to be resolved from the other buckets.
pub open spec fn is_x(s: Seq<char>) -> bool {
    s == seq!['x']
}

/// The micro-unit value of an optional decimal text, `default` when absent; `None` when
/// the text is no decimal that fits in 64 bits.
pub open spec fn text_value(o: Option<String>, default: u64) -> Option<u64> {
    match o {
        None => Some(default),
        Some(s) => if decimal_value(s@).is_some() && decimal_value(s@).unwrap() <= u64::MAX {
            Some(decimal_value(s@).unwrap() as u64)
        } else {
            None
        },
    }
}

pub open spec fn hr_is_x(f: FenceJson) -> bool {
    f.hr.is_some() && is_x(f.hr.unwrap()@)
}

/// The hit rate as configured: zero when absent or `x`.
pub open spec fn hr_text_value(f: FenceJson) -> Option<u64> {
    if hr_is_x(f) {
        Some(0)
    } else {
        text_value(f.hr, 0)
    }
}

/// Whether every numeric text of the bucket reads as a decimal.
pub open spec fn numbers_read(f: FenceJson) -> bool {
    &&& hr_text_value(f).is_some()
    &&& text_value(f.rtp, 0).is_some()
    &&& text_value(f.avg_win, 0).is_some()
    &&& text_value(f.min_mean_to_median, 0).is_some()
    &&& text_value(f.max_mean_to_median, (10 * UNIT) as u64).is_some()
}

/// Hit rate, return to player and average win after back-solving the one that is
/// missing: `avg = hr * rtp`, else `rtp = avg / hr`, else `hr = avg / (rtp * bet)`.
pub open spec fn back_solved(hr: int, rtp: int, avg: int, marked_x: bool, bet: int) -> (int, int, int) {
    if !marked_x && hr > 0 && rtp > 0 {
        (hr, rtp, hr * rtp / (UNIT as int))
    } else if !marked_x && hr > 0 && avg > 0 {
        (hr, avg * UNIT / hr, avg)
    } else if !marked_x && hr == 0 && rtp > 0 && avg > 0 && bet > 0 {
        (avg * UNIT * UNIT / (rtp * bet), rtp, avg)
    } else {
        (hr, rtp, avg)
    }
}

/// The targets of a bucket whose numbers read.
pub open spec fn fence_targets(f: FenceJson, bet: u64) -> (int, int, int) {
    back_solved(
        hr_text_value(f).unwrap() as int,
        text_value(f.rtp, 0).unwrap() as int,
        text_value(f.avg_win, 0).unwrap() as int,
        hr_is_x(f),
        bet as int,
    )
}

/// `a / d` rounded to the nearest integer, halves up.
pub open spec fn rounded_div(a: int, d: int) -> int {
    (2 * a + d) / (2 * d)
}

/// Probability mass of a bucket hit once in `hr` spins: `MASS_ONE / hr`, rounded.
pub open spec fn hit_mass(hr: int) -> int {
    if hr > 0 {
        rounded_div(MASS_ONE * UNIT, hr)
    } else {
        0
    }
}

/// Whether a bucket pins one payout value.
pub open spec fn pins_payout(ic: IdentityCondition) -> bool {
    ic.win_range_start >= 0 && ic.win_range_end == ic.win_range_start
}

/// The modifier that a configured modifier becomes.
pub open spec fn dress_of(j: DressJson) -> Dress {
    Dress {
        fence: j.fence,
        scale_factor: scale_factor_of(j.scale_factor@),
        identity_condition_win_range: match j.identity_condition_win_range {
            Some(w) => w,
            None => WinRange { low: 0, high: 0 },
        },
        prob: match j.prob {
            Some(p) => p,
            None => UNIT,
        },
    }
}

/// The modifiers of the bucket `name`, in configuration order.
pub open spec fn dresses_for(name: Seq<char>, js: Seq<DressJson>) -> Seq<Dress>
    decreases js.len(),
{
    if js.len() == 0 {
        seq![]
    } else if js.last().fence@ == name {
        dresses_for(name, js.drop_last()).push(dress_of(js.last()))
    } else {
        dresses_for(name, js.drop_last())
    }
}

/// `s` without its trailing `r` characters.
pub open spec fn trim_r(s: Seq<char>) -> Seq<char>
    decreases s.len(),
{
    if s.len() > 0 && s.last() == 'r' {
        trim_r(s.drop_last())
    } else {
        s
    }
}

pub open spec fn reads(s: Seq<char>) -> bool {
    decimal_value(s).is_some() && decimal_value(s).unwrap() <= u64::MAX
}

/// A scale text: `<decimal>r` redraws, `<decimal>` is fixed, anything else is a fixed one.
pub open spec fn scale_factor_of(s: Seq<char>) -> ScaleFactor {
    if s.len() > 0 && s.last() == 'r' && reads(trim_r(s)) {
        ScaleFactor::FactorR(decimal_value(trim_r(s)).unwrap() as u64)
    } else if reads(s) {
        ScaleFactor::Factor(decimal_value(s).unwrap() as u64)
    } else {
        ScaleFactor::Factor(UNIT)
    }
}

/// Whether two texts are equal, character by character.
pub fn same_text(a: &str, b: &str) -> (r: bool)
    ensures
        r == (a@ == b@),
{
    let n = a.unicode_len();
    let m = b.unicode_len();
    if n != m {
        return false;
    }
    let mut i: usize = 0;
    while i < n
        invariant
            n == a@.len(),
            m == b@.len(),
            n == m,
            i <= n,
            forall|k: int| 0 <= k < i ==> a@[k] == b@[k],
        decreases n - i,
    {
        if a.get_char(i) != b.get_char(i) {
            return false;
        }
        i = i + 1;
    }
    assert(a@ =~= b@);
    true
}

fn read_text(o: &Option<String>, default: u64) -> (r: Option<u64>)
    ensures
        r == text_value(*o, default),
{
    match o {
        None => Some(default),
        Some(s) => parse_micro(s.as_str()),
    }
}

/// Reads a modifier's scale text (see `scale_factor_of`).
pub fn parse_scale_factor(scale_factor: &str) -> (r: ScaleFactor)
    ensures
        r == scale_factor_of(scale_factor@),
{
    let n = scale_factor.unicode_len();
    if n > 0 && scale_factor.get_char(n - 1) == 'r' {
        let mut e: usize = n;
        assert(scale_factor@.take(n as int) =~= scale_factor@);
        while e > 0 && scale_factor.get_char(e - 1) == 'r'
            invariant
                e <= n,
                n == scale_factor@.len(),
                trim_r(scale_factor@) == trim_r(scale_factor@.take(e as int)),
            decreases e,
        {
            assert(scale_factor@.take(e as int).drop_last() =~= scale_factor@.take(e - 1));
            e = e - 1;
        }
        let head = scale_factor.substring_char(0, e);
        assert(head@ =~= scale_factor@.take(e as int));
        proof {
            if e > 0 {
                assert(scale_factor@.take(e as int).last() != 'r');
            }
            assert(trim_r(scale_factor@.take(e as int)) == scale_factor@.take(e as int));
        }
        if let Some(v) = parse_micro(head) {
            return ScaleFactor::FactorR(v);
        }
    }
    match parse_micro(scale_factor) {
        Some(v) => ScaleFactor::Factor(v),
        None => ScaleFactor::Factor(UNIT),
    }
}

/// The modifiers of the bucket `name` (see `dresses_for`).
pub fn collect_dresses(name: &String, json_dresses: &Vec<DressJson>) -> (r: Vec<Dress>)
    ensures
        r@ == dresses_for(name@, json_dresses@),
{
    let mut out: Vec<Dress> = Vec::new();
    let mut i: usize = 0;
    while i < json_dresses.len()
        invariant
            i <= json_dresses@.len(),
            out@ == dresses_for(name@, json_dresses@.take(i as int)),
        decreases json_dresses@.len() - i,
    {
        let j = &json_dresses[i];
        assert(json_dresses@.take(i as int + 1).drop_last() =~= json_dresses@.take(i as int));
        if j.fence == *name {
            let range = match j.identity_condition_win_range {
                Some(w) => w,
                None => WinRange { low: 0, high: 0 },
            };
            let prob = match j.prob {
                Some(p) => p,
                None => UNIT,
            };
            out.push(
                Dress {
                    fence: j.fence.clone(),
                    scale_factor: parse_scale_factor(j.scale_factor.as_str()),
                    identity_condition_win_range: range,
                    prob,
                },
            );
        }
        i = i + 1;
    }
    assert(json_dresses@.take(i as int) =~= json_dresses@);
    out
}

/// The error that reading a bucket meets, if any, with `total` the mass of the buckets
/// read before it.
pub open spec fn fence_error(f: FenceJson, bet: u64, total: int) -> Option<FarmError> {
    if !numbers_read(f) {
        Some(FarmError::BadNumber)
    } else {
        let t = fence_targets(f, bet);
        if t.0 > u64::MAX || t.1 > u64::MAX || t.2 > u64::MAX {
            Some(FarmError::NumberTooLarge)
        } else if total + hit_mass(t.0) >= MASS_ONE {
            Some(FarmError::ProbabilityOverflow)
        } else {
            None
        }
    }
}

/// Reads a configured bucket: parses its numbers (an absent minimum volatility ratio is 0,
/// an absent maximum 10), back-solves the missing target (`back_solved`), adds its hit
/// mass to `total_prob`, and collects its modifiers. The mass of the buckets read so far
/// must stay below `MASS_ONE`.
pub fn parse_fence_info(
    fence: FenceJson,
    total_prob: &mut u64,
    bet_amount: u64,
    json_dresses: &Vec<DressJson>,
) -> (r: Result<Fence, FarmError>)
    ensures
        fence_error(fence, bet_amount, *old(total_prob) as int).is_some() ==> r == Err::<Fence, FarmError>(
            fence_error(fence, bet_amount, *old(total_prob) as int).unwrap(),
        ) && *final(total_prob) == *old(total_prob),
        fence_error(fence, bet_amount, *old(total_prob) as int).is_none() ==> r.is_ok() && {
            let f = r.unwrap();
            let t = fence_targets(fence, bet_amount);
            &&& f.hr as int == t.0
            &&& f.rtp as int == t.1
            &&& f.avg_win as int == t.2
            &&& f.mass as int == hit_mass(t.0)
            &&& !f.complement
            &&& *final(total_prob) as int == *old(total_prob) + hit_mass(t.0)
            &&& f.name == fence.name
            &&& f.identity_condition == fence.identity_condition
            &&& f.win_type == pins_payout(fence.identity_condition)
            &&& f.wins@ == (if f.win_type {
                seq![fence.identity_condition.win_range_start as u64]
            } else {
                Seq::<u64>::empty()
            })
            &&& f.dresses@ == dresses_for(fence.name@, json_dresses@)
            &&& f.outcomes@.len() == 0
            &&& f.win_dist@.len() == 0
            &&& !f.opposite_statement
            &&& f.min_mean_to_median == text_value(fence.min_mean_to_median, 0).unwrap()
            &&& f.max_mean_to_median == text_value(fence.max_mean_to_median, (10 * UNIT) as u64).unwrap()
        },
{
    let marked = match &fence.hr {
        Some(s) => same_text(s.as_str(), "x"),
        None => false,
    };
    proof {
        reveal_strlit("x");
        assert("x"@ =~= seq!['x']);
    }
    assert(marked == hr_is_x(fence));
    let hr_v = if marked {
        Some(0u64)
    } else {
        read_text(&fence.hr, 0)
    };
    let rtp_v = read_text(&fence.rtp, 0);
    let avg_v = read_text(&fence.avg_win, 0);
    let min_v = read_text(&fence.min_mean_to_median, 0);
    let max_v = read_text(&fence.max_mean_to_median, 10 * UNIT);
    if hr_v.is_none() || rtp_v.is_none() || avg_v.is_none() || min_v.is_none() || max_v.is_none() {
        return Err(FarmError::BadNumber);
    }
    let hr0 = hr_v.unwrap();
    let rtp0 = rtp_v.unwrap();
    let avg0 = avg_v.unwrap();
    proof {
        assert(hr0 as int * rtp0 as int <= u64::MAX as int * u64::MAX as int) by (nonlinear_arith);
        assert(avg0 as int * UNIT <= u64::MAX as int * UNIT) by (nonlinear_arith);
        assert(avg0 as int * UNIT * UNIT <= u64::MAX as int * UNIT * UNIT) by (nonlinear_arith);
        assert(rtp0 as int * bet_amount as int <= u64::MAX as int * u64::MAX as int) by (nonlinear_arith);
    }
    let (hr, rtp, avg): (u128, u128, u128) = if !marked && hr0 > 0 && rtp0 > 0 {
        (hr0 as u128, rtp0 as u128, (hr0 as u128) * (rtp0 as u128) / (UNIT as u128))
    } else if !marked && hr0 > 0 && avg0 > 0 {
        (hr0 as u128, (avg0 as u128) * (UNIT as u128) / (hr0 as u128), avg0 as u128)
    } else if !marked && hr0 == 0 && rtp0 > 0 && avg0 > 0 && bet_amount > 0 {
        proof {
            assert(rtp0 as int * bet_amount as int > 0) by (nonlinear_arith)
                requires
                    rtp0 > 0,
                    bet_amount > 0,
            ;
        }
        (
            (avg0 as u128) * (UNIT as u128) * (UNIT as u128) / ((rtp0 as u128) * (bet_amount as u128)),
            rtp0 as u128,
            avg0 as u128,
        )
    } else {
        (hr0 as u128, rtp0 as u128, avg0 as u128)
    };
    if hr > u64::MAX as u128 || rtp > u64::MAX as u128 || avg > u64::MAX as u128 {
        return Err(FarmError::NumberTooLarge);
    }
    let mass: u128 = if hr > 0 {
        (2 * (MASS_ONE as u128) * (UNIT as u128) + hr) / (2 * hr)
    } else {
        0
    };
    if (*total_prob as u128) + mass >= MASS_ONE as u128 {
        return Err(FarmError::ProbabilityOverflow);
    }
    *total_prob = *total_prob + mass as u64;
    let dresses = collect_dresses(&fence.name, json_dresses);
    let win_type = fence.identity_condition.win_range_start >= 0
        && fence.identity_condition.win_range_end == fence.identity_condition.win_range_start;
    let wins: Vec<u64> = if win_type {
        vec![fence.identity_condition.win_range_start as u64]
    } else {
        Vec::new()
    };
    proof {
        if win_type {
            assert(wins@ =~= seq![fence.identity_condition.win_range_start as u64]);
        } else {
            assert(wins@ =~= Seq::<u64>::empty());
        }
    }
    Ok(
        Fence {
            name: fence.name,
            hr: hr as u64,
            rtp: rtp as u64,
            avg_win: avg as u64,
            mass: mass as u64,
            complement: false,
            identity_condition: fence.identity_condition,
            win_type,
            dresses,
            wins,
            outcomes: Vec::new(),
            win_dist: Vec::new(),
            opposite_statement: false,
            min_mean_to_median: min_v.unwrap(),
            max_mean_to_median: max_v.unwrap(),
        },
    )
}

/// The hit rate of the bucket that takes the mass the others leave: `1 / (1 - total)`,
/// with `total` out of `MASS_ONE`.
pub open spec fn complement_hr(total: int) -> int {
    MASS_ONE * UNIT / (MASS_ONE - total)
}

/// Resolves a bucket whose hit rate is still zero: it takes the mass `MASS_ONE - total_prob`
/// left by the others, its hit rate becomes `1 / (1 - total)` and its average win
/// `hr * rtp`. Other buckets are left as they are.
pub fn resolve_unknown_hit_rate(fence: &mut Fence, total_prob: u64) -> (r: Result<(), FarmError>)
    ensures
        old(fence).hr != 0 ==> r.is_ok() && *final(fence) == *old(fence),
        old(fence).hr == 0 && total_prob >= MASS_ONE ==> r == Err::<(), FarmError>(FarmError::ProbabilityOverflow)
            && *final(fence) == *old(fence),
        old(fence).hr == 0 && total_prob < MASS_ONE ==> {
            let h = complement_hr(total_prob as int);
            let a = h * old(fence).rtp / (UNIT as int);
            if h > u64::MAX || a > u64::MAX {
                r == Err::<(), FarmError>(FarmError::NumberTooLarge) && *final(fence) == *old(fence)
            } else {
                &&& r.is_ok()
                &&& final(fence).hr as int == h
                &&& final(fence).mass as int == MASS_ONE - total_prob
                &&& final(fence).complement
                &&& final(fence).avg_win as int == a
                &&& final(fence).rtp == old(fence).rtp
                &&& final(fence).name == old(fence).name
                &&& final(fence).win_type == old(fence).win_type
                &&& final(fence).dresses == old(fence).dresses
                &&& final(fence).wins == old(fence).wins
                &&& final(fence).outcomes == old(fence).outcomes
                &&& final(fence).win_dist == old(fence).win_dist
                &&& final(fence).identity_condition == old(fence).identity_condition
                &&& final(fence).min_mean_to_median == old(fence).min_mean_to_median
                &&& final(fence).max_mean_to_median == old(fence).max_mean_to_median
            }
        },
{
    if fence.hr != 0 {
        return Ok(());
    }
    if total_prob >= MASS_ONE {
        return Err(FarmError::ProbabilityOverflow);
    }
    let rest: u128 = (MASS_ONE - total_prob) as u128;
    let h: u128 = (MASS_ONE as u128) * (UNIT as u128) / rest;
    if h > u64::MAX as u128 {
        return Err(FarmError::NumberTooLarge);
    }
    proof {
        assert(h as int * fence.rtp as int <= u64::MAX as int * u64::MAX as int) by (nonlinear_arith)
            requires
                h <= u64::MAX,
        ;
    }
    let a: u128 = h * (fence.rtp as u128) / (UNIT as u128);
    if a > u64::MAX as u128 {
        return Err(FarmError::NumberTooLarge);
    }
    fence.hr = h as u64;
    fence.mass = (MASS_ONE - total_prob) as u64;
    fence.complement = true;
    fence.avg_win = a as u64;
    Ok(())
}

/// The text `None`, which leaves a tag constraint open.
pub open spec fn is_none_text(s: Seq<char>) -> bool {
    s == seq!['N', 'o', 'n', 'e']
}

/// Whether a group carries the tag `k` with its value.
pub open spec fn key_found(k: SearchKey, o: SearchResult) -> bool {
    exists|j: int| 0 <= j < o.search@.len() && (#[trigger] o.search@[j]).name@ == k.name@ && o.search@[j].value@ == k.value@
}

/// Whether a recorded group meets every constraint of `ic` that is not `None`, negated
/// when `ic` is opposite.
pub open spec fn condition_met(ic: IdentityCondition, o: SearchResult) -> bool {
    (forall|i: int| 0 <= i < ic.search@.len() && !is_none_text((#[trigger] ic.search@[i]).value@)
        ==> key_found(ic.search@[i], o)) != ic.opposite
}

/// A distribution bucket with no condition at all takes the whole remaining catalog.
pub open spec fn takes_all(ic: IdentityCondition) -> bool {
    ic.search@.len() == 0 && ic.win_range_start < 0 && !ic.opposite
}

/// Whether the outcome `e` falls into a bucket.
pub open spec fn claims(win_type: bool, ic: IdentityCondition, options: Seq<SearchResult>, e: LookUpTableEntry) -> bool {
    if win_type {
        (e.win as int == ic.win_range_start) != ic.opposite
    } else if takes_all(ic) {
        true
    } else {
        exists|o: int| 0 <= o < options.len() && condition_met(ic, #[trigger] options[o]) && options[o].book_ids@.contains(e.id)
    }
}

/// Whether `groups` has strictly increasing payouts, each group non-empty.
pub open spec fn groups_sorted(groups: Seq<WinGroup>) -> bool {
    &&& (forall|a: int, b: int| 0 <= a < b < groups.len() ==> (#[trigger] groups[a]).win < (#[trigger] groups[b]).win)
    &&& (forall|g: int| 0 <= g < groups.len() ==> (#[trigger] groups[g]).book_ids@.len() > 0)
}

/// Whether one of `outcomes` pays `win` and has the id `id`.
pub open spec fn sourced(outcomes: Seq<LookUpTableEntry>, win: u64, id: u32) -> bool {
    exists|i: int| 0 <= i < outcomes.len() && (#[trigger] outcomes[i]).win == win && outcomes[i].id == id
}

/// The ids of the outcomes of `outcomes` that pay `win`, in order.
pub open spec fn ids_paying(outcomes: Seq<LookUpTableEntry>, win: u64) -> Seq<u32>
    decreases outcomes.len(),
{
    if outcomes.len() == 0 {
        seq![]
    } else if outcomes.last().win == win {
        ids_paying(outcomes.drop_last(), win).push(outcomes.last().id)
    } else {
        ids_paying(outcomes.drop_last(), win)
    }
}

proof fn lemma_ids_paying_none(outcomes: Seq<LookUpTableEntry>, win: u64)
    requires
        forall|i: int| 0 <= i < outcomes.len() ==> (#[trigger] outcomes[i]).win != win,
    ensures
        ids_paying(outcomes, win) == Seq::<u32>::empty(),
    decreases outcomes.len(),
{
    if outcomes.len() > 0 {
        assert(outcomes.last() == outcomes[outcomes.len() - 1]);
        lemma_ids_paying_none(outcomes.drop_last(), win);
    }
}

/// Whether `groups`, sorted by payout, holds exactly the outcomes of `outcomes`, each in the
/// group of its payout: a group lists, in order and once each, the ids of the outcomes that
/// pay its payout.
pub open spec fn groups_of(groups: Seq<WinGroup>, outcomes: Seq<LookUpTableEntry>) -> bool {
    &&& groups_sorted(groups)
    &&& (forall|i: int| #![trigger outcomes[i]] 0 <= i < outcomes.len() ==> exists|g: int| 0 <= g < groups.len()
        && (#[trigger] groups[g]).win == outcomes[i].win && groups[g].book_ids@.contains(outcomes[i].id))
    &&& (forall|g: int, j: int| 0 <= g < groups.len() && 0 <= j < groups[g].book_ids@.len() ==> sourced(
        outcomes,
        groups[g].win,
        #[trigger] groups[g].book_ids@[j],
    ))
    &&& (forall|g: int| 0 <= g < groups.len() ==> (#[trigger] groups[g]).book_ids@ == ids_paying(outcomes, groups[g].win))
}

fn key_present(k: &SearchKey, o: &SearchResult) -> (r: bool)
    ensures
        r == key_found(*k, *o),
{
    let mut j: usize = 0;
    while j < o.search.len()
        invariant
            j <= o.search@.len(),
            forall|m: int| 0 <= m < j ==> !((#[trigger] o.search@[m]).name@ == k.name@ && o.search@[m].value@ == k.value@),
        decreases o.search@.len() - j,
    {
        if o.search[j].name == k.name && o.search[j].value == k.value {
            return true;
        }
        j = j + 1;
    }
    false
}

/// Whether the recorded group `o` satisfies the condition `ic` (see `condition_met`).
pub fn condition_satisfied(ic: &IdentityCondition, o: &SearchResult) -> (r: bool)
    ensures
        r == condition_met(*ic, *o),
{
    let none_text = "None";
    proof {
        reveal_strlit("None");
        assert(none_text@ =~= seq!['N', 'o', 'n', 'e']);
    }
    let mut all = true;
    let mut i: usize = 0;
    while i < ic.search.len()
        invariant
            i <= ic.search@.len(),
            none_text@ == seq!['N', 'o', 'n', 'e'],
            all == (forall|m: int| 0 <= m < i && !is_none_text((#[trigger] ic.search@[m]).value@) ==> key_found(ic.search@[m], *o)),
        decreases ic.search@.len() - i,
    {
        let k = &ic.search[i];
        if !same_text(k.value.as_str(), none_text) {
            if !key_present(k, o) {
                all = false;
            }
        }
        i = i + 1;
    }
    if ic.opposite {
        !all
    } else {
        all
    }
}

fn contains_id(ids: &Vec<u32>, id: u32) -> (r: bool)
    ensures
        r == ids@.contains(id),
{
    let mut i: usize = 0;
    while i < ids.len()
        invariant
            i <= ids@.len(),
            forall|m: int| 0 <= m < i ==> ids@[m] != id,
        decreases ids@.len() - i,
    {
        if ids[i] == id {
            assert(ids@[i as int] == id);
            return true;
        }
        i = i + 1;
    }
    false
}

/// Hands the catalog outcomes that a bucket claims (see `claims`) to the bucket, in
/// catalog order, and regroups the bucket's outcomes by payout. Claimed outcomes leave the
/// catalog, but for a bucket that takes the whole catalog.
pub fn sort_wins_by_parameter(
    fence: &mut Fence,
    force_options: &Vec<SearchResult>,
    lookup_table: &mut Vec<LookUpTableEntry>,
)
    ensures
        ({
            let cl = |e: LookUpTableEntry|
                claims(old(fence).win_type, old(fence).identity_condition, force_options@, e);
            &&& final(fence).outcomes@ == old(fence).outcomes@ + old(lookup_table)@.filter(cl)
            &&& if !old(fence).win_type && takes_all(old(fence).identity_condition) {
                final(lookup_table)@ == old(lookup_table)@
            } else {
                final(lookup_table)@ == old(lookup_table)@.filter(|e: LookUpTableEntry| !cl(e))
            }
        }),
        groups_of(final(fence).win_dist@, final(fence).outcomes@),
        final(fence).name == old(fence).name,
        final(fence).hr == old(fence).hr,
        final(fence).rtp == old(fence).rtp,
        final(fence).avg_win == old(fence).avg_win,
        final(fence).mass == old(fence).mass,
        final(fence).complement == old(fence).complement,
        final(fence).win_type == old(fence).win_type,
        final(fence).dresses == old(fence).dresses,
        final(fence).wins == old(fence).wins,
        final(fence).identity_condition == old(fence).identity_condition,
        final(fence).min_mean_to_median == old(fence).min_mean_to_median,
        final(fence).max_mean_to_median == old(fence).max_mean_to_median,
{
    let ghost cl = |e: LookUpTableEntry| claims(fence.win_type, fence.identity_condition, force_options@, e);
    let ghost ncl = |e: LookUpTableEntry| !cl(e);
    let keep_all = !fence.win_type && fence.identity_condition.search.len() == 0
        && fence.identity_condition.win_range_start < 0 && !fence.identity_condition.opposite;
    let mut claimed_ids: Vec<u32> = Vec::new();
    if !fence.win_type && !keep_all {
        let mut o: usize = 0;
        while o < force_options.len()
            invariant
                o <= force_options@.len(),
                forall|id: u32| claimed_ids@.contains(id) <==> exists|q: int| 0 <= q < o
                    && condition_met(fence.identity_condition, #[trigger] force_options@[q])
                    && force_options@[q].book_ids@.contains(id),
            decreases force_options@.len() - o,
        {
            let ghost before = claimed_ids@;
            if condition_satisfied(&fence.identity_condition, &force_options[o]) {
                let ids = &force_options[o].book_ids;
                let mut k: usize = 0;
                while k < ids.len()
                    invariant
                        k <= ids@.len(),
                        claimed_ids@ == before + ids@.take(k as int),
                    decreases ids@.len() - k,
                {
                    claimed_ids.push(ids[k]);
                    assert(ids@.take(k as int + 1) =~= ids@.take(k as int).push(ids@[k as int]));
                    k = k + 1;
                }
                assert(ids@.take(k as int) =~= ids@);
                proof {
                    assert forall|id: u32| claimed_ids@.contains(id) <==> exists|q: int| 0 <= q < o + 1
                        && condition_met(fence.identity_condition, #[trigger] force_options@[q])
                        && force_options@[q].book_ids@.contains(id) by {
                        if claimed_ids@.contains(id) {
                            let m = choose|m: int| 0 <= m < claimed_ids@.len() && claimed_ids@[m] == id;
                            if m >= before.len() {
                                assert(ids@[m - before.len()] == id);
                                assert(force_options@[o as int].book_ids@.contains(id));
                            } else {
                                assert(before.contains(id));
                            }
                        }
                        if exists|q: int| 0 <= q < o + 1
                            && condition_met(fence.identity_condition, #[trigger] force_options@[q])
                            && force_options@[q].book_ids@.contains(id) {
                            let q = choose|q: int| 0 <= q < o + 1
                                && condition_met(fence.identity_condition, #[trigger] force_options@[q])
                                && force_options@[q].book_ids@.contains(id);
                            if q < o {
                                assert(before.contains(id));
                                let m = choose|m: int| 0 <= m < before.len() && before[m] == id;
                                assert(claimed_ids@[m] == id);
                            } else {
                                let m = choose|m: int| 0 <= m < ids@.len() && ids@[m] == id;
                                assert(claimed_ids@[before.len() + m] == id);
                            }
                        }
                    }
                }
            } else {
                proof {
                    assert forall|id: u32| claimed_ids@.contains(id) <==> exists|q: int| 0 <= q < o + 1
                        && condition_met(fence.identity_condition, #[trigger] force_options@[q])
                        && force_options@[q].book_ids@.contains(id) by {
                        if exists|q: int| 0 <= q < o + 1
                            && condition_met(fence.identity_condition, #[trigger] force_options@[q])
                            && force_options@[q].book_ids@.contains(id) {
                            let q = choose|q: int| 0 <= q < o + 1
                                && condition_met(fence.identity_condition, #[trigger] force_options@[q])
                                && force_options@[q].book_ids@.contains(id);
                            assert(q < o);
                        }
                    }
                }
            }
            o = o + 1;
        }
    }
    let ghost old_table = lookup_table@;
    let ghost old_fence = *fence;
    let ghost old_outcomes = fence.outcomes@;
    let mut kept: Vec<LookUpTableEntry> = Vec::new();
    let mut i: usize = 0;
    while i < lookup_table.len()
        invariant
            i <= old_table.len(),
            lookup_table@ == old_table,
            cl == (|e: LookUpTableEntry| claims(fence.win_type, fence.identity_condition, force_options@, e)),
            ncl == (|e: LookUpTableEntry| !cl(e)),
            keep_all == (!fence.win_type && takes_all(fence.identity_condition)),
            !fence.win_type && !keep_all ==> forall|id: u32| claimed_ids@.contains(id) <==> exists|q: int|
                0 <= q < force_options@.len() && condition_met(fence.identity_condition, #[trigger] force_options@[q])
                && force_options@[q].book_ids@.contains(id),
            fence.outcomes@ == old_outcomes + old_table.take(i as int).filter(cl),
            fence.name == old_fence.name,
            fence.hr == old_fence.hr,
            fence.rtp == old_fence.rtp,
            fence.avg_win == old_fence.avg_win,
            fence.mass == old_fence.mass,
            fence.complement == old_fence.complement,
            fence.win_type == old_fence.win_type,
            fence.dresses == old_fence.dresses,
            fence.wins == old_fence.wins,
            fence.identity_condition == old_fence.identity_condition,
            fence.min_mean_to_median == old_fence.min_mean_to_median,
            fence.max_mean_to_median == old_fence.max_mean_to_median,
            kept@ == old_table.take(i as int).filter(ncl),
        decreases old_table.len() - i,
    {
        let e = lookup_table[i];
        let taken = if fence.win_type {
            (e.win as i128 == fence.identity_condition.win_range_start as i128) != fence.identity_condition.opposite
        } else if keep_all {
            true
        } else {
            contains_id(&claimed_ids, e.id)
        };
        assert(taken == cl(e));
        proof {
            reveal(Seq::filter);
            assert(old_table.take(i as int + 1).drop_last() =~= old_table.take(i as int));
        }
        if taken {
            fence.outcomes.push(e);
        } else {
            kept.push(e);
        }
        i = i + 1;
    }
    assert(old_table.take(i as int) =~= old_table);
    if !keep_all {
        *lookup_table = kept;
    }
    fence.win_dist = group_by_win(&fence.outcomes);
}

fn extend_group(groups: &mut Vec<WinGroup>, p: usize, e: LookUpTableEntry, pre: Ghost<Seq<LookUpTableEntry>>)
    requires
        groups_of(old(groups)@, pre@),
        p < old(groups)@.len(),
        old(groups)@[p as int].win == e.win,
    ensures
        groups_of(final(groups)@, pre@.push(e)),
{
    let ghost old_groups = groups@;
    let mut g = groups.remove(p);
    let ghost old_ids = g.book_ids@;
    g.book_ids.push(e.id);
    groups.insert(p, g);
    proof {
        lemma_extend_group(old_groups, groups@, p as int, e, pre@, old_ids);
    }
}

proof fn lemma_extend_group(
    old_groups: Seq<WinGroup>,
    groups: Seq<WinGroup>,
    p: int,
    e: LookUpTableEntry,
    pre: Seq<LookUpTableEntry>,
    old_ids: Seq<u32>,
)
    requires
        groups_of(old_groups, pre),
        0 <= p < old_groups.len(),
        old_groups[p].win == e.win,
        old_ids == old_groups[p].book_ids@,
        groups.len() == old_groups.len(),
        groups[p].win == e.win,
        groups[p].book_ids@ == old_ids.push(e.id),
        forall|g: int| 0 <= g < groups.len() && g != p ==> #[trigger] groups[g] == old_groups[g],
    ensures
        groups_of(groups, pre.push(e)),
{
    let post = pre.push(e);
    assert(groups[p].book_ids@ == old_ids.push(e.id));
    assert(groups[p].book_ids@[old_ids.len() as int] == e.id);
    assert forall|g: int| 0 <= g < groups.len() implies (#[trigger] groups[g]).win == old_groups[g].win
        && groups[g].book_ids@.len() > 0 by {
        if g != p {
            assert(groups[g] == old_groups[g]);
        }
    }
    assert(groups_sorted(groups));
    assert forall|k: int| #![trigger post[k]] 0 <= k < post.len() implies (exists|g: int| 0 <= g < groups.len()
        && (#[trigger] groups[g]).win == post[k].win && groups[g].book_ids@.contains(post[k].id)) by {
        if k < pre.len() {
            assert(post[k] == pre[k]);
            let g0 = choose|g: int| 0 <= g < old_groups.len() && (#[trigger] old_groups[g]).win == pre[k].win
                && old_groups[g].book_ids@.contains(pre[k].id);
            if g0 == p {
                let m = choose|m: int| 0 <= m < old_ids.len() && old_ids[m] == pre[k].id;
                assert(groups[g0].book_ids@[m] == pre[k].id);
            }
            assert(groups[g0].book_ids@.contains(post[k].id));
        } else {
            assert(groups[p].book_ids@.contains(e.id));
        }
    }

    assert forall|g: int, j: int| 0 <= g < groups.len() && 0 <= j < groups[g].book_ids@.len() implies sourced(
        post,
        groups[g].win,
        #[trigger] groups[g].book_ids@[j],
    ) by {
        if g == p && j == old_ids.len() {
            assert(post[pre.len() as int] == e);
            assert(groups[g].book_ids@[j] == e.id);
        } else {
            if g == p {
                assert(old_ids == old_groups[g].book_ids@);
            } else {
                assert(groups[g] == old_groups[g]);
            }
            assert(old_groups[g].book_ids@[j] == groups[g].book_ids@[j]);
            assert(sourced(pre, old_groups[g].win, old_groups[g].book_ids@[j]));
            let k = choose|k: int| 0 <= k < pre.len() && (#[trigger] pre[k]).win == old_groups[g].win
                && pre[k].id == old_groups[g].book_ids@[j];
            assert(post[k] == pre[k]);
        }
    }
    assert(post.drop_last() =~= pre);
    assert forall|g: int| 0 <= g < groups.len() implies (#[trigger] groups[g]).book_ids@ == ids_paying(post, groups[g].win) by {
        if g == p {
            assert(old_groups[g].book_ids@ == ids_paying(pre, old_groups[g].win));
        } else {
            assert(groups[g] == old_groups[g]);
            assert(old_groups[g].book_ids@ == ids_paying(pre, old_groups[g].win));
            assert(old_groups[g].win != e.win) by {
                if g < p {
                    assert(old_groups[g].win < old_groups[p].win);
                } else {
                    assert(old_groups[p].win < old_groups[g].win);
                }
            }
        }
    }
}

fn new_group(groups: &mut Vec<WinGroup>, p: usize, e: LookUpTableEntry, pre: Ghost<Seq<LookUpTableEntry>>)
    requires
        groups_of(old(groups)@, pre@),
        p <= old(groups)@.len(),
        forall|g: int| 0 <= g < p ==> (#[trigger] old(groups)@[g]).win < e.win,
        p < old(groups)@.len() ==> old(groups)@[p as int].win > e.win,
    ensures
        groups_of(final(groups)@, pre@.push(e)),
{
    let ghost old_groups = groups@;
    let mut ids: Vec<u32> = Vec::new();
    ids.push(e.id);
    assert(ids@ =~= seq![e.id]);
    let ng = WinGroup { win: e.win, book_ids: ids };
    groups.insert(p, ng);
    proof {
        assert(groups@ =~= old_groups.insert(p as int, ng));
        assert forall|g: int| p < g < groups@.len() implies #[trigger] groups@[g] == old_groups[g - 1] by {
            assert(groups@[g] == old_groups.insert(p as int, ng)[g]);
        }
        lemma_new_group(old_groups, groups@, p as int, e, pre@, ng);
    }
}

proof fn lemma_new_group(
    old_groups: Seq<WinGroup>,
    groups: Seq<WinGroup>,
    p: int,
    e: LookUpTableEntry,
    pre: Seq<LookUpTableEntry>,
    ng: WinGroup,
)
    requires
        groups_of(old_groups, pre),
        0 <= p <= old_groups.len(),
        forall|g: int| 0 <= g < p ==> (#[trigger] old_groups[g]).win < e.win,
        p < old_groups.len() ==> old_groups[p].win > e.win,
        ng.win == e.win,
        ng.book_ids@ == seq![e.id],
        groups.len() == old_groups.len() + 1,
        groups[p] == ng,
        forall|g: int| 0 <= g < p ==> #[trigger] groups[g] == old_groups[g],
        forall|g: int| p < g < groups.len() ==> #[trigger] groups[g] == old_groups[g - 1],
    ensures
        groups_of(groups, pre.push(e)),
{
    let post = pre.push(e);
    assert(p < old_groups.len() ==> old_groups[p].win > e.win);
    assert forall|a: int, b: int| 0 <= a < b < groups.len() implies (#[trigger] groups[a]).win < (#[trigger] groups[b]).win by {
        if b < p {
            assert(groups[a] == old_groups[a] && groups[b] == old_groups[b]);
        } else if b == p {
            assert(groups[a] == old_groups[a]);
        } else if a < p {
            assert(groups[a] == old_groups[a] && groups[b] == old_groups[b - 1]);
            assert(old_groups[a].win < e.win);
            if b - 1 > p {
                assert(old_groups[p].win < old_groups[b - 1].win);
            }
        } else if a == p {
            assert(groups[b] == old_groups[b - 1]);
            if b - 1 > p {
                assert(old_groups[p].win < old_groups[b - 1].win);
            }
        } else {
            assert(groups[a] == old_groups[a - 1] && groups[b] == old_groups[b - 1]);
        }
    }
    assert forall|g: int| 0 <= g < groups.len() implies (#[trigger] groups[g]).book_ids@.len() > 0 by {
        if g < p {
            assert(groups[g] == old_groups[g]);
        } else if g > p {
            assert(groups[g] == old_groups[g - 1]);
        }
    }
    assert forall|k: int| #![trigger post[k]] 0 <= k < post.len() implies (exists|g: int| 0 <= g < groups.len()
        && (#[trigger] groups[g]).win == post[k].win && groups[g].book_ids@.contains(post[k].id)) by {
        let g = lemma_new_group_witness(old_groups, groups, p, e, pre, ng, k);
        assert(groups[g].win == post[k].win);
    }
    assert(groups_sorted(groups));
    assert forall|g: int, j: int| 0 <= g < groups.len() && 0 <= j < groups[g].book_ids@.len() implies sourced(
        post,
        groups[g].win,
        #[trigger] groups[g].book_ids@[j],
    ) by {
        if g == p {
            assert(post[pre.len() as int] == e);
            assert(groups[g].book_ids@[j] == e.id);
        } else {
            let og = if g < p { g } else { g - 1 };
            assert(groups[g] == old_groups[og]);
            assert(old_groups[og].book_ids@[j] == groups[g].book_ids@[j]);
            assert(sourced(pre, old_groups[og].win, old_groups[og].book_ids@[j]));
            let k = choose|k: int| 0 <= k < pre.len() && (#[trigger] pre[k]).win == old_groups[og].win
                && pre[k].id == old_groups[og].book_ids@[j];
            assert(post[k] == pre[k]);
        }
    }
    assert(post.drop_last() =~= pre);
    assert forall|i: int| 0 <= i < pre.len() implies (#[trigger] pre[i]).win != e.win by {
        let g0 = choose|g: int| 0 <= g < old_groups.len() && (#[trigger] old_groups[g]).win == pre[i].win
            && old_groups[g].book_ids@.contains(pre[i].id);
        if g0 < p {
            assert(old_groups[g0].win < e.win);
        } else {
            if g0 > p {
                assert(old_groups[p].win < old_groups[g0].win);
            }
        }
    }
    lemma_ids_paying_none(pre, e.win);
    assert forall|g: int| 0 <= g < groups.len() implies (#[trigger] groups[g]).book_ids@ == ids_paying(post, groups[g].win) by {
        if g == p {
            assert(ids_paying(post, e.win) == Seq::<u32>::empty().push(e.id));
            assert(ng.book_ids@ =~= Seq::<u32>::empty().push(e.id));
        } else {
            let og = if g < p { g } else { g - 1 };
            assert(groups[g] == old_groups[og]);
            assert(old_groups[og].book_ids@ == ids_paying(pre, old_groups[og].win));
            if og < p {
                assert(old_groups[og].win < e.win);
            } else {
                if og > p {
                    assert(old_groups[p].win < old_groups[og].win);
                }
                assert(old_groups[og].win > e.win);
            }
        }
    }
}

proof fn lemma_new_group_witness(
    old_groups: Seq<WinGroup>,
    groups: Seq<WinGroup>,
    p: int,
    e: LookUpTableEntry,
    pre: Seq<LookUpTableEntry>,
    ng: WinGroup,
    k: int,
) -> (g: int)
    requires
        groups_of(old_groups, pre),
        0 <= p <= old_groups.len(),
        ng.win == e.win,
        ng.book_ids@ == seq![e.id],
        groups.len() == old_groups.len() + 1,
        groups[p] == ng,
        forall|g: int| 0 <= g < p ==> #[trigger] groups[g] == old_groups[g],
        forall|g: int| p < g < groups.len() ==> #[trigger] groups[g] == old_groups[g - 1],
        0 <= k < pre.len() + 1,
    ensures
        0 <= g < groups.len(),
        groups[g].win == pre.push(e)[k].win,
        groups[g].book_ids@.contains(pre.push(e)[k].id),
{
    let post = pre.push(e);
    if k < pre.len() {
        assert(post[k] == pre[k]);
        let g0 = choose|g: int| 0 <= g < old_groups.len() && (#[trigger] old_groups[g]).win == pre[k].win
            && old_groups[g].book_ids@.contains(pre[k].id);
        if g0 < p {
            assert(groups[g0] == old_groups[g0]);
            g0
        } else {
            assert(groups[g0 + 1] == old_groups[g0]);
            g0 + 1
        }
    } else {
        assert(groups[p] == ng);
        assert(groups[p].book_ids@[0] == e.id);
        p
    }
}

/// Groups outcomes by payout, payouts ascending (see `groups_of`).
pub fn group_by_win(outcomes: &Vec<LookUpTableEntry>) -> (r: Vec<WinGroup>)
    ensures
        groups_of(r@, outcomes@),
{
    let mut groups: Vec<WinGroup> = Vec::new();
    let mut i: usize = 0;
    while i < outcomes.len()
        invariant
            i <= outcomes@.len(),
            groups_of(groups@, outcomes@.take(i as int)),
        decreases outcomes@.len() - i,
    {
        let e = outcomes[i];
        let ghost pre = outcomes@.take(i as int);
        assert(outcomes@.take(i as int + 1) =~= pre.push(e));
        let mut p: usize = 0;
        while p < groups.len() && groups[p].win < e.win
            invariant
                p <= groups@.len(),
                forall|g: int| 0 <= g < p ==> (#[trigger] groups@[g]).win < e.win,
            decreases groups@.len() - p,
        {
            p = p + 1;
        }
        if p < groups.len() && groups[p].win == e.win {
            extend_group(&mut groups, p, e, Ghost(pre));
        } else {
            new_group(&mut groups, p, e, Ghost(pre));
        }
        i = i + 1;
    }
    assert(outcomes@.take(i as int) =~= outcomes@);
    groups
}

/// Sum of the masses of the first `n` buckets.
pub open spec fn masses(fences: Seq<Fence>, n: int) -> int
    decreases n,
{
    if n <= 0 {
        0
    } else {
        masses(fences, n - 1) + fences[n - 1].mass
    }
}

proof fn lemma_masses_prefix_ext(a: Seq<Fence>, b: Seq<Fence>, n: int)
    requires
        0 <= n <= a.len(),
        n <= b.len(),
        forall|i: int| 0 <= i < n ==> a[i].mass == b[i].mass,
    ensures
        masses(a, n) == masses(b, n),
    decreases n,
{
    if n > 0 {
        lemma_masses_prefix_ext(a, b, n - 1);
    }
}

/// How many of the first `n` configured buckets leave their hit rate to be resolved.
pub open spec fn unknown_count(js: Seq<FenceJson>, bet: u64, n: int) -> int
    decreases n,
{
    if n <= 0 || n > js.len() {
        0
    } else {
        unknown_count(js, bet, n - 1) + if fence_targets(js[n - 1], bet).0 == 0 {
            1int
        } else {
            0int
        }
    }
}

/// Whether the catalog has an outcome paying `win`.
pub open spec fn pays(table: Seq<LookUpTableEntry>, win: u64) -> bool {
    exists|i: int| 0 <= i < table.len() && (#[trigger] table[i]).win == win
}

fn has_payout(table: &Vec<LookUpTableEntry>, win: u64) -> (r: bool)
    ensures
        r == pays(table@, win),
{
    let mut i: usize = 0;
    while i < table.len()
        invariant
            i <= table@.len(),
            forall|k: int| 0 <= k < i ==> (#[trigger] table@[k]).win != win,
        decreases table@.len() - i,
    {
        if table[i].win == win {
            assert(table@[i as int].win == win);
            return true;
        }
        i = i + 1;
    }
    false
}

/// Hit-rate mass of the first `n` configured buckets.
pub open spec fn total_before(js: Seq<FenceJson>, bet: u64, n: int) -> int
    decreases n,
{
    if n <= 0 || n > js.len() {
        0
    } else {
        total_before(js, bet, n - 1) + hit_mass(fence_targets(js[n - 1], bet).0)
    }
}

/// Whether every configured bucket reads without error, in order.
pub open spec fn reads_all(js: Seq<FenceJson>, bet: u64) -> bool {
    forall|b: int| 0 <= b < js.len() ==> (#[trigger] fence_error(js[b], bet, total_before(js, bet, b))).is_none()
}

/// Whether the first `n` configured buckets read without error.
pub open spec fn reads_upto(js: Seq<FenceJson>, bet: u64, n: int) -> bool {
    forall|b: int| 0 <= b < n ==> (#[trigger] fence_error(js[b], bet, total_before(js, bet, b))).is_none()
}

/// Whether `r` is the error of the first configured bucket that does not read.
pub open spec fn first_read_error(js: Seq<FenceJson>, bet: u64, r: Result<Vec<Fence>, FarmError>) -> bool {
    exists|b: int|
        0 <= b < js.len() && reads_upto(js, bet, b) && r == Err::<Vec<Fence>, FarmError>(
            (#[trigger] fence_error(js[b], bet, total_before(js, bet, b))).unwrap(),
        ) && fence_error(js[b], bet, total_before(js, bet, b)).is_some()
}

/// Whether some single-value bucket's payout is missing from the catalog.
pub open spec fn pinned_missing(js: Seq<FenceJson>, table: Seq<LookUpTableEntry>) -> bool {
    exists|b: int|
        0 <= b < js.len() && pins_payout((#[trigger] js[b]).identity_condition) && !pays(
            table,
            js[b].identity_condition.win_range_start as u64,
        )
}

/// Whether resolving some bucket's unknown hit rate leaves the 64-bit range.
pub open spec fn resolve_overflows(js: Seq<FenceJson>, bet: u64) -> bool {
    let total = total_before(js, bet, js.len() as int);
    exists|b: int|
        0 <= b < js.len() && fence_targets(#[trigger] js[b], bet).0 == 0 && (complement_hr(total) > u64::MAX
            || complement_hr(total) * fence_targets(js[b], bet).1 / (UNIT as int) > u64::MAX)
}

/// Whether bucket `b` claims the outcome `e`.
pub open spec fn claims_at(js: Seq<FenceJson>, options: Seq<SearchResult>, b: int, e: LookUpTableEntry) -> bool {
    claims(pins_payout(js[b].identity_condition), js[b].identity_condition, options, e)
}

/// The catalog that is left when bucket `n` takes its outcomes.
pub open spec fn pool_at(
    js: Seq<FenceJson>,
    options: Seq<SearchResult>,
    table: Seq<LookUpTableEntry>,
    n: int,
) -> Seq<LookUpTableEntry>
    decreases n,
{
    if n <= 0 || n > js.len() {
        table
    } else {
        let prev = pool_at(js, options, table, n - 1);
        let ic = js[n - 1].identity_condition;
        if !pins_payout(ic) && takes_all(ic) {
            prev
        } else {
            prev.filter(|e: LookUpTableEntry| !claims_at(js, options, n - 1, e))
        }
    }
}

/// Whether `f` is bucket `b` as set up: its targets, with an unknown hit rate resolved from
/// the mass `total` of all known ones, its mass, and the outcomes it claims from what the
/// buckets before it left.
pub open spec fn built_as(
    f: Fence,
    js: Seq<FenceJson>,
    bet: u64,
    options: Seq<SearchResult>,
    table: Seq<LookUpTableEntry>,
    b: int,
) -> bool {
    let t = fence_targets(js[b], bet);
    let total = total_before(js, bet, js.len() as int);
    &&& f.name == js[b].name
    &&& f.identity_condition == js[b].identity_condition
    &&& f.win_type == pins_payout(js[b].identity_condition)
    &&& f.complement == (t.0 == 0)
    &&& f.rtp as int == t.1
    &&& (t.0 != 0 ==> f.hr as int == t.0 && f.avg_win as int == t.2 && f.mass as int == hit_mass(t.0))
    &&& (t.0 == 0 ==> f.hr as int == complement_hr(total) && f.avg_win as int == complement_hr(total) * t.1 / (UNIT
        as int) && f.mass as int == MASS_ONE - total)
    &&& f.outcomes@ == pool_at(js, options, table, b).filter(|e: LookUpTableEntry| claims_at(js, options, b, e))
    &&& groups_of(f.win_dist@, f.outcomes@)
}

proof fn lemma_filter_ext(s: Seq<LookUpTableEntry>, f: spec_fn(LookUpTableEntry) -> bool, g: spec_fn(LookUpTableEntry) -> bool)
    requires
        forall|e: LookUpTableEntry| #[trigger] f(e) == g(e),
    ensures
        s.filter(f) == s.filter(g),
    decreases s.len(),
{
    reveal(Seq::filter);
    if s.len() > 0 {
        lemma_filter_ext(s.drop_last(), f, g);
    }
}

/// Sets up the buckets of a bet mode: reads each configured bucket (`parse_fence_info`),
/// checks that every single-value bucket's payout is in the catalog, then in order resolves
/// a missing hit rate from the mass the others leave (`resolve_unknown_hit_rate`) and hands
/// the bucket its outcomes (`sort_wins_by_parameter`). Fails exactly when a bucket does not
/// read, a single-value payout is missing, or resolving a hit rate overflows.
pub fn build_fences(
    fence_jsons: Vec<FenceJson>,
    bet_amount: u64,
    json_dresses: &Vec<DressJson>,
    force_options: &Vec<SearchResult>,
    lookup_table: &mut Vec<LookUpTableEntry>,
) -> (r: Result<Vec<Fence>, FarmError>)
    ensures
        r.is_err() <==> (!reads_all(fence_jsons@, bet_amount) || pinned_missing(fence_jsons@, old(lookup_table)@)
            || resolve_overflows(fence_jsons@, bet_amount)),
        !reads_all(fence_jsons@, bet_amount) ==> first_read_error(fence_jsons@, bet_amount, r),
        reads_all(fence_jsons@, bet_amount) && pinned_missing(fence_jsons@, old(lookup_table)@) ==> r
            == Err::<Vec<Fence>, FarmError>(FarmError::PayoutMissing),
        reads_all(fence_jsons@, bet_amount) && !pinned_missing(fence_jsons@, old(lookup_table)@) && resolve_overflows(
            fence_jsons@,
            bet_amount,
        ) ==> r == Err::<Vec<Fence>, FarmError>(FarmError::NumberTooLarge),
        r.is_ok() ==> {
            let v = r.unwrap();
            &&& v@.len() == fence_jsons@.len()
            &&& (forall|b: int| 0 <= b < v@.len() ==> built_as(
                #[trigger] v@[b],
                fence_jsons@,
                bet_amount,
                force_options@,
                old(lookup_table)@,
                b,
            ))
            &&& final(lookup_table)@ == pool_at(fence_jsons@, force_options@, old(lookup_table)@, v@.len() as int)
            &&& (forall|b: int| 0 <= b < v@.len() ==> (#[trigger] v@[b]).hr > 0)
            &&& (forall|b: int| 0 <= b < v@.len() ==> (#[trigger] v@[b]).win_type ==> v@[b].wins@.len() == 1
                && pays(old(lookup_table)@, v@[b].wins@[0]))
            &&& (unknown_count(fence_jsons@, bet_amount, fence_jsons@.len() as int) == 1 ==> masses(v@, v@.len() as int) == MASS_ONE)
        },
{
    let ghost configured = fence_jsons@;
    let ghost table0 = lookup_table@;
    let mut rest = fence_jsons;
    let mut total: u64 = 0;
    let mut parsed: Vec<Fence> = Vec::new();
    while rest.len() > 0
        invariant
            configured == fence_jsons@,
            parsed@.len() + rest@.len() == configured.len(),
            rest@ == configured.skip(parsed@.len() as int),
            lookup_table@ == table0,
            total as int == total_before(configured, bet_amount, parsed@.len() as int),
            total as int == masses(parsed@, parsed@.len() as int),
            total < MASS_ONE,
            forall|b: int| 0 <= b < parsed@.len() ==> (#[trigger] fence_error(configured[b], bet_amount, total_before(configured, bet_amount, b))).is_none(),
            forall|b: int| 0 <= b < parsed@.len() ==> {
                let f = #[trigger] parsed@[b];
                let t = fence_targets(configured[b], bet_amount);
                &&& f.name == configured[b].name
                &&& f.identity_condition == configured[b].identity_condition
                &&& f.win_type == pins_payout(configured[b].identity_condition)
                &&& f.wins@ == (if f.win_type { seq![configured[b].identity_condition.win_range_start as u64] } else { Seq::<u64>::empty() })
                &&& f.hr as int == t.0
                &&& f.rtp as int == t.1
                &&& f.avg_win as int == t.2
                &&& f.mass as int == hit_mass(t.0)
                &&& !f.complement
                &&& f.outcomes@.len() == 0
            },
        decreases rest@.len(),
    {
        let ghost k = parsed@.len() as int;
        let fj = rest.remove(0);
        assert(fj == configured[k]);
        assert(rest@ =~= configured.skip(k + 1));
        let ghost before = parsed@;
        let ghost total_k = total;
        let parsed_f = parse_fence_info(fj, &mut total, bet_amount, json_dresses);
        let f = match parsed_f {
            Ok(f) => f,
            Err(e) => {
                proof {
                    assert(fence_error(configured[k], bet_amount, total_before(configured, bet_amount, k)).is_some());
                    assert(!reads_all(configured, bet_amount));
                    assert(reads_upto(configured, bet_amount, k));
                    assert(first_read_error(configured, bet_amount, Err::<Vec<Fence>, FarmError>(e)));
                }
                return Err(e);
            },
        };
        parsed.push(f);
        proof {
            lemma_masses_prefix_ext(parsed@, before, k);
            assert(parsed@[k] == f);
        }
    }
    let ghost n = configured.len() as int;
    proof {
        assert(reads_all(configured, bet_amount));
    }
    let mut c: usize = 0;
    while c < parsed.len()
        invariant
            configured == fence_jsons@,
            c <= parsed@.len(),
            parsed@.len() == n,
            reads_all(configured, bet_amount),
            n == configured.len(),
            lookup_table@ == table0,
            forall|b: int| 0 <= b < n ==> {
                let f = #[trigger] parsed@[b];
                &&& f.win_type == pins_payout(configured[b].identity_condition)
                &&& f.wins@ == (if f.win_type { seq![configured[b].identity_condition.win_range_start as u64] } else { Seq::<u64>::empty() })
            },
            forall|b: int| 0 <= b < c ==> (#[trigger] parsed@[b]).win_type ==> pays(table0, parsed@[b].wins@[0]),
        decreases parsed@.len() - c,
    {
        let f = &parsed[c];
        assert(*f == parsed@[c as int]);
        if f.win_type && !has_payout(lookup_table, f.wins[0]) {
            proof {
                assert(pinned_missing(configured, table0)) by {
                    assert(pins_payout(configured[c as int].identity_condition));
                }
            }
            return Err(FarmError::PayoutMissing);
        }
        c = c + 1;
    }
    proof {
        assert forall|b: int| 0 <= b < n && pins_payout((#[trigger] configured[b]).identity_condition) implies pays(
            table0,
            configured[b].identity_condition.win_range_start as u64,
        ) by {
            assert(parsed@[b].win_type);
        }
        assert(!pinned_missing(configured, table0));
    }
    let ghost pre = parsed@;
    let mut done: Vec<Fence> = Vec::new();
    while parsed.len() > 0
        invariant
            configured == fence_jsons@,
            done@.len() + parsed@.len() == pre.len(),
            table0 == old(lookup_table)@,
            parsed@ == pre.skip(done@.len() as int),
            pre.len() == n,
            n == configured.len(),
            reads_all(configured, bet_amount),
            !pinned_missing(configured, table0),
            total as int == total_before(configured, bet_amount, n),
            total as int == masses(pre, n),
            total < MASS_ONE,
            lookup_table@ == pool_at(configured, force_options@, table0, done@.len() as int),
            forall|b: int| 0 <= b < n ==> {
                let f = #[trigger] pre[b];
                let t = fence_targets(configured[b], bet_amount);
                &&& f.name == configured[b].name
                &&& f.identity_condition == configured[b].identity_condition
                &&& f.win_type == pins_payout(configured[b].identity_condition)
                &&& f.wins@ == (if f.win_type { seq![configured[b].identity_condition.win_range_start as u64] } else { Seq::<u64>::empty() })
                &&& f.hr as int == t.0
                &&& f.rtp as int == t.1
                &&& f.avg_win as int == t.2
                &&& f.mass as int == hit_mass(t.0)
                &&& !f.complement
                &&& f.outcomes@.len() == 0
            },
            forall|b: int| 0 <= b < done@.len() ==> built_as(#[trigger] done@[b], configured, bet_amount, force_options@, table0, b),
            forall|b: int| 0 <= b < done@.len() ==> (#[trigger] done@[b]).hr > 0,
            forall|b: int| 0 <= b < done@.len() ==> (#[trigger] done@[b]).win_type == pre[b].win_type
                && done@[b].wins == pre[b].wins,
            masses(done@, done@.len() as int) == masses(pre, done@.len() as int)
                + unknown_count(configured, bet_amount, done@.len() as int) * (MASS_ONE - total),
        decreases parsed@.len(),
    {
        let ghost k = done@.len() as int;
        let mut f = parsed.remove(0);
        assert(f == pre[k]);
        assert(parsed@ =~= pre.skip(k + 1));
        let ghost t = fence_targets(configured[k], bet_amount);
        let res = resolve_unknown_hit_rate(&mut f, total);
        if res.is_err() {
            proof {
                assert(t.0 == 0);
                assert(res == Err::<(), FarmError>(FarmError::NumberTooLarge));
                assert(resolve_overflows(configured, bet_amount)) by {
                    assert(fence_targets(configured[k], bet_amount).0 == 0);
                }
            }
            return Err(res.unwrap_err());
        }
        proof {
            if pre[k].hr == 0 {
                let rest_mass = MASS_ONE - total;
                assert(MASS_ONE * UNIT / rest_mass >= UNIT) by (nonlinear_arith)
                    requires
                        0 < rest_mass <= MASS_ONE,
                ;
            }
        }
        let ghost pool = lookup_table@;
        sort_wins_by_parameter(&mut f, force_options, lookup_table);
        proof {
            let cl = |e: LookUpTableEntry| claims(pre[k].win_type, pre[k].identity_condition, force_options@, e);
            let cl2 = |e: LookUpTableEntry| claims_at(configured, force_options@, k, e);
            assert forall|e: LookUpTableEntry| #[trigger] cl(e) == cl2(e) by {}
            lemma_filter_ext(pool, cl, cl2);
            let ncl = |e: LookUpTableEntry| !cl(e);
            let ncl2 = |e: LookUpTableEntry| !claims_at(configured, force_options@, k, e);
            assert forall|e: LookUpTableEntry| #[trigger] ncl(e) == ncl2(e) by {}
            lemma_filter_ext(pool, ncl, ncl2);
            assert(f.outcomes@ =~= pool.filter(cl2));
            assert(lookup_table@ == pool_at(configured, force_options@, table0, k + 1));
        }
        let ghost before = done@;
        done.push(f);
        proof {
            assert(done@[k] == f);
            assert(built_as(f, configured, bet_amount, force_options@, table0, k));
            lemma_masses_prefix_ext(done@, before, k);
            if pre[k].hr == 0 {
                assert(done@[k].mass == MASS_ONE - total);
            } else {
                assert(done@[k].mass == pre[k].mass);
            }
            assert(masses(done@, k + 1) == masses(pre, k + 1) + unknown_count(configured, bet_amount, k + 1) * (MASS_ONE - total))
                by (nonlinear_arith)
                requires
                    masses(done@, k + 1) == masses(before, k) + done@[k].mass,
                    masses(pre, k + 1) == masses(pre, k) + pre[k].mass,
                    masses(before, k) == masses(pre, k) + unknown_count(configured, bet_amount, k) * (MASS_ONE - total),
                    pre[k].hr == 0 ==> done@[k].mass == MASS_ONE - total && pre[k].mass == 0
                        && unknown_count(configured, bet_amount, k + 1) == unknown_count(configured, bet_amount, k) + 1,
                    pre[k].hr != 0 ==> done@[k].mass == pre[k].mass
                        && unknown_count(configured, bet_amount, k + 1) == unknown_count(configured, bet_amount, k),
            ;
        }
    }
    proof {
        assert(masses(done@, n) == total + unknown_count(configured, bet_amount, n) * (MASS_ONE - total));
        assert(!resolve_overflows(configured, bet_amount)) by {
            if resolve_overflows(configured, bet_amount) {
                let b = choose|b: int|
                    0 <= b < configured.len() && fence_targets(#[trigger] configured[b], bet_amount).0 == 0 && (complement_hr(total as int) > u64::MAX
                        || complement_hr(total as int) * fence_targets(configured[b], bet_amount).1 / (UNIT as int) > u64::MAX);
                assert(built_as(done@[b], configured, bet_amount, force_options@, table0, b));
            }
        }
        assert forall|b: int| 0 <= b < n && (#[trigger] done@[b]).win_type implies done@[b].wins@.len() == 1
            && pays(table0, done@[b].wins@[0]) by {
            assert(pre[b].win_type);
            assert(pins_payout(configured[b].identity_condition));
        }
    }
    Ok(done)
}

proof fn lemma_read_total(js: Seq<FenceJson>, bet: u64, n: int)
    requires
        0 <= n <= js.len(),
        reads_upto(js, bet, n),
    ensures
        0 <= total_before(js, bet, n) < MASS_ONE,
    decreases n,
{
    if n > 0 {
        assert(reads_upto(js, bet, n - 1));
        lemma_read_total(js, bet, n - 1);
        assert(fence_error(js[n - 1], bet, total_before(js, bet, n - 1)).is_none());
        let hr = fence_targets(js[n - 1], bet).0;
        if hr > 0 {
            assert(hit_mass(hr) >= 0) by (nonlinear_arith)
                requires
                    hr > 0,
                    hit_mass(hr) == (2 * (MASS_ONE * UNIT) + hr) / (2 * hr),
            ;
        }
    }
}

/// When every bucket of a bet mode reads, the hit-rate masses of the known buckets add up to
/// less than one, and a bucket whose hit rate was unknown is set up with the hit rate
/// `1 / (1 - sum)` and exactly the remaining mass, so that with it the masses add up to one.
pub proof fn lemma_unknown_bucket_completes(
    js: Seq<FenceJson>,
    bet: u64,
    options: Seq<SearchResult>,
    table: Seq<LookUpTableEntry>,
    v: Seq<Fence>,
    b: int,
)
    requires
        reads_all(js, bet),
        v.len() == js.len(),
        forall|c: int| 0 <= c < v.len() ==> built_as(#[trigger] v[c], js, bet, options, table, c),
        0 <= b < js.len(),
        fence_targets(js[b], bet).0 == 0,
    ensures
        total_before(js, bet, js.len() as int) < MASS_ONE,
        v[b].hr as int == complement_hr(total_before(js, bet, js.len() as int)),
        v[b].mass + total_before(js, bet, js.len() as int) == MASS_ONE,
{
    lemma_read_total(js, bet, js.len() as int);
    assert(built_as(v[b], js, bet, options, table, b));
}

/// Back-solving is consistent. From a hit rate and a return to player the average win is
/// their product; when that product is exact in micro-units, solving the return to player
/// from the hit rate and that average win gives it back, and with a bet of one unit so does
/// solving the hit rate from the return to player and the average win.
pub proof fn lemma_back_solve_round_trip(hr: int, rtp: int)
    requires
        hr > 0,
        rtp > 0,
        (hr * rtp) % (UNIT as int) == 0,
    ensures
        back_solved(hr, rtp, 0, false, UNIT as int) == (hr, rtp, hr * rtp / (UNIT as int)),
        back_solved(hr, 0, hr * rtp / (UNIT as int), false, UNIT as int) == (hr, rtp, hr * rtp / (UNIT as int)),
        back_solved(0, rtp, hr * rtp / (UNIT as int), false, UNIT as int) == (hr, rtp, hr * rtp / (UNIT as int)),
{
    let u = UNIT as int;
    let p = hr * rtp;
    let avg = p / u;
    vstd::arithmetic::div_mod::lemma_fundamental_div_mod(p, u);
    assert(avg * u == p);
    assert(p > 0) by (nonlinear_arith)
        requires
            hr > 0,
            rtp > 0,
            p == hr * rtp,
    ;
    assert(avg > 0) by (nonlinear_arith)
        requires
            avg * u == p,
            p > 0,
            u > 0,
    ;
    assert(avg * u / hr == rtp) by (nonlinear_arith)
        requires
            avg * u == hr * rtp,
            hr > 0,
    ;
    assert(avg * u * u / (rtp * u) == hr) by (nonlinear_arith)
        requires
            avg * u == hr * rtp,
            rtp > 0,
            u > 0,
    ;
}

} // verus!
