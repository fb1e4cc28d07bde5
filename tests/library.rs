use pig_farm::config::{
    bias_for, fences_index, BiasJson, FencesInfo, bet_mode_index, BetMode, ConfigData, DressJson, FarmError, FenceJson, IdentityCondition, LookUpTableEntry, SearchKey,
    SearchResult, WinRange,
};
use pig_farm::decimal::parse_micro;
use pig_farm::farm::{breed_population, create_ancestor, pick_region, pick_regions, pig_heaven_for, PenEvent, Pens, PigHeaven};
use pig_farm::fence::{
    build_fences, condition_satisfied, group_by_win, parse_fence_info, parse_scale_factor, resolve_unknown_hit_rate,
    sort_wins_by_parameter, Dress, Fence, ScaleFactor,
};
use pig_farm::pig::{
    breed_pigs, combine_distributions, get_weights, get_weights_no_weight_array, mean_to_median_ok, median_win, Pig,
    Region, CHILD_MASS,
};
use pig_farm::report::{get_win_ranges, lookup_weights, realized_rtp};
use pig_farm::show::{assemble_table, create_show_pigs, rank_show_pigs, ShowPig};
use pig_farm::sim::{max_spins, run_enhanced_simulation, run_simulation, score_draws};
use pig_farm::units::{ceil_sqrt, MASS_ONE, UNIT};

fn ic(search: Vec<SearchKey>, opposite: bool, start: i64, end: i64) -> IdentityCondition {
    IdentityCondition { search, opposite, win_range_start: start, win_range_end: end }
}

fn fence_json(name: &str, hr: Option<&str>, rtp: Option<&str>, avg: Option<&str>, cond: IdentityCondition) -> FenceJson {
    FenceJson {
        name: name.to_string(),
        hr: hr.map(|s| s.to_string()),
        rtp: rtp.map(|s| s.to_string()),
        avg_win: avg.map(|s| s.to_string()),
        identity_condition: cond,
        min_mean_to_median: None,
        max_mean_to_median: None,
    }
}

fn entry(id: u32, win_units_hundredths: u64) -> LookUpTableEntry {
    LookUpTableEntry { id, weight: 1, win: win_units_hundredths * 10_000 }
}

fn flat_pig(wins: &Vec<u64>, density: Vec<u64>, seed: u32) -> Pig {
    get_weights_no_weight_array(wins, &density, &Vec::new(), seed, 0).unwrap()
}

#[test]
fn parses_decimals_into_micro_units() {
    assert_eq!(parse_micro("2.5"), Some(2_500_000));
    assert_eq!(parse_micro("10"), Some(10_000_000));
    assert_eq!(parse_micro("0.000001"), Some(1));
    assert_eq!(parse_micro(".5"), Some(500_000));
    assert_eq!(parse_micro("7."), Some(7_000_000));
    assert_eq!(parse_micro("x"), None);
    assert_eq!(parse_micro(""), None);
    assert_eq!(parse_micro("."), None);
    assert_eq!(parse_micro("1.1234567"), None);
    assert_eq!(parse_micro("1.2.3"), None);
    assert_eq!(parse_micro("99999999999999999999"), None);
}

#[test]
fn reads_scale_factors() {
    assert_eq!(parse_scale_factor("2.5r"), ScaleFactor::FactorR(2_500_000));
    assert_eq!(parse_scale_factor("1rr"), ScaleFactor::FactorR(1_000_000));
    assert_eq!(parse_scale_factor("3"), ScaleFactor::Factor(3_000_000));
    assert_eq!(parse_scale_factor("abc"), ScaleFactor::Factor(UNIT));
    assert_eq!(parse_scale_factor("r"), ScaleFactor::Factor(UNIT));
}

#[test]
fn ceil_sqrt_of_population() {
    assert_eq!(ceil_sqrt(0), 0);
    assert_eq!(ceil_sqrt(1), 1);
    assert_eq!(ceil_sqrt(10), 4);
    assert_eq!(ceil_sqrt(16), 4);
    assert_eq!(ceil_sqrt(17), 5);
    assert_eq!(ceil_sqrt(u32::MAX), 65536);
}

#[test]
fn back_solves_average_win_from_hit_rate_and_rtp() {
    let mut total = 0u64;
    let f = parse_fence_info(fence_json("base", Some("10"), Some("2"), None, ic(vec![], false, -1, -1)), &mut total, UNIT, &Vec::new()).unwrap();
    assert_eq!(f.avg_win, 20 * UNIT);
    assert_eq!(f.hr, 10 * UNIT);
    assert_eq!(f.rtp, 2 * UNIT);
    assert_eq!(f.mass, MASS_ONE / 10);
    assert_eq!(total, MASS_ONE / 10);
}

#[test]
fn back_solves_rtp_from_average_win_and_hit_rate() {
    let mut total = 0u64;
    let f = parse_fence_info(fence_json("base", Some("10"), None, Some("20"), ic(vec![], false, -1, -1)), &mut total, UNIT, &Vec::new()).unwrap();
    assert_eq!(f.rtp, 2 * UNIT);
    assert_eq!(f.avg_win, 20 * UNIT);
}

#[test]
fn back_solves_hit_rate_from_average_win_and_rtp() {
    let mut total = 0u64;
    let f = parse_fence_info(fence_json("base", None, Some("2"), Some("20"), ic(vec![], false, -1, -1)), &mut total, 2 * UNIT, &Vec::new()).unwrap();
    assert_eq!(f.hr, 5 * UNIT);
}

#[test]
fn x_hit_rate_is_left_for_the_complement() {
    let mut total = 0u64;
    let f = parse_fence_info(fence_json("rest", Some("x"), Some("0.5"), Some("3"), ic(vec![], false, -1, -1)), &mut total, UNIT, &Vec::new()).unwrap();
    assert_eq!(f.hr, 0);
    assert_eq!(f.mass, 0);
    assert_eq!(total, 0);
}

#[test]
fn fence_errors() {
    let mut total = 0u64;
    let bad = parse_fence_info(fence_json("a", Some("ten"), None, None, ic(vec![], false, -1, -1)), &mut total, UNIT, &Vec::new());
    assert!(matches!(bad, Err(FarmError::BadNumber)));
    let full = parse_fence_info(fence_json("a", Some("1"), None, None, ic(vec![], false, -1, -1)), &mut total, UNIT, &Vec::new());
    assert!(matches!(full, Err(FarmError::ProbabilityOverflow)));
    assert_eq!(total, 0);
    let big = parse_fence_info(fence_json("a", Some("18000000000000"), Some("18000000000000"), None, ic(vec![], false, -1, -1)), &mut total, UNIT, &Vec::new());
    assert!(matches!(big, Err(FarmError::NumberTooLarge)));
}

#[test]
fn unknown_hit_rate_takes_the_complement_mass() {
    let mut total = 0u64;
    let dresses: Vec<DressJson> = Vec::new();
    parse_fence_info(fence_json("a", Some("2"), Some("1"), None, ic(vec![], false, -1, -1)), &mut total, UNIT, &dresses).unwrap();
    parse_fence_info(fence_json("b", Some("4"), Some("1"), None, ic(vec![], false, -1, -1)), &mut total, UNIT, &dresses).unwrap();
    let mut rest = parse_fence_info(fence_json("c", Some("x"), Some("2"), None, ic(vec![], false, -1, -1)), &mut total, UNIT, &dresses).unwrap();
    assert_eq!(total, MASS_ONE / 2 + MASS_ONE / 4);
    resolve_unknown_hit_rate(&mut rest, total).unwrap();
    assert_eq!(rest.hr, 4 * UNIT);
    assert_eq!(rest.mass, MASS_ONE / 4);
    assert_eq!(rest.avg_win, 8 * UNIT);
    let mut again = parse_fence_info(fence_json("d", Some("x"), None, None, ic(vec![], false, -1, -1)), &mut 0u64, UNIT, &dresses).unwrap();
    assert!(matches!(resolve_unknown_hit_rate(&mut again, MASS_ONE), Err(FarmError::ProbabilityOverflow)));
}

#[test]
fn collects_the_modifiers_of_a_bucket() {
    let dresses = vec![
        DressJson { fence: "a".to_string(), scale_factor: "2r".to_string(), identity_condition_force: None, identity_condition_win_range: Some(WinRange { low: 1, high: 5 }), prob: Some(500_000) },
        DressJson { fence: "b".to_string(), scale_factor: "3".to_string(), identity_condition_force: None, identity_condition_win_range: None, prob: None },
        DressJson { fence: "a".to_string(), scale_factor: "4".to_string(), identity_condition_force: None, identity_condition_win_range: None, prob: None },
    ];
    let mut total = 0u64;
    let f = parse_fence_info(fence_json("a", Some("10"), Some("1"), None, ic(vec![], false, -1, -1)), &mut total, UNIT, &dresses).unwrap();
    assert_eq!(f.dresses.len(), 2);
    assert_eq!(f.dresses[0].scale_factor, ScaleFactor::FactorR(2 * UNIT));
    assert_eq!(f.dresses[0].prob, 500_000);
    assert_eq!(f.dresses[1].scale_factor, ScaleFactor::Factor(4 * UNIT));
    assert_eq!(f.dresses[1].identity_condition_win_range, WinRange { low: 0, high: 0 });
    assert_eq!(f.dresses[1].prob, UNIT);
}

#[test]
fn single_value_bucket_claims_its_payout() {
    let mut total = 0u64;
    let mut f = parse_fence_info(fence_json("zero", Some("2"), None, Some("0"), ic(vec![], false, 0, 0)), &mut total, UNIT, &Vec::new()).unwrap();
    assert!(f.win_type);
    let mut table = vec![entry(1, 0), entry(2, 500), entry(3, 0), entry(4, 100)];
    sort_wins_by_parameter(&mut f, &Vec::new(), &mut table);
    assert_eq!(f.outcomes.iter().map(|e| e.id).collect::<Vec<_>>(), vec![1, 3]);
    assert_eq!(table.iter().map(|e| e.id).collect::<Vec<_>>(), vec![2, 4]);
    assert_eq!(f.win_dist.len(), 1);
    assert_eq!(f.win_dist[0].book_ids, vec![1, 3]);
}

#[test]
fn opposite_single_value_bucket_claims_the_rest() {
    let mut total = 0u64;
    let mut f = parse_fence_info(fence_json("wins", Some("2"), Some("1"), None, ic(vec![], true, 0, 0)), &mut total, UNIT, &Vec::new()).unwrap();
    let mut table = vec![entry(1, 0), entry(2, 500), entry(3, 100), entry(4, 500)];
    sort_wins_by_parameter(&mut f, &Vec::new(), &mut table);
    assert_eq!(table.iter().map(|e| e.id).collect::<Vec<_>>(), vec![1]);
    assert_eq!(f.win_dist.len(), 2);
    assert_eq!(f.win_dist[0].win, 1_000_000);
    assert_eq!(f.win_dist[1].win, 5_000_000);
    assert_eq!(f.win_dist[1].book_ids, vec![2, 4]);
}

#[test]
fn tag_conditions_claim_recorded_groups() {
    let key = |n: &str, v: &str| SearchKey { name: n.to_string(), value: v.to_string() };
    let options = vec![
        SearchResult { search: vec![key("symbol", "scatter"), key("kind", "free")], times_triggered: 3, book_ids: vec![1, 2] },
        SearchResult { search: vec![key("symbol", "wild")], times_triggered: 1, book_ids: vec![3] },
    ];
    let cond = ic(vec![key("symbol", "scatter"), key("kind", "None")], false, -1, -1);
    assert!(condition_satisfied(&cond, &options[0]));
    assert!(!condition_satisfied(&cond, &options[1]));
    let mut total = 0u64;
    let mut f = parse_fence_info(fence_json("free", Some("100"), Some("1"), None, cond), &mut total, UNIT, &Vec::new()).unwrap();
    let mut table = vec![entry(1, 200), entry(2, 300), entry(3, 200), entry(4, 0)];
    sort_wins_by_parameter(&mut f, &options, &mut table);
    assert_eq!(f.outcomes.iter().map(|e| e.id).collect::<Vec<_>>(), vec![1, 2]);
    assert_eq!(table.iter().map(|e| e.id).collect::<Vec<_>>(), vec![3, 4]);
    let mut total2 = 0u64;
    let mut neg = parse_fence_info(fence_json("other", Some("100"), Some("1"), None, ic(vec![key("symbol", "scatter")], true, -1, -1)), &mut total2, UNIT, &Vec::new()).unwrap();
    sort_wins_by_parameter(&mut neg, &options, &mut table);
    assert_eq!(neg.outcomes.iter().map(|e| e.id).collect::<Vec<_>>(), vec![3]);
    assert_eq!(table.iter().map(|e| e.id).collect::<Vec<_>>(), vec![4]);
}

#[test]
fn empty_condition_takes_the_whole_catalog() {
    let mut total = 0u64;
    let mut f = parse_fence_info(fence_json("base", Some("3"), Some("1"), None, ic(vec![], false, -1, -1)), &mut total, UNIT, &Vec::new()).unwrap();
    let mut table = vec![entry(1, 200), entry(2, 300), entry(3, 200)];
    sort_wins_by_parameter(&mut f, &Vec::new(), &mut table);
    assert_eq!(f.outcomes.len(), 3);
    assert_eq!(table.len(), 3);
    assert_eq!(f.win_dist.len(), 2);
    assert_eq!(f.win_dist[0].book_ids, vec![1, 3]);
}

#[test]
fn groups_outcomes_by_payout() {
    let groups = group_by_win(&vec![entry(5, 300), entry(6, 100), entry(7, 300), entry(8, 200), entry(9, 300)]);
    assert_eq!(groups.iter().map(|g| g.win).collect::<Vec<_>>(), vec![1_000_000, 2_000_000, 3_000_000]);
    assert_eq!(groups[2].book_ids, vec![5, 7, 9]);
    assert_eq!(groups[0].book_ids, vec![6]);
    assert_eq!(groups[1].book_ids, vec![8]);
}

#[test]
fn density_evaluation_is_deterministic() {
    let wins = vec![0, 1_000_000, 2_000_000, 5_000_000];
    let density = vec![100_000, 200_000, 300_000, 400_000];
    let regions = vec![Region { low: 1_000_000, high: 2_000_000, scale: 2 * UNIT }];
    let a = get_weights(&wins, &density, &regions, 77, 400_000).unwrap();
    let b = get_weights(&wins, &density, &regions, 77, 400_000).unwrap();
    assert_eq!(a, b);
}

#[test]
fn regional_modifiers_scale_their_range() {
    let wins = vec![0, 1_000_000, 2_000_000, 5_000_000];
    let density = vec![100, 200, 300, 400];
    let regions = vec![
        Region { low: 1_000_000, high: 2_000_000, scale: 2 * UNIT },
        Region { low: 2_000_000, high: 9_000_000, scale: UNIT / 2 },
    ];
    let w = get_weights(&wins, &density, &regions, 5, 0).unwrap();
    assert_eq!(w, vec![100, 400, 300, 200]);
    let overflow = get_weights(&vec![0], &vec![u64::MAX], &vec![Region { low: 0, high: 0, scale: 2 * UNIT }], 5, 0);
    assert!(overflow.is_none());
}

#[test]
fn jitter_replays_for_a_seed_and_moves_weights() {
    let wins: Vec<u64> = (0..50).map(|i| i * 1_000_000).collect();
    let density = vec![1_000_000u64; 50];
    let plain = get_weights(&wins, &density, &Vec::new(), 12345, 0).unwrap();
    assert_eq!(plain, density);
    let j1 = get_weights(&wins, &density, &Vec::new(), 12345, UNIT).unwrap();
    let j2 = get_weights(&wins, &density, &Vec::new(), 12345, UNIT).unwrap();
    assert_eq!(j1, j2);
    assert_ne!(j1, density);
    assert!(j1.iter().all(|w| *w <= 2_000_000));
    let other = get_weights(&wins, &density, &Vec::new(), 54321, UNIT).unwrap();
    assert_ne!(j1, other);
}

#[test]
fn ancestor_is_scaled_to_its_mass() {
    let wins = vec![1_000_000, 2_000_000, 4_000_000];
    let pig = flat_pig(&wins, vec![1, 1, 2], 9);
    assert_eq!(pig.weights, vec![262_144, 262_144, 524_288]);
    assert_eq!(pig.sum_dist, 1_048_576);
    assert_eq!(pig.win_total, 262_144u128 * 1_000_000 + 262_144u128 * 2_000_000 + 524_288u128 * 4_000_000);
    assert_eq!(pig.random_seeds, vec![9]);
    assert!(get_weights_no_weight_array(&wins, &vec![0, 0, 0], &Vec::new(), 9, 0).is_none());
}

#[test]
fn breeding_hits_the_target_average_win() {
    let wins = vec![1_000_000, 2_000_000, 10_000_000];
    let pos = flat_pig(&wins, vec![1, 1, 8], 1);
    let neg = flat_pig(&wins, vec![8, 1, 1], 2);
    let target = 3_500_000u64;
    let mixed = combine_distributions(&pos, &neg, &wins, target);
    let mass: u128 = mixed.iter().sum();
    let paid: u128 = mixed.iter().zip(wins.iter()).map(|(c, w)| c * (*w as u128)).sum();
    assert_eq!(paid, target as u128 * mass);
    let child = breed_pigs(&pos, &neg, &wins, target);
    assert!(child.sum_dist <= CHILD_MASS);
    let avg = child.win_total as f64 / child.sum_dist as f64;
    assert!(((avg - target as f64) / target as f64).abs() < 1e-12);
    assert_eq!(child.random_seeds, vec![1, 2]);
    assert_eq!(child.random_weights, vec![0, 0]);
}

#[test]
fn median_and_volatility_bound() {
    let wins = vec![1_000_000, 2_000_000, 10_000_000];
    let pig = flat_pig(&wins, vec![1, 2, 1], 3);
    assert_eq!(median_win(&wins, &pig), 2_000_000);
    assert!(mean_to_median_ok(&wins, &pig, 3_000_000, 0, 10 * UNIT));
    assert!(!mean_to_median_ok(&wins, &pig, 3_000_000, 1_500_000, 10 * UNIT));
    assert!(!mean_to_median_ok(&wins, &pig, 3_000_000, 0, 1_500_000));
    assert!(mean_to_median_ok(&wins, &pig, 3_000_000, 0, 2 * UNIT));
}

fn heaven(wins: Vec<u64>, avg: u64, num_pigs: u32) -> PigHeaven {
    let min_win = wins[0];
    let max_win = wins[wins.len() - 1];
    PigHeaven { bet_amount: UNIT, wins, rtp: UNIT, pig_params: Vec::new(), num_pigs, max_win, min_win, avg_win: avg }
}

#[test]
fn pens_route_candidates_and_add_extra_modifiers_once() {
    let h = heaven(vec![1_000_000, 2_000_000, 10_000_000], 3_000_000, 4);
    let mut pens = Pens::new(&h);
    assert_eq!(pens.pool_size, 2);
    let high = flat_pig(&h.wins, vec![1, 1, 8], 1);
    let low = flat_pig(&h.wins, vec![8, 1, 1], 2);
    assert_eq!(pens.offer(&h, high.clone()), PenEvent::Quiet);
    assert_eq!(pens.pos_pigs.len(), 1);
    pens.offer(&h, high.clone());
    assert_eq!(pens.pos_pigs.len(), 2);
    assert_eq!(pens.extra_params, vec![
        Region { low: 1_000_000, high: 1_500_000, scale: 150 * UNIT },
        Region { low: 1_500_000, high: 10_000_000, scale: 100 },
    ]);
    pens.offer(&h, high.clone());
    assert_eq!(pens.pos_pigs.len(), 2);
    assert!(!pens.is_full());
    pens.offer(&h, low.clone());
    pens.offer(&h, low.clone());
    assert!(pens.is_full());
    assert_eq!(pens.extra_params.len(), 2);
    let mut events = Vec::new();
    for _ in 0..20 {
        events.push(pens.offer(&h, low.clone()));
    }
    assert_eq!(events.iter().filter(|e| **e != PenEvent::Quiet).count(), 1);
    assert!(events.contains(&PenEvent::RtpTooHigh));
}

#[test]
fn below_pool_filling_first_boosts_high_payouts() {
    let h = heaven(vec![1_000_000, 2_000_000, 10_000_000], 3_000_000, 1);
    let mut pens = Pens::new(&h);
    pens.offer(&h, flat_pig(&h.wins, vec![8, 1, 1], 2));
    assert_eq!(pens.extra_params, vec![
        Region { low: 6_000_000, high: 10_000_000, scale: 50 * UNIT },
        Region { low: 1_000_000, high: 3_000_000, scale: 100 },
    ]);
}

#[test]
fn picks_every_sure_modifier_and_the_extras() {
    let mut h = heaven(vec![1_000_000, 2_000_000], 1_500_000, 4);
    h.pig_params = vec![
        Dress { fence: "a".to_string(), scale_factor: ScaleFactor::Factor(3 * UNIT), identity_condition_win_range: WinRange { low: 1, high: 2 }, prob: UNIT },
        Dress { fence: "a".to_string(), scale_factor: ScaleFactor::FactorR(2 * UNIT), identity_condition_win_range: WinRange { low: 3, high: 4 }, prob: UNIT },
        Dress { fence: "a".to_string(), scale_factor: ScaleFactor::Factor(5 * UNIT), identity_condition_win_range: WinRange { low: 5, high: 6 }, prob: 0 },
    ];
    let extra = vec![Region { low: 9, high: 9, scale: 7 }];
    let r = pick_regions(&h, &extra);
    assert_eq!(r.len(), 3);
    assert_eq!(r[0], Region { low: 1, high: 2, scale: 3 * UNIT });
    assert_eq!((r[1].low, r[1].high), (3, 4));
    assert!(r[1].scale <= 2 * UNIT);
    assert_eq!(r[2], extra[0]);
}

#[test]
fn creates_ancestors_from_a_density() {
    let h = heaven(vec![1_000_000, 2_000_000, 3_000_000], 2_000_000, 4);
    let pens = Pens::new(&h);
    let pig = create_ancestor(&h, &pens, &vec![10_000, 10_000, 10_000]).unwrap();
    assert_eq!(pig.weights.len(), 3);
    assert!(pig.sum_dist <= 1_048_576 && pig.sum_dist > 1_000_000);
    assert_eq!(pig.random_seeds.len(), 1);
}

fn full_pens(h: &PigHeaven) -> Pens {
    let mut pens = Pens::new(h);
    while !pens.is_full() {
        pens.offer(h, flat_pig(&h.wins, vec![1, 2, 8], 1));
        pens.offer(h, flat_pig(&h.wins, vec![8, 2, 1], 2));
    }
    pens
}

#[test]
fn bred_population_meets_the_volatility_bound() {
    let h = heaven(vec![1_000_000, 2_000_000, 10_000_000], 3_000_000, 4);
    let pens = full_pens(&h);
    let pop = breed_population(&h, &pens, 0, 10 * UNIT, 1000).unwrap();
    assert_eq!(pop.len(), 4);
    for child in &pop {
        assert!(mean_to_median_ok(&h.wins, child, h.avg_win, 0, 10 * UNIT));
        let avg = child.win_total as f64 / child.sum_dist as f64;
        assert!((avg - 3_000_000.0).abs() / 3_000_000.0 < 1e-9);
    }
}

#[test]
fn breeding_gives_up_after_its_attempts() {
    let h = heaven(vec![1_000_000, 2_000_000, 10_000_000], 3_000_000, 4);
    let pens = full_pens(&h);
    let r = breed_population(&h, &pens, 0, UNIT, 50);
    assert!(matches!(r, Err(FarmError::ConvergenceFailed { iterations: 50 })));
}

fn two_bucket_setup() -> (Vec<Fence>, Vec<Vec<Pig>>) {
    let mut total = 0u64;
    let mut zero = parse_fence_info(fence_json("zero", Some("2"), None, Some("0"), ic(vec![], false, 0, 0)), &mut total, UNIT, &Vec::new()).unwrap();
    let mut base = parse_fence_info(fence_json("base", Some("x"), Some("1"), None, ic(vec![], false, -1, -1)), &mut total, UNIT, &Vec::new()).unwrap();
    resolve_unknown_hit_rate(&mut base, total).unwrap();
    let mut table = vec![entry(1, 0), entry(2, 0), entry(3, 100), entry(4, 1000)];
    sort_wins_by_parameter(&mut zero, &Vec::new(), &mut table);
    sort_wins_by_parameter(&mut base, &Vec::new(), &mut table);
    let wins = vec![1_000_000, 10_000_000];
    let pig = flat_pig(&wins, vec![3, 1], 4);
    (vec![zero, base], vec![Vec::new(), vec![pig]])
}

#[test]
fn full_weight_table_sums_to_one() {
    let (fences, pens) = two_bucket_setup();
    assert_eq!(fences[0].mass + fences[1].mass, MASS_ONE);
    let (wins, weights) = assemble_table(&fences, &pens, &vec![0, 0]);
    assert_eq!(wins, vec![0, 1_000_000, 10_000_000]);
    assert_eq!(weights[0], MASS_ONE / 2);
    let total: u64 = weights.iter().sum();
    assert!(total <= MASS_ONE && total + 3 >= MASS_ONE);
    assert_eq!(weights[1], MASS_ONE / 2 * 3 / 4);
}

#[test]
fn single_value_bucket_mass_is_split_evenly() {
    let mut total = 0u64;
    let mut f = parse_fence_info(fence_json("big", Some("100"), None, Some("50"), ic(vec![], false, 50 * UNIT as i64, 50 * UNIT as i64)), &mut total, UNIT, &Vec::new()).unwrap();
    assert_eq!(f.mass, MASS_ONE / 100);
    let catalog = vec![entry(1, 5000), entry(2, 0), entry(3, 5000)];
    let mut table = catalog.clone();
    sort_wins_by_parameter(&mut f, &Vec::new(), &mut table);
    let out = lookup_weights(&catalog, &vec![f], &vec![Vec::new()], &vec![0]);
    assert_eq!(out[0].weight, MASS_ONE / 100 / 2);
    assert_eq!(out[2].weight, MASS_ONE / 100 / 2);
    assert_eq!(out[1].weight, 1);
    assert_eq!(out[0].id, 1);
}

#[test]
fn lookup_weights_follow_the_chosen_candidate() {
    let (fences, pens) = two_bucket_setup();
    let catalog = vec![entry(1, 0), entry(2, 0), entry(3, 100), entry(4, 1000), LookUpTableEntry { id: 9, weight: 7, win: 70_000 }];
    let out = lookup_weights(&catalog, &fences, &pens, &vec![0, 0]);
    assert_eq!(out[0].weight, MASS_ONE / 2 / 2);
    assert_eq!(out[2].weight, MASS_ONE / 2 * 3 / 4);
    assert_eq!(out[3].weight, MASS_ONE / 2 / 4);
    assert_eq!(out[4].weight, 7);
}

#[test]
fn score_never_rises_with_the_threshold() {
    let wins = vec![0, 2_000_000, 10_000_000];
    let draws = vec![vec![0, 1, 0, 2], vec![1, 1, 1, 1], vec![0, 0, 0, 1]];
    let spins = vec![2, 4];
    let weights = vec![UNIT / 2, UNIT / 2];
    let mut last = u64::MAX;
    for pmb in [0u64, 250_000, 500_000, 1_000_000, 2_000_000, 4_000_000] {
        let s = score_draws(&wins, &draws, UNIT, &spins, &weights, pmb);
        assert!(s <= last);
        last = s;
    }
    assert_eq!(score_draws(&wins, &draws, UNIT, &spins, &weights, 0), UNIT);
    assert_eq!(score_draws(&wins, &draws, UNIT, &spins, &weights, 1_000_000), 666_666);
}

#[test]
fn scoring_two_equal_payouts() {
    let wins = vec![0, 10 * UNIT];
    let weights = vec![1, 1];
    let score = run_simulation(&wins, &weights, 1000, UNIT, &vec![10], &vec![UNIT], 500_000).unwrap();
    // at least one payout of 10 among 10 spins: 1 - 2^-10
    assert!(score >= 985_000, "score {}", score);
}

#[test]
fn scoring_needs_mass() {
    let r = run_simulation(&vec![0, 1], &vec![0, 0], 10, UNIT, &vec![5], &vec![UNIT], 0);
    assert!(matches!(r, Err(FarmError::InvalidWeights)));
    let r2 = run_enhanced_simulation(&vec![0, 1], &vec![0, 0], 10, UNIT, &vec![5], 0);
    assert!(matches!(r2, Err(FarmError::InvalidWeights)));
}

#[test]
fn sampling_only_draws_weighted_payouts() {
    let wins = vec![0, 5 * UNIT];
    let score = run_simulation(&wins, &vec![0, 9], 50, UNIT, &vec![3], &vec![UNIT], 5 * UNIT).unwrap();
    assert_eq!(score, UNIT);
    let never = run_simulation(&wins, &vec![9, 0], 50, UNIT, &vec![3], &vec![UNIT], 1).unwrap();
    assert_eq!(never, 0);
}

#[test]
fn full_curve_covers_every_spin_count() {
    let curve = run_enhanced_simulation(&vec![0, 5 * UNIT], &vec![0, 1], 20, UNIT, &vec![2, 7, 4], UNIT).unwrap();
    assert_eq!(curve.len(), 7);
    assert!(curve.iter().all(|c| *c == 20));
    assert_eq!(max_spins(&vec![2, 7, 4]), 7);
    assert_eq!(max_spins(&vec![]), 0);
}

#[test]
fn search_keeps_a_non_decreasing_best() {
    let (fences, pens) = two_bucket_setup();
    let found = create_show_pigs(&fences, &pens, 20, &vec![5, 10], &vec![UNIT / 2, UNIT / 2], 50, UNIT, 500_000).unwrap();
    assert!(found.len() <= 20);
    for w in found.windows(2) {
        assert!(w[0].success_score <= w[1].success_score);
    }
    assert!(found.iter().all(|s| s.success_score > 0 && s.pig_indexes.len() == 2));
    let ranked = rank_show_pigs(found.clone());
    assert_eq!(ranked.len(), found.len());
    for w in ranked.windows(2) {
        assert!(w[0].success_score >= w[1].success_score);
    }
}

#[test]
fn ranks_by_score_best_first() {
    let pigs = vec![
        ShowPig { pig_indexes: vec![0], success_score: 3 },
        ShowPig { pig_indexes: vec![1], success_score: 9 },
        ShowPig { pig_indexes: vec![2], success_score: 5 },
    ];
    let r = rank_show_pigs(pigs);
    assert_eq!(r.iter().map(|p| p.success_score).collect::<Vec<_>>(), vec![9, 5, 3]);
    assert_eq!(r[0].pig_indexes, vec![1]);
}

#[test]
fn win_rate_bands() {
    let wins = vec![0, 50_000, 1_500_000, 4_000_000, 5_000_000_000];
    let weights = vec![10, 20, 30, 40, 50];
    let bands = get_win_ranges(&wins, &weights);
    assert_eq!(bands.len(), 15);
    assert_eq!(bands[0], 30);
    assert_eq!(bands[1], 0);
    assert_eq!(bands[2], 30);
    assert_eq!(bands[4], 40);
    assert_eq!(bands[14], 50);
}

#[test]
fn builds_the_buckets_of_a_bet_mode() {
    let jsons = vec![
        fence_json("zero", Some("2"), None, Some("0"), ic(vec![], false, 0, 0)),
        fence_json("base", Some("x"), Some("1"), None, ic(vec![], false, -1, -1)),
    ];
    let mut table = vec![entry(1, 0), entry(2, 100), entry(3, 300)];
    let fences = build_fences(jsons, UNIT, &Vec::new(), &Vec::new(), &mut table).unwrap();
    assert_eq!(fences.len(), 2);
    assert_eq!(fences[1].hr, 2 * UNIT);
    assert_eq!(fences[0].outcomes.len(), 1);
    assert_eq!(fences[1].outcomes.len(), 2);
    let h = pig_heaven_for(&fences[1], Vec::new(), 2 * UNIT, 9).unwrap();
    assert_eq!(h.wins, vec![1_000_000, 3_000_000]);
    assert_eq!(h.avg_win, 4 * UNIT);
    assert_eq!(h.min_win, 1_000_000);
    assert_eq!(h.max_win, 3_000_000);
    let missing = vec![fence_json("big", Some("10"), None, Some("7"), ic(vec![], false, 7 * UNIT as i64, 7 * UNIT as i64))];
    let r = build_fences(missing, UNIT, &Vec::new(), &Vec::new(), &mut vec![entry(1, 0)]);
    assert!(matches!(r, Err(FarmError::PayoutMissing)));
}

#[test]
fn finds_the_bet_mode() {
    let config = ConfigData {
        game_id: "g".to_string(),
        bet_modes: vec![
            BetMode { bet_mode: "base".to_string(), cost: UNIT, rtp: 960_000, max_win: 5000 * UNIT },
            BetMode { bet_mode: "bonus".to_string(), cost: 100 * UNIT, rtp: 960_000, max_win: 5000 * UNIT },
        ],
        fences: Vec::new(),
        dresses: Vec::new(),
        bias: Vec::new(),
    };
    assert_eq!(bet_mode_index(&config, &"bonus".to_string()), Some(1));
    assert_eq!(bet_mode_index(&config, &"super".to_string()), None);
}

#[test]
fn child_carries_its_parents_jitter() {
    let wins = vec![1_000_000, 2_000_000, 10_000_000];
    let pos = get_weights_no_weight_array(&wins, &vec![1000, 1000, 8000], &Vec::new(), 11, 300_000).unwrap();
    let neg = get_weights_no_weight_array(&wins, &vec![8000, 1000, 1000], &Vec::new(), 22, 700_000).unwrap();
    let replay = get_weights_no_weight_array(&wins, &vec![1000, 1000, 8000], &Vec::new(), 11, 300_000).unwrap();
    assert_eq!(pos.weights, replay.weights);
    let avg_pos = pos.win_total as f64 / pos.sum_dist as f64;
    let avg_neg = neg.win_total as f64 / neg.sum_dist as f64;
    let target = ((avg_pos + avg_neg) / 2.0) as u64;
    let child = breed_pigs(&pos, &neg, &wins, target);
    assert_eq!(child.random_seeds, vec![11, 22]);
    assert_eq!(child.random_weights, vec![300_000, 700_000]);
    let again = breed_pigs(&pos, &neg, &wins, target);
    assert_eq!(child.weights, again.weights);
}

#[test]
fn finds_bias_and_bucket_lists() {
    let rules = vec![
        BiasJson { criteria: "free".to_string(), range: WinRange { low: 1, high: 2 }, prob: 10 },
        BiasJson { criteria: "base".to_string(), range: WinRange { low: 3, high: 4 }, prob: 20 },
    ];
    assert_eq!(bias_for(&rules, &"base".to_string()), Some(1));
    assert_eq!(bias_for(&rules, &"none".to_string()), None);
    let config = ConfigData {
        game_id: "g".to_string(),
        bet_modes: Vec::new(),
        fences: vec![FencesInfo { bet_mode: "base".to_string(), fences: Vec::new() }],
        dresses: Vec::new(),
        bias: Vec::new(),
    };
    assert_eq!(fences_index(&config, &"base".to_string()), Some(0));
}

#[test]
fn outcome_weights_are_rounded() {
    let mut total = 0u64;
    let mut f = parse_fence_info(fence_json("big", Some("100"), None, Some("50"), ic(vec![], false, 50 * UNIT as i64, 50 * UNIT as i64)), &mut total, UNIT, &Vec::new()).unwrap();
    let catalog: Vec<LookUpTableEntry> = (1..=7).map(|id| entry(id, 5000)).collect();
    let mut table = catalog.clone();
    sort_wins_by_parameter(&mut f, &Vec::new(), &mut table);
    let out = lookup_weights(&catalog, &vec![f], &vec![Vec::new()], &vec![0]);
    let expected = ((MASS_ONE as f64) / 700.0).round() as u64;
    assert_eq!(expected, 1_608_428_438_347);
    assert!(out.iter().all(|e| e.weight == expected));
}

#[test]
fn bucket_mass_is_rounded() {
    let mut total = 0u64;
    let f = parse_fence_info(fence_json("third", Some("3"), Some("1"), None, ic(vec![], false, -1, -1)), &mut total, UNIT, &Vec::new()).unwrap();
    assert_eq!(f.mass, ((MASS_ONE as f64) / 3.0).round() as u64);
    let g = parse_fence_info(fence_json("sixth", Some("6"), Some("1"), None, ic(vec![], false, -1, -1)), &mut 0u64, UNIT, &Vec::new()).unwrap();
    assert_eq!(g.mass, 187_649_984_473_771);
}

#[test]
fn region_for_given_draws() {
    let fixed = Dress { fence: "a".to_string(), scale_factor: ScaleFactor::Factor(3 * UNIT), identity_condition_win_range: WinRange { low: 1, high: 2 }, prob: 400_000 };
    assert_eq!(pick_region(&fixed, 399_999, 0), Some(Region { low: 1, high: 2, scale: 3 * UNIT }));
    assert_eq!(pick_region(&fixed, 400_000, 0), None);
    let redrawn = Dress { fence: "a".to_string(), scale_factor: ScaleFactor::FactorR(2 * UNIT), identity_condition_win_range: WinRange { low: 5, high: 9 }, prob: UNIT };
    assert_eq!(pick_region(&redrawn, 999_999, 250_000), Some(Region { low: 5, high: 9, scale: 500_000 }));
}

#[test]
fn realized_rtp_totals_the_table() {
    let table = vec![
        LookUpTableEntry { id: 1, weight: 3, win: 0 },
        LookUpTableEntry { id: 2, weight: 1, win: 4 * UNIT },
    ];
    assert_eq!(realized_rtp(&table), Some((4 * UNIT as u128, 4)));
    let huge = vec![
        LookUpTableEntry { id: 1, weight: u64::MAX, win: u64::MAX },
        LookUpTableEntry { id: 2, weight: u64::MAX, win: u64::MAX },
    ];
    assert_eq!(realized_rtp(&huge), None);
}

#[test]
fn pools_give_up_after_their_offers() {
    let h = heaven(vec![1_000_000, 2_000_000, 10_000_000], 3_000_000, 4);
    let mut pens = Pens::new(&h);
    for _ in 0..5 {
        pens.offer(&h, flat_pig(&h.wins, vec![1, 1, 8], 1));
    }
    pens.note_discarded();
    assert_eq!(pens.loop_count, 6);
    assert!(pens.exhausted(6));
    assert!(!pens.exhausted(7));
}

#[test]
fn resolving_an_overflowing_hit_rate_fails_the_setup() {
    let jsons = vec![
        fence_json("almost", Some("1.000001"), Some("1"), None, ic(vec![], false, -1, -1)),
        fence_json("rest", Some("x"), Some("18000000000000"), None, ic(vec![], false, -1, -1)),
    ];
    let r = build_fences(jsons, UNIT, &Vec::new(), &Vec::new(), &mut vec![entry(1, 100)]);
    assert!(matches!(r, Err(FarmError::NumberTooLarge)));
    let bad = vec![fence_json("a", Some("?"), None, None, ic(vec![], false, -1, -1))];
    assert!(matches!(build_fences(bad, UNIT, &Vec::new(), &Vec::new(), &mut Vec::new()), Err(FarmError::BadNumber)));
}

#[test]
fn complement_bucket_weights_use_its_exact_mass() {
    let mut total = 0u64;
    let mut third = parse_fence_info(fence_json("third", Some("3"), None, Some("0"), ic(vec![], false, 0, 0)), &mut total, UNIT, &Vec::new()).unwrap();
    let mut rest = parse_fence_info(fence_json("rest", Some("x"), Some("1"), None, ic(vec![], false, 200 * 10_000, 200 * 10_000)), &mut total, UNIT, &Vec::new()).unwrap();
    resolve_unknown_hit_rate(&mut rest, total).unwrap();
    assert!(rest.complement && !third.complement);
    assert_eq!(rest.mass, MASS_ONE - third.mass);
    let catalog = vec![entry(1, 0), entry(2, 200), entry(3, 200), entry(4, 200)];
    let mut table = catalog.clone();
    sort_wins_by_parameter(&mut third, &Vec::new(), &mut table);
    sort_wins_by_parameter(&mut rest, &Vec::new(), &mut table);
    let out = lookup_weights(&catalog, &vec![third, rest.clone()], &vec![Vec::new(), Vec::new()], &vec![0, 0]);
    assert_eq!(out[0].weight, ((MASS_ONE as f64) / 3.0).round() as u64);
    assert_eq!(out[1].weight, (2 * rest.mass + 3) / 6);
}
