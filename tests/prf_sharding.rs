use ipa_core::attribution::{
    is_trigger_event_within_attribution_window, BitWidths, PrfShardedIpaInputRow,
};
use ipa_core::context::{Context, IdentitySeeds, PrssSeeds, Step};
use ipa_core::error::Error;
use ipa_core::helpers::{HelperIdentity, Role, RoleAssignment, TotalRecords};
use ipa_core::prf_sharding::{
    attribute_cap_aggregate, chunk_rows_by_user, compute_histogram_of_users_with_row_count,
    dispatch_positions, dispatch_users, set_up_contexts,
};
use ipa_core::share::{share_bits, SharedBit};

fn seeds() -> PrssSeeds {
    PrssSeeds { h1_h2: 0x1234_5678_9abc_def0, h2_h3: 0x0fed_cba9_8765_4321, h3_h1: 0x5555_aaaa_3333_cccc }
}

fn widths(bk: usize) -> BitWidths {
    BitWidths { breakdown_key: bk, trigger_value: 3, timestamp: 20, saturating_sum: 5 }
}

fn row(w: &BitWidths, n: u64, key: u64, is_trigger: bool, bk: u64, tv: u64, ts: u64) -> PrfShardedIpaInputRow {
    let m = n.wrapping_mul(0x9E37_79B9_7F4A_7C15);
    PrfShardedIpaInputRow {
        prf_of_match_key: key,
        is_trigger_bit: share_bits(is_trigger as u64, 1, m, m >> 7)[0],
        breakdown_key: share_bits(bk, w.breakdown_key, m >> 3, m >> 11),
        trigger_value: share_bits(tv, w.trigger_value, m >> 5, m >> 13),
        timestamp: share_bits(ts, w.timestamp, m >> 17, m >> 23),
    }
}

fn rows(w: &BitWidths, spec: &[(u64, bool, u64, u64, u64)]) -> Vec<PrfShardedIpaInputRow> {
    spec.iter()
        .enumerate()
        .map(|(i, &(key, t, bk, tv, ts))| row(w, i as u64 + 1, key, t, bk, tv, ts))
        .collect()
}

fn run(
    seeds: PrssSeeds,
    w: &BitWidths,
    input: &Vec<PrfShardedIpaInputRow>,
    window: Option<u32>,
    histogram: &[usize],
) -> Vec<u128> {
    let ctx = Context::new(seeds, 16);
    attribute_cap_aggregate(&ctx, input, window, &histogram.to_vec(), w)
        .unwrap()
        .iter()
        .map(|s| s.reconstruct() as u128)
        .collect()
}

fn scenario_one(w: &BitWidths) -> Vec<PrfShardedIpaInputRow> {
    rows(
        w,
        &[
            (123, false, 17, 0, 0),
            (123, true, 0, 7, 0),
            (123, false, 20, 0, 0),
            (123, true, 0, 3, 0),
            (234, false, 12, 0, 0),
            (234, true, 0, 5, 0),
            (345, false, 20, 0, 0),
            (345, true, 0, 7, 0),
            (345, false, 18, 0, 0),
            (345, false, 12, 0, 0),
            (345, true, 0, 7, 0),
            (345, true, 0, 7, 0),
            (345, true, 0, 7, 0),
            (345, true, 0, 7, 0),
        ],
    )
}

#[test]
fn semi_honest_aggregation_capping_attribution() {
    let w = widths(5);
    let input = scenario_one(&w);
    let mut expected = [0_u128; 32];
    expected[12] = 30;
    expected[17] = 7;
    expected[20] = 10;
    let histogram = [3, 3, 2, 2, 1, 1, 1, 1];
    let result = run(seeds(), &w, &input, None, &histogram);
    assert_eq!(result, &expected);
}

#[test]
fn semi_honest_aggregation_capping_attribution_with_attribution_window() {
    const ATTRIBUTION_WINDOW_SECONDS: u32 = 200;
    let w = widths(5);
    let input = rows(
        &w,
        &[
            (123, false, 17, 0, 1),
            (123, true, 0, 7, 200),
            (123, false, 20, 0, 200),
            (123, true, 0, 3, 300),
            (234, false, 12, 0, 0),
            (234, true, 0, 5, 200),
            (345, false, 20, 0, 0),
            (345, true, 0, 3, 100),
            (345, false, 18, 0, 200),
            (345, false, 12, 0, 300),
            (345, true, 0, 3, 400),
            (345, true, 0, 3, 499),
            (345, true, 0, 3, 501),
            (345, true, 0, 3, 700),
        ],
    );
    let mut expected = [0_u128; 32];
    expected[12] = 11;
    expected[17] = 7;
    expected[20] = 6;
    let histogram = [3, 3, 2, 2, 1, 1, 1, 1];
    let result = run(seeds(), &w, &input, Some(ATTRIBUTION_WINDOW_SECONDS), &histogram);
    assert_eq!(result, &expected);
}

#[test]
fn capping_bugfix() {
    const HISTOGRAM: [usize; 10] = [5, 5, 5, 5, 5, 5, 5, 2, 1, 1];
    let w = widths(8);
    let mut spec = vec![(10_251_308_645, false, 218, 0, 0)];
    for v in [3, 3, 5, 6, 1, 2, 6, 6, 6] {
        spec.push((10_251_308_645, true, 0, v, 0));
    }
    spec.push((1, false, 53, 0, 0));
    for _ in 0..7 {
        spec.push((1, true, 0, 7, 0));
    }
    spec.push((2, false, 12, 0, 0));
    for v in [6, 4, 6, 4, 6, 6] {
        spec.push((2, true, 0, v, 0));
    }
    spec.push((3, false, 78, 0, 0));
    for v in [7, 6, 5, 7, 6, 5] {
        spec.push((3, true, 0, v, 0));
    }
    spec.push((4, false, 44, 0, 0));
    for v in [4, 5, 6, 5, 4, 7] {
        spec.push((4, true, 0, v, 0));
    }
    let input = rows(&w, &spec);
    let mut expected = [0_u128; 256];
    expected[218] = 1 << 5;
    expected[53] = 1 << 5;
    expected[12] = 1 << 5;
    expected[78] = 1 << 5;
    expected[44] = 31;
    let result = run(seeds(), &w, &input, None, &HISTOGRAM);
    assert_eq!(result, &expected);
}

#[test]
fn empty_input_gives_zero_buckets() {
    let w = widths(5);
    let input: Vec<PrfShardedIpaInputRow> = Vec::new();
    let result = run(seeds(), &w, &input, None, &[]);
    assert_eq!(result, vec![0_u128; 32]);
}

#[test]
fn single_user_single_row_gives_zero_buckets() {
    let w = widths(5);
    let input = rows(&w, &[(7, false, 3, 0, 0)]);
    let result = run(seeds(), &w, &input, None, &[1]);
    assert_eq!(result, vec![0_u128; 32]);
}

#[test]
fn user_with_one_row_contributes_nothing() {
    let w = widths(5);
    let input = rows(&w, &[(1, true, 0, 7, 0), (2, false, 4, 0, 0), (2, true, 0, 6, 0)]);
    let result = run(seeds(), &w, &input, None, &[2, 1]);
    let mut expected = vec![0_u128; 32];
    expected[4] = 6;
    assert_eq!(result, expected);
}

#[test]
fn perfect_saturation_contributes_exactly_the_cap() {
    let w = widths(5);
    let input = rows(
        &w,
        &[
            (9, false, 21, 0, 0),
            (9, true, 0, 7, 0),
            (9, true, 0, 7, 0),
            (9, true, 0, 7, 0),
            (9, true, 0, 7, 0),
            (9, true, 0, 4, 0),
            (9, true, 0, 5, 0),
        ],
    );
    let result = run(seeds(), &w, &input, None, &[1, 1, 1, 1, 1, 1, 1]);
    let mut expected = vec![0_u128; 32];
    expected[21] = 32;
    assert_eq!(result, expected);
}

#[test]
fn trigger_first_contributes_nothing() {
    let w = widths(5);
    let input = rows(&w, &[(5, true, 0, 7, 0), (5, true, 0, 6, 0), (5, false, 9, 0, 0), (5, true, 0, 2, 0)]);
    let result = run(seeds(), &w, &input, None, &[1, 1, 1, 1]);
    let mut expected = vec![0_u128; 32];
    expected[9] = 2;
    assert_eq!(result, expected);
}

#[test]
fn wrong_histogram_is_refused() {
    let w = widths(5);
    let input = scenario_one(&w);
    let ctx = Context::new(seeds(), 16);
    let r = attribute_cap_aggregate(&ctx, &input, None, &vec![3, 3, 2, 2, 1, 1, 1], &w);
    assert_eq!(r.err(), Some(Error::InputInvariantViolated));
}

#[test]
fn histogram_of_two_users() {
    let w = widths(5);
    let mut spec = Vec::new();
    for i in 0..3 {
        spec.push((11, i > 0, 1, 1, 0));
    }
    for i in 0..7 {
        spec.push((22, i > 0, 2, 1, 0));
    }
    let input = rows(&w, &spec);
    assert_eq!(compute_histogram_of_users_with_row_count(&input), vec![2, 2, 2, 1, 1, 1, 1]);
    assert_eq!(compute_histogram_of_users_with_row_count(&input[..2].to_vec()), vec![1, 1]);
}

#[test]
fn same_result_for_other_seeds() {
    let w = widths(5);
    let input = scenario_one(&w);
    let histogram = [3, 3, 2, 2, 1, 1, 1, 1];
    let a = run(seeds(), &w, &input, None, &histogram);
    let rotated = PrssSeeds { h1_h2: seeds().h2_h3, h2_h3: seeds().h3_h1, h3_h1: seeds().h1_h2 };
    let b = run(rotated, &w, &input, None, &histogram);
    assert_eq!(a, b);
}

#[test]
fn same_shares_for_same_seeds() {
    let w = widths(5);
    let input = scenario_one(&w);
    let histogram = vec![3, 3, 2, 2, 1, 1, 1, 1];
    let ctx = Context::new(seeds(), 16);
    let a = attribute_cap_aggregate(&ctx, &input, None, &histogram, &w).unwrap();
    let b = attribute_cap_aggregate(&ctx, &input, None, &histogram, &w).unwrap();
    assert_eq!(a, b);
}

#[test]
fn row_contexts_and_record_ids_follow_histogram() {
    let w = widths(5);
    let mut spec = Vec::new();
    for i in 0..3 {
        spec.push((11, i > 0, 1, 1, 0));
    }
    for i in 0..7 {
        spec.push((22, i > 0, 2, 1, 0));
    }
    let input = rows(&w, &spec);
    let histogram = compute_histogram_of_users_with_row_count(&input);
    let root = Context::new(seeds(), 4).narrow(Step::BinaryValidator);
    let contexts = set_up_contexts(&root, &histogram);
    assert_eq!(contexts.len(), 6);
    for (k, c) in contexts.iter().enumerate() {
        let d = k + 1;
        assert_eq!(c.gate.path, vec![Step::BinaryValidator, Step::Row(d)]);
        assert_eq!(c.total_records, TotalRecords::Specified(histogram[d]));
    }
    let runs = chunk_rows_by_user(&input);
    assert_eq!(runs, vec![(0, 3), (3, 10)]);
    let lens: Vec<usize> = runs.iter().map(|(s, e)| e - s).collect();
    // The longer user goes first: record id 0 at every depth; the shorter one gets 1.
    assert_eq!(dispatch_positions(&lens), vec![1, 0]);
    for d in 1..7 {
        let ids: Vec<u32> = (0..2).filter(|&u| lens[u] > d).map(|u| dispatch_positions(&lens)[u]).collect();
        let mut sorted = ids.clone();
        sorted.sort();
        assert_eq!(sorted, (0..histogram[d] as u32).collect::<Vec<_>>());
    }
}

#[test]
fn same_result_across_role_permutations() {
    let w = widths(5);
    let input = scenario_one(&w);
    let histogram = [3, 3, 2, 2, 1, 1, 1, 1];
    let agreed = IdentitySeeds { one_two: 0xaaaa, two_three: 0xbbbb, three_one: 0xcccc };
    let id = |v| HelperIdentity::try_from_usize(v).unwrap();
    let straight = RoleAssignment::new([id(1), id(2), id(3)]);
    let rotated = RoleAssignment::new([id(2), id(3), id(1)]);
    let s1 = PrssSeeds::for_roles(&straight, &agreed);
    let s2 = PrssSeeds::for_roles(&rotated, &agreed);
    assert_ne!(s1, s2);
    assert_eq!(rotated.role(id(1)), Role::H3);
    let a = run(s1, &w, &input, None, &histogram);
    let b = run(s2, &w, &input, None, &histogram);
    assert_eq!(a, b);
    let mut expected = vec![0_u128; 32];
    expected[12] = 30;
    expected[17] = 7;
    expected[20] = 10;
    assert_eq!(a, expected);
}

#[test]
fn window_wider_than_timestamps_credits_every_trigger() {
    let w = widths(5);
    let input = rows(&w, &[(1, false, 6, 0, 100), (1, true, 0, 3, 105), (2, false, 9, 0, 0), (2, true, 0, 4, 700_000)]);
    let mut expected = vec![0_u128; 32];
    expected[6] = 3;
    expected[9] = 4;
    assert_eq!(run(seeds(), &w, &input, Some(1 << 20), &[2, 2]), expected);
    assert_eq!(run(seeds(), &w, &input, Some(1_209_600), &[2, 2]), expected);
    let mut narrow = vec![0_u128; 32];
    narrow[6] = 3;
    assert_eq!(run(seeds(), &w, &input, Some(5), &[2, 2]), narrow);
}

#[test]
fn chunking_drops_single_row_users() {
    let w = widths(5);
    let input = rows(
        &w,
        &[(1, false, 1, 0, 0), (2, false, 2, 0, 0), (2, true, 0, 1, 0), (3, true, 0, 1, 0), (4, false, 1, 0, 0), (4, true, 0, 2, 0), (4, true, 0, 2, 0), (5, false, 3, 0, 0)],
    );
    assert_eq!(chunk_rows_by_user(&input), vec![(1, 3), (4, 7)]);
    assert_eq!(chunk_rows_by_user(&input[..1].to_vec()), vec![]);
}

#[test]
fn dispatch_plan_gives_contiguous_ids_per_depth() {
    let w = widths(5);
    let mut spec = vec![(1, false, 1, 0, 0)];
    for (key, n) in [(2, 3), (3, 1), (4, 5), (5, 2), (6, 5)] {
        for i in 0..n {
            spec.push((key, i > 0, 1, 1, 0));
        }
    }
    let input = rows(&w, &spec);
    let histogram = compute_histogram_of_users_with_row_count(&input);
    let (runs, ids) = dispatch_users(&input);
    assert_eq!(runs, vec![(1, 4), (5, 10), (10, 12), (12, 17)]);
    assert_eq!(ids, vec![2, 0, 3, 1]);
    for d in 1..histogram.len() {
        let mut at_depth: Vec<u32> = (0..runs.len()).filter(|&u| runs[u].1 - runs[u].0 > d).map(|u| ids[u]).collect();
        at_depth.sort();
        assert_eq!(at_depth, (0..histogram[d] as u32).collect::<Vec<_>>());
    }
}

#[test]
fn no_window_means_known_one() {
    let ts = share_bits(700, 20, 3, 4);
    let src = share_bits(10, 20, 5, 6);
    let r = is_trigger_event_within_attribution_window(&Context::new(seeds(), 2), 0, None, &ts, &src);
    assert_eq!(r, SharedBit::share_known_value(true));
}
