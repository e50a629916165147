//! The scheduler: grouping rows by user, depth histogram, per-depth contexts, record ids, and
//! the attribute-cap-aggregate pipeline that runs the per-user circuits and sums by bucket.
use crate::aggregation::{
    add_contribution, convert_bits, move_single_value_to_bucket, to_additive_sharing_in_large_field,
};
use crate::attribution::{
    attributed_value, attribution_step, initial_state, initialize_new_device_attribution_variables,
    BitWidths, CappedAttributionOutputs, ClearOutput, ClearRow, ClearState, GroupingKey,
    PrfShardedIpaInputRow,
};
use crate::boolean_ops::add_spec;
use crate::context::{Context, Step, UserNthRowStep};
use crate::error::Error;
use crate::ff::{fp, SharedField, PRIME};
use crate::helpers::total_records_of;
use crate::share::lemma_bits_to_nat_bound;
use vstd::arithmetic::div_mod::{
    lemma_add_mod_noop, lemma_fundamental_div_mod, lemma_mod_multiples_basic,
    lemma_mod_multiples_vanish, lemma_small_mod,
};
use vstd::arithmetic::power2::{
    lemma_pow2_adds, lemma_pow2_pos, lemma_pow2_strictly_increases, lemma_pow2_unfold, pow2,
};
use vstd::prelude::*;

verus! {

/// Whether row `i` continues the user of row `i - 1`.
pub open spec fn continues(keys: Seq<u64>, i: int) -> bool {
    0 < i < keys.len() && keys[i] == keys[i - 1]
}

/// How many rows of its user come before row `i`.
pub open spec fn depth_of(keys: Seq<u64>, i: int) -> nat
    decreases i,
{
    if i <= 0 || i >= keys.len() || keys[i] != keys[i - 1] {
        0
    } else {
        depth_of(keys, i - 1) + 1
    }
}

/// How many of the first `n` rows are at depth `d` of their user, which is how many users
/// have more than `d` rows among them.
pub open spec fn count_at_depth(keys: Seq<u64>, n: int, d: nat) -> nat
    decreases n,
{
    if n <= 0 {
        0
    } else {
        count_at_depth(keys, n - 1, d) + if depth_of(keys, n - 1) == d {
            1nat
        } else {
            0nat
        }
    }
}

/// The histogram of a grouping column: entry `d` counts the users with more than `d` rows,
/// and the histogram is exactly as long as the longest user.
pub open spec fn is_histogram(keys: Seq<u64>, h: Seq<usize>) -> bool {
    &&& forall|d: int| 0 <= d < h.len() ==> #[trigger] h[d] == count_at_depth(keys, keys.len() as int, d as nat)
    &&& forall|d: int| 0 <= d < h.len() ==> #[trigger] h[d] > 0
    &&& forall|i: int| 0 <= i < keys.len() ==> #[trigger] depth_of(keys, i) < h.len()
}

pub open spec fn keys_of<S: GroupingKey>(input: Seq<S>) -> Seq<u64> {
    Seq::new(input.len(), |i: int| input[i].spec_grouping_key())
}

proof fn lemma_depth_bound(keys: Seq<u64>, i: int)
    requires
        0 <= i,
    ensures
        depth_of(keys, i) <= i,
    decreases i,
{
    if i > 0 {
        lemma_depth_bound(keys, i - 1);
    }
}

proof fn lemma_count_bound(keys: Seq<u64>, n: int, d: nat)
    requires
        0 <= n,
    ensures
        count_at_depth(keys, n, d) <= n,
    decreases n,
{
    if n > 0 {
        lemma_count_bound(keys, n - 1, d);
    }
}

/// Entry `d` is the number of users with more than `d` rows, for input grouped by user.
pub fn compute_histogram_of_users_with_row_count<S: GroupingKey>(input: &Vec<S>) -> (r: Vec<usize>)
    ensures
        is_histogram(keys_of(input@), r@),
{
    let ghost keys = keys_of(input@);
    let mut histogram: Vec<usize> = Vec::new();
    let mut last_key: u64 = 0;
    let mut cur_count: usize = 0;
    let mut i: usize = 0;
    while i < input.len()
        invariant
            keys == keys_of(input@),
            i <= input@.len(),
            i > 0 ==> last_key == keys[i - 1] && cur_count == depth_of(keys, i - 1),
            forall|d: int|
                0 <= d < histogram@.len() ==> #[trigger] histogram@[d] == count_at_depth(
                    keys,
                    i as int,
                    d as nat,
                ),
            forall|d: int| 0 <= d < histogram@.len() ==> #[trigger] histogram@[d] > 0,
            forall|j: int| 0 <= j < i ==> #[trigger] depth_of(keys, j) < histogram@.len(),
            forall|d: nat| d >= histogram@.len() ==> #[trigger] count_at_depth(keys, i as int, d) == 0,
        decreases input@.len() - i,
    {
        let key = input[i].get_grouping_key();
        proof {
            lemma_depth_bound(keys, i as int);
        }
        if i > 0 && key == last_key {
            cur_count = cur_count + 1;
        } else {
            cur_count = 0;
            last_key = key;
        }
        assert(cur_count == depth_of(keys, i as int));
        if histogram.len() <= cur_count {
            histogram.push(0);
        }
        proof {
            lemma_count_bound(keys, i as int, cur_count as nat);
        }
        let c = histogram[cur_count];
        histogram.set(cur_count, c + 1);
        last_key = key;
        proof {
            assert forall|d: nat| d >= histogram@.len() implies #[trigger] count_at_depth(
                keys,
                i + 1,
                d,
            ) == 0 by {
                assert(count_at_depth(keys, i + 1, d) == count_at_depth(keys, i as int, d));
            }
        }
        i += 1;
    }
    histogram
}

/// No row in `[a, b)` continues its user: each is the only row of its user that lies there.
pub open spec fn gap_free(keys: Seq<u64>, a: int, b: int) -> bool {
    forall|i: int| a <= i < b ==> !#[trigger] continues(keys, i)
}

/// The runs of the users with at least two rows, as `[start, end)` ranges in input order; every
/// row outside them is a user's only row.
pub open spec fn is_multi_row_runs(keys: Seq<u64>, runs: Seq<(usize, usize)>) -> bool {
    &&& forall|k: int|
        0 <= k < runs.len() ==> #[trigger] is_user_run(keys, runs[k].0 as int, runs[k].1 as int)
            && runs[k].1 - runs[k].0 >= 2
    &&& forall|k: int| 0 <= k < runs.len() - 1 ==> #[trigger] runs[k].1 <= runs[k + 1].0
    &&& runs.len() == 0 ==> gap_free(keys, 0, keys.len() as int)
    &&& runs.len() > 0 ==> gap_free(keys, 0, runs[0].0 as int) && gap_free(
        keys,
        runs.last().1 as int,
        keys.len() as int,
    )
    &&& forall|k: int|
        0 <= k < runs.len() - 1 ==> gap_free(keys, #[trigger] runs[k].1 as int, runs[k + 1].0 as int)
}

/// `[s, e)` holds exactly one user's rows.
pub open spec fn is_user_run(keys: Seq<u64>, s: int, e: int) -> bool {
    &&& 0 <= s < e <= keys.len()
    &&& !continues(keys, s)
    &&& forall|i: int| s < i < e ==> #[trigger] continues(keys, i)
    &&& e < keys.len() ==> !continues(keys, e)
}

/// Inside a user's run, a row's depth is its distance from the run's start.
pub proof fn lemma_depth_in_run(keys: Seq<u64>, s: int, e: int, i: int)
    requires
        is_user_run(keys, s, e),
        s <= i < e,
    ensures
        depth_of(keys, i) == i - s,
    decreases i - s,
{
    if i > s {
        assert(continues(keys, i));
        lemma_depth_in_run(keys, s, e, i - 1);
    }
}

/// Each range is one user's rows, at least two of them.
#[verifier::opaque]
pub open spec fn runs_are_users(keys: Seq<u64>, runs: Seq<(usize, usize)>) -> bool {
    forall|k: int|
        0 <= k < runs.len() ==> #[trigger] is_user_run(keys, runs[k].0 as int, runs[k].1 as int)
            && runs[k].1 - runs[k].0 >= 2
}

/// Splits the input into the runs of rows of each user, in input order, and drops the users
/// with a single row: they produce no output.
pub fn chunk_rows_by_user<S: GroupingKey>(input: &Vec<S>) -> (r: Vec<(usize, usize)>)
    ensures
        is_multi_row_runs(keys_of(input@), r@),
{
    let ghost keys = keys_of(input@);
    let mut runs: Vec<(usize, usize)> = Vec::new();
    if input.len() == 0 {
        return runs;
    }
    let n = input.len();
    let mut start: usize = 0;
    let ghost mut prev_end: int = 0;
    let mut last_key = input[0].get_grouping_key();
    let mut i: usize = 1;
    proof {
        reveal(runs_are_users);
    }
    while i < n
        invariant
            keys == keys_of(input@),
            n == input@.len(),
            0 <= start < i <= n,
            last_key == keys[i - 1],
            !continues(keys, start as int),
            forall|j: int| start < j < i ==> #[trigger] continues(keys, j),
            0 <= prev_end <= start,
            gap_free(keys, prev_end, start as int),
            runs@.len() > 0 ==> prev_end == runs@.last().1,
            runs@.len() == 0 ==> prev_end == 0,
            runs@.len() > 0 ==> gap_free(keys, 0, runs@[0].0 as int),
            forall|k: int| 0 <= k < runs@.len() - 1 ==> #[trigger] runs@[k].1 <= runs@[k + 1].0,
            forall|k: int|
                0 <= k < runs@.len() - 1 ==> gap_free(
                    keys,
                    #[trigger] runs@[k].1 as int,
                    runs@[k + 1].0 as int,
                ),
            runs_are_users(keys, runs@),
        decreases n - i,
    {
        let key = input[i].get_grouping_key();
        if key != last_key {
            // The user of rows `[start, i)` ends here.
            proof {
                assert(!continues(keys, i as int));
            }
            if i - start >= 2 {
                proof {
                    assert(is_user_run(keys, start as int, i as int));
                    if runs@.len() == 0 {
                        assert(gap_free(keys, 0, start as int));
                    }
                }
                let ghost before = runs@;
                runs.push((start, i));
                proof {
                    reveal(runs_are_users);
                    prev_end = i as int;
                    assert forall|k: int| 0 <= k < runs@.len() implies #[trigger] is_user_run(
                        keys,
                        runs@[k].0 as int,
                        runs@[k].1 as int,
                    ) && runs@[k].1 - runs@[k].0 >= 2 by {
                        if k < before.len() {
                            assert(runs@[k] == before[k]);
                            assert(is_user_run(keys, before[k].0 as int, before[k].1 as int));
                        } else {
                            assert(runs@[k] == (start, i));
                            assert(is_user_run(keys, start as int, i as int));
                        }
                    }
                }
            }
            start = i;
        }
        last_key = key;
        i += 1;
    }
    // The last user's rows are `[start, n)`.
    proof {
        reveal(runs_are_users);
    }
    if n - start >= 2 {
        proof {
            assert(is_user_run(keys, start as int, n as int));
        }
        let ghost before = runs@;
        runs.push((start, n));
        proof {
            assert forall|k: int| 0 <= k < runs@.len() implies #[trigger] is_user_run(
                keys,
                runs@[k].0 as int,
                runs@[k].1 as int,
            ) && runs@[k].1 - runs@[k].0 >= 2 by {
                if k < before.len() {
                    assert(runs@[k] == before[k]);
                    assert(is_user_run(keys, before[k].0 as int, before[k].1 as int));
                } else {
                    assert(runs@[k] == (start, n));
                }
            }
        }
    }
    runs
}

/// One context per row depth `d >= 1`: `Row(d)` under `root`, expecting `histogram[d]` records.
pub fn set_up_contexts(root_ctx: &Context, histogram: &Vec<usize>) -> (r: Vec<Context>)
    requires
        root_ctx.wf(),
    ensures
        histogram@.len() > 0 ==> r@.len() == histogram@.len() - 1,
        histogram@.len() == 0 ==> r@.len() == 0,
        forall|k: int|
            0 <= k < r@.len() ==> {
                &&& (#[trigger] r@[k]).wf()
                &&& r@[k].gate.path@ == root_ctx.gate.path@.push(Step::Row((k + 1) as usize))
                &&& r@[k].total_records == total_records_of(histogram@[k + 1])
                &&& r@[k].seeds == root_ctx.seeds
                &&& r@[k].active_work == root_ctx.active_work
            },
{
    let mut contexts: Vec<Context> = Vec::new();
    let mut row_number: usize = 1;
    while row_number < histogram.len()
        invariant
            root_ctx.wf(),
            1 <= row_number,
            histogram@.len() > 0 ==> row_number <= histogram@.len(),
            histogram@.len() == 0 ==> row_number == 1,
            contexts@.len() == row_number - 1,
            forall|k: int|
                0 <= k < contexts@.len() ==> {
                    &&& (#[trigger] contexts@[k]).wf()
                    &&& contexts@[k].gate.path@ == root_ctx.gate.path@.push(Step::Row((k + 1) as usize))
                    &&& contexts@[k].total_records == total_records_of(histogram@[k + 1])
                    &&& contexts@[k].seeds == root_ctx.seeds
                    &&& contexts@[k].active_work == root_ctx.active_work
                },
        decreases histogram@.len() - row_number,
    {
        let step = UserNthRowStep::Row(row_number).step();
        let ctx = root_ctx.narrow(step).set_total_records(histogram[row_number]);
        contexts.push(ctx);
        row_number += 1;
    }
    contexts
}

/// Whether user `v` is dispatched before user `u`: longer users first, ties in input order.
pub open spec fn precedes(lens: Seq<usize>, v: int, u: int) -> bool {
    lens[v] > lens[u] || (lens[v] == lens[u] && v < u)
}

/// How many of the first `k` users are dispatched before user `u`.
pub open spec fn dispatch_rank(lens: Seq<usize>, u: int, k: int) -> nat
    decreases k,
{
    if k <= 0 {
        0
    } else {
        dispatch_rank(lens, u, k - 1) + if precedes(lens, k - 1, u) {
            1nat
        } else {
            0nat
        }
    }
}

proof fn lemma_rank_bound(lens: Seq<usize>, u: int, k: int)
    requires
        0 <= k,
    ensures
        dispatch_rank(lens, u, k) <= k,
    decreases k,
{
    if k > 0 {
        lemma_rank_bound(lens, u, k - 1);
    }
}

/// The position of each user in the dispatch order, longest users first. Each user's
/// per-depth record-id counters are read at that position, and since every user dispatched
/// earlier is at least as long, the counter at each of its depths equals the position.
pub fn dispatch_positions(lens: &Vec<usize>) -> (r: Vec<u32>)
    requires
        lens@.len() <= u32::MAX,
    ensures
        r@.len() == lens@.len(),
        forall|u: int| 0 <= u < lens@.len() ==> #[trigger] r@[u] == dispatch_rank(lens@, u, lens@.len() as int),
{
    let n = lens.len();
    let mut r: Vec<u32> = Vec::new();
    let mut u: usize = 0;
    while u < n
        invariant
            n == lens@.len(),
            n <= u32::MAX,
            u <= n,
            r@.len() == u,
            forall|x: int| 0 <= x < u ==> #[trigger] r@[x] == dispatch_rank(lens@, x, n as int),
        decreases n - u,
    {
        let mut count: u32 = 0;
        let mut v: usize = 0;
        while v < n
            invariant
                n == lens@.len(),
                n <= u32::MAX,
                u < n,
                v <= n,
                count == dispatch_rank(lens@, u as int, v as int),
            decreases n - v,
        {
            proof {
                lemma_rank_bound(lens@, u as int, v as int);
            }
            if lens[v] > lens[u] || (lens[v] == lens[u] && v < u) {
                count = count + 1;
            }
            v += 1;
        }
        r.push(count);
        u += 1;
    }
    r
}

/// What the helpers' rows stand for.
pub open spec fn clear_rows(rows: Seq<PrfShardedIpaInputRow>) -> Seq<ClearRow> {
    Seq::new(rows.len(), |i: int| rows[i]@)
}

pub open spec fn row_keys(rows: Seq<ClearRow>) -> Seq<u64> {
    Seq::new(rows.len(), |i: int| rows[i].key)
}

/// The state of row `i`'s user after that row.
pub open spec fn state_at(rows: Seq<ClearRow>, i: int, w: BitWidths, window: Option<u32>) -> ClearState
    decreases i,
{
    if i <= 0 || !continues(row_keys(rows), i) {
        initial_state(rows[i])
    } else {
        attribution_step(state_at(rows, i - 1, w, window), rows[i], w, window).0
    }
}

/// The output of row `i`, a row that continues its user.
pub open spec fn output_at(rows: Seq<ClearRow>, i: int, w: BitWidths, window: Option<u32>) -> ClearOutput {
    attribution_step(state_at(rows, i - 1, w, window), rows[i], w, window).1
}

/// What row `i` adds to bucket `b`.
pub open spec fn contribution(rows: Seq<ClearRow>, i: int, b: nat, w: BitWidths, window: Option<u32>) -> nat {
    if continues(row_keys(rows), i) && output_at(rows, i, w, window).bk == b {
        output_at(rows, i, w, window).tv
    } else {
        0
    }
}

/// The total that the first `n` rows credit to bucket `b`.
pub open spec fn bucket_total(rows: Seq<ClearRow>, n: int, b: nat, w: BitWidths, window: Option<u32>) -> nat
    decreases n,
{
    if n <= 0 {
        0
    } else {
        bucket_total(rows, n - 1, b, w, window) + contribution(rows, n - 1, b, w, window)
    }
}

/// Runs one user's circuit over rows `[start, end)`: the first row sets up the state and each
/// later row, at depth `k`, runs under `ctx_for_row_number[k - 1]` with record id
/// `record_id_for_each_depth[k]`. A user with one row yields nothing.
pub fn evaluate_per_user_attribution_circuit(
    ctx_for_row_number: &Vec<Context>,
    record_id_for_each_depth: &Vec<u32>,
    rows: &Vec<PrfShardedIpaInputRow>,
    start: usize,
    end: usize,
    attribution_window_seconds: Option<u32>,
    w: &BitWidths,
) -> (r: Vec<CappedAttributionOutputs>)
    requires
        w.wf(),
        is_user_run(row_keys(clear_rows(rows@)), start as int, end as int),
        ctx_for_row_number@.len() >= end - start - 1,
        record_id_for_each_depth@.len() >= end - start,
        forall|k: int| 0 <= k < ctx_for_row_number@.len() ==> (#[trigger] ctx_for_row_number@[k]).wf(),
        forall|i: int| 0 <= i < rows@.len() ==> (#[trigger] rows@[i]).wf(*w),
    ensures
        r@.len() == end - start - 1,
        forall|k: int|
            0 <= k < r@.len() ==> (#[trigger] r@[k]).wf(*w) && r@[k]@ == output_at(
                clear_rows(rows@),
                start + 1 + k,
                *w,
                attribution_window_seconds,
            ),
{
    let ghost cr = clear_rows(rows@);
    let mut output: Vec<CappedAttributionOutputs> = Vec::new();
    proof {
        assert(rows@[start as int].wf(*w));
        assert(!continues(row_keys(cr), start as int));
    }
    let mut prev_row_inputs = initialize_new_device_attribution_variables(&rows[start], w);
    let mut i: usize = start + 1;
    while i < end
        invariant
            w.wf(),
            cr == clear_rows(rows@),
            is_user_run(row_keys(cr), start as int, end as int),
            ctx_for_row_number@.len() >= end - start - 1,
            record_id_for_each_depth@.len() >= end - start,
            forall|k: int| 0 <= k < ctx_for_row_number@.len() ==> (#[trigger] ctx_for_row_number@[k]).wf(),
            forall|j: int| 0 <= j < rows@.len() ==> (#[trigger] rows@[j]).wf(*w),
            start < i <= end,
            prev_row_inputs.wf(*w),
            prev_row_inputs@ == state_at(cr, i - 1, *w, attribution_window_seconds),
            output@.len() == i - start - 1,
            forall|k: int|
                0 <= k < output@.len() ==> (#[trigger] output@[k]).wf(*w) && output@[k]@ == output_at(
                    cr,
                    start + 1 + k,
                    *w,
                    attribution_window_seconds,
                ),
        decreases end - i,
    {
        proof {
            assert(rows@[i as int].wf(*w));
            assert(continues(row_keys(cr), i as int));
            assert(cr[i as int] == rows@[i as int]@);
        }
        let out = prev_row_inputs.compute_row_with_previous(
            &ctx_for_row_number[i - start - 1],
            record_id_for_each_depth[i - start],
            &rows[i],
            attribution_window_seconds,
            w,
        );
        output.push(out);
        i += 1;
    }
    output
}

/// A depth that some row has is counted.
proof fn lemma_count_positive(keys: Seq<u64>, n: int, d: nat)
    requires
        0 <= n <= keys.len(),
        count_at_depth(keys, n, d) > 0,
    ensures
        exists|i: int| 0 <= i < n && #[trigger] depth_of(keys, i) == d,
    decreases n,
{
    if depth_of(keys, n - 1) != d {
        lemma_count_positive(keys, n - 1, d);
        let i = choose|i: int| 0 <= i < n - 1 && #[trigger] depth_of(keys, i) == d;
        assert(0 <= i < n && depth_of(keys, i) == d);
    }
}

/// A grouping column has one histogram.
pub proof fn lemma_histogram_unique(keys: Seq<u64>, h1: Seq<usize>, h2: Seq<usize>)
    requires
        is_histogram(keys, h1),
        is_histogram(keys, h2),
    ensures
        h1 == h2,
{
    if h1.len() > h2.len() {
        let d = (h1.len() - 1) as nat;
        assert(h1[d as int] > 0);
        lemma_count_positive(keys, keys.len() as int, d);
        let i = choose|i: int| 0 <= i < keys.len() && #[trigger] depth_of(keys, i) == d;
        assert(depth_of(keys, i) < h2.len());
    }
    if h2.len() > h1.len() {
        let d = (h2.len() - 1) as nat;
        assert(h2[d as int] > 0);
        lemma_count_positive(keys, keys.len() as int, d);
        let i = choose|i: int| 0 <= i < keys.len() && #[trigger] depth_of(keys, i) == d;
        assert(depth_of(keys, i) < h1.len());
    }
    assert(h1 =~= h2);
}

/// Whether two histograms are equal.
fn same_histogram(a: &Vec<usize>, b: &Vec<usize>) -> (r: bool)
    ensures
        r == (a@ == b@),
{
    if a.len() != b.len() {
        return false;
    }
    let mut i: usize = 0;
    while i < a.len()
        invariant
            a@.len() == b@.len(),
            i <= a@.len(),
            forall|j: int| 0 <= j < i ==> a@[j] == b@[j],
        decreases a@.len() - i,
    {
        if a[i] != b[i] {
            return false;
        }
        i += 1;
    }
    proof {
        assert(a@ =~= b@);
    }
    true
}

/// The number of buckets, `2^n`.
fn num_buckets(n: usize) -> (r: usize)
    requires
        n <= 16,
    ensures
        r == pow2(n as nat),
{
    let mut r: usize = 1;
    let mut i: usize = 0;
    proof {
        vstd::arithmetic::power2::lemma2_to64();
    }
    while i < n
        invariant
            i <= n <= 16,
            r == pow2(i as nat),
        decreases n - i,
    {
        proof {
            lemma_pow2_unfold((i + 1) as nat);
            lemma_pow2_strictly_increases((i + 1) as nat, 17);
            vstd::arithmetic::power2::lemma2_to64();
        }
        r = r * 2;
        i += 1;
    }
    r
}

/// `sums` holds, for each of the `2^breakdown_key` buckets, shares of the total that the rows
/// credit to it, modulo the field's prime.
pub open spec fn is_aggregate_of(
    rows: Seq<ClearRow>,
    sums: Seq<SharedField>,
    w: BitWidths,
    window: Option<u32>,
) -> bool {
    &&& sums.len() == pow2(w.breakdown_key as nat)
    &&& forall|b: int|
        0 <= b < sums.len() ==> (#[trigger] sums[b]).wf() && sums[b].value() == fp(
            bucket_total(rows, rows.len() as int, b as nat, w, window) as int,
        )
}

/// Whatever the seeds and however roles are assigned, two aggregations of one input
/// reconstruct to the same totals.
pub proof fn lemma_aggregate_determined_by_input(
    rows: Seq<ClearRow>,
    a: Seq<SharedField>,
    b: Seq<SharedField>,
    w: BitWidths,
    window: Option<u32>,
)
    requires
        is_aggregate_of(rows, a, w, window),
        is_aggregate_of(rows, b, w, window),
    ensures
        a.len() == b.len(),
        forall|i: int| 0 <= i < a.len() ==> #[trigger] a[i].value() == b[i].value(),
{
    assert forall|i: int| 0 <= i < a.len() implies #[trigger] a[i].value() == b[i].value() by {
        assert(a[i].wf() && b[i].wf());
    }
}

/// The dispatch plan of the per-user circuits: the runs of the users with at least two rows, in
/// input order, and each user's record id, its position in the longest-first dispatch order.
/// At every depth `d >= 1` the users that reach it get distinct record ids below their number,
/// which is the histogram's entry `d`: the ids used at each depth are exactly `0..h[d]`.
pub fn dispatch_users<S: GroupingKey>(input: &Vec<S>) -> (r: (Vec<(usize, usize)>, Vec<u32>))
    requires
        input@.len() <= u32::MAX,
    ensures
        is_multi_row_runs(keys_of(input@), r.0@),
        r.0@.len() <= input@.len(),
        r.1@.len() == r.0@.len(),
        forall|u: int|
            0 <= u < r.1@.len() ==> #[trigger] r.1@[u] == dispatch_rank(
                run_lengths(r.0@),
                u,
                r.0@.len() as int,
            ),
        forall|u: int, d: nat|
            #![trigger r.1@[u], users_reaching(run_lengths(r.0@), r.0@.len() as int, d)]
            0 <= u < r.1@.len() && run_lengths(r.0@)[u] > d ==> r.1@[u] < users_reaching(
                run_lengths(r.0@),
                r.0@.len() as int,
                d,
            ),
        forall|u: int, v: int|
            0 <= u < r.1@.len() && 0 <= v < r.1@.len() && u != v ==> #[trigger] r.1@[u]
                != #[trigger] r.1@[v],
        forall|h: Seq<usize>, d: nat|
            #![trigger is_histogram(keys_of(input@), h), h[d as int]]
            is_histogram(keys_of(input@), h) && 1 <= d < h.len() ==> users_reaching(
                run_lengths(r.0@),
                r.0@.len() as int,
                d,
            ) == h[d as int],
{
    let ghost keys = keys_of(input@);
    let runs = chunk_rows_by_user(input);
    let mut lens: Vec<usize> = Vec::new();
    let mut k: usize = 0;
    while k < runs.len()
        invariant
            is_multi_row_runs(keys, runs@),
            k <= runs@.len(),
            lens@ == run_lengths(runs@).take(k as int),
        decreases runs@.len() - k,
    {
        let (s, e) = runs[k];
        proof {
            assert(is_user_run(keys, runs@[k as int].0 as int, runs@[k as int].1 as int));
        }
        lens.push(e - s);
        k += 1;
        proof {
            assert(lens@ =~= run_lengths(runs@).take(k as int));
        }
    }
    proof {
        assert(lens@ =~= run_lengths(runs@));
    }
    proof {
        if runs@.len() > 0 {
            let q = runs@.len() - 1;
            lemma_run_starts(keys, runs@, q);
            assert(is_user_run(keys, runs@[q].0 as int, runs@[q].1 as int));
        }
        assert(runs@.len() <= keys.len());
    }
    let positions = dispatch_positions(&lens);
    proof {
        let lens_s = run_lengths(runs@);
        let n = runs@.len() as int;
        assert forall|u: int, d: nat|
            #![trigger positions@[u], users_reaching(lens_s, n, d)]
            0 <= u < positions@.len() && lens_s[u] > d implies positions@[u] < users_reaching(
            lens_s,
            n,
            d,
        ) by {
            lemma_record_ids_contiguous(lens_s, d, u, u);
        }
        assert forall|u: int, v: int|
            0 <= u < positions@.len() && 0 <= v < positions@.len() && u != v implies #[trigger] positions@[u]
            != #[trigger] positions@[v] by {
            lemma_rank_distinct(lens_s, u, v);
        }
        assert forall|h: Seq<usize>, d: nat|
            #![trigger is_histogram(keys, h), h[d as int]]
            is_histogram(keys, h) && 1 <= d < h.len() implies users_reaching(lens_s, n, d) == h[d as int] by {
            lemma_users_reaching_is_histogram(keys, runs@, h, d);
        }
    }
    (runs, positions)
}

/// The attribute-cap-aggregate pipeline. Rows must come grouped by user, oldest first, and
/// `histogram` must be their histogram; otherwise the input is refused. Each user's circuit
/// runs over its rows (row depth `d` under `Row(d)`, record id its dispatch position); each
/// output's bits are converted into the field and its capped value routed to its breakdown
/// bucket; the buckets are summed. Entry `b` of the result stands for the total that the
/// cleartext fold credits to breakdown `b`, modulo the field's prime.
pub fn attribute_cap_aggregate(
    sh_ctx: &Context,
    input_rows: &Vec<PrfShardedIpaInputRow>,
    attribution_window_seconds: Option<u32>,
    histogram: &Vec<usize>,
    w: &BitWidths,
) -> (r: Result<Vec<SharedField>, Error>)
    requires
        sh_ctx.wf(),
        w.wf(),
        input_rows@.len() <= u32::MAX,
        forall|i: int| 0 <= i < input_rows@.len() ==> (#[trigger] input_rows@[i]).wf(*w),
    ensures
        match r {
            Ok(sums) => is_histogram(keys_of(input_rows@), histogram@) && is_aggregate_of(
                clear_rows(input_rows@),
                sums@,
                *w,
                attribution_window_seconds,
            ),
            Err(e) => e == Error::InputInvariantViolated && !is_histogram(
                keys_of(input_rows@),
                histogram@,
            ),
        },
{
    let ghost cr = clear_rows(input_rows@);
    let ghost keys = keys_of(input_rows@);
    let ghost win = attribution_window_seconds;
    proof {
        assert(row_keys(cr) =~= keys);
    }
    let computed = compute_histogram_of_users_with_row_count(input_rows);
    if !same_histogram(histogram, &computed) {
        proof {
            if is_histogram(keys, histogram@) {
                lemma_histogram_unique(keys, histogram@, computed@);
            }
        }
        return Err(Error::InputInvariantViolated);
    }
    let nb = num_buckets(w.breakdown_key);
    let mut running_sums: Vec<SharedField> = Vec::new();
    while running_sums.len() < nb
        invariant
            running_sums@.len() <= nb,
            forall|b: int|
                0 <= b < running_sums@.len() ==> (#[trigger] running_sums@[b]).wf()
                    && running_sums@[b].value() == 0,
        decreases nb - running_sums@.len(),
    {
        running_sums.push(SharedField::zero());
    }
    if input_rows.len() == 0 {
        return Ok(running_sums);
    }
    let binary_ctx = sh_ctx.narrow(Step::BinaryValidator);
    let prime_ctx = sh_ctx.narrow(Step::PrimeFieldValidator);
    proof {
        lemma_depth_bound(keys, 0);
        lemma_count_bound(keys, keys.len() as int, 0);
    }
    let num_outputs = input_rows.len() - histogram[0];
    let ctx_for_row_number = set_up_contexts(&binary_ctx, histogram);
    let (runs, positions) = dispatch_users(input_rows);
    let convert_ctx = prime_ctx.narrow(Step::ModulusConvertBreakdownKeyBitsAndTriggerValues).set_total_records(
        num_outputs,
    );
    let move_ctx = prime_ctx.narrow(Step::MoveValueToCorrectBreakdown).set_total_records(num_outputs);
    let mut output_index: u32 = 0;
    let ghost mut pos: int = 0;
    let mut k: usize = 0;
    while k < runs.len()
        invariant
            sh_ctx.wf(),
            w.wf(),
            convert_ctx.wf(),
            move_ctx.wf(),
            cr == clear_rows(input_rows@),
            keys == keys_of(input_rows@),
            row_keys(cr) == keys,
            win == attribution_window_seconds,
            input_rows@.len() <= u32::MAX,
            forall|i: int| 0 <= i < input_rows@.len() ==> (#[trigger] input_rows@[i]).wf(*w),
            is_multi_row_runs(keys, runs@),
            is_histogram(keys, histogram@),
            histogram@.len() > 0,
            ctx_for_row_number@.len() == histogram@.len() - 1,
            forall|q: int| 0 <= q < ctx_for_row_number@.len() ==> (#[trigger] ctx_for_row_number@[q]).wf(),
            positions@.len() == runs@.len(),
            nb == pow2(w.breakdown_key as nat),
            running_sums@.len() == nb,
            k <= runs@.len(),
            k < runs@.len() ==> pos <= runs@[k as int].0 && gap_free(keys, pos, runs@[k as int].0 as int),
            k == runs@.len() ==> gap_free(keys, pos, keys.len() as int),
            0 <= pos <= keys.len(),
            output_index <= pos,
            forall|b: int|
                0 <= b < nb ==> (#[trigger] running_sums@[b]).wf() && running_sums@[b].value() == fp(
                    bucket_total(cr, pos, b as nat, *w, win) as int,
                ),
        decreases runs@.len() - k,
    {
        let (s, e) = runs[k];
        proof {
            assert(s == runs@[k as int].0 && e == runs@[k as int].1);
            assert(is_user_run(keys, runs@[k as int].0 as int, runs@[k as int].1 as int));
            assert(e - s >= 2);
            assert forall|b: int| 0 <= b < nb implies bucket_total(cr, s as int, b as nat, *w, win)
                == #[trigger] bucket_total(cr, pos, b as nat, *w, win) by {
                lemma_gap_total(cr, pos, s as int, b as nat, *w, win);
            }
            assert forall|b: int| 0 <= b < nb implies bucket_total(cr, s + 1, b as nat, *w, win)
                == #[trigger] bucket_total(cr, s as int, b as nat, *w, win) by {
                assert(!continues(row_keys(cr), s as int));
            }
            lemma_depth_in_run(keys, s as int, e as int, e - 1);
            assert(depth_of(keys, e - 1) < histogram@.len());
        }
        let mut ids: Vec<u32> = Vec::new();
        while ids.len() < e - s
            invariant
                ids@.len() <= e - s,
                positions@.len() == runs@.len(),
                k < runs@.len(),
            decreases e - s - ids@.len(),
        {
            ids.push(positions[k]);
        }
        let outs = evaluate_per_user_attribution_circuit(
            &ctx_for_row_number,
            &ids,
            input_rows,
            s,
            e,
            attribution_window_seconds,
            w,
        );
        let mut j: usize = 0;
        while j < outs.len()
            invariant
                w.wf(),
                convert_ctx.wf(),
                move_ctx.wf(),
                cr == clear_rows(input_rows@),
                row_keys(cr) == keys,
                win == attribution_window_seconds,
                is_user_run(keys, s as int, e as int),
                e <= input_rows@.len() <= u32::MAX,
                outs@.len() == e - s - 1,
                forall|q: int|
                    0 <= q < outs@.len() ==> (#[trigger] outs@[q]).wf(*w) && outs@[q]@ == output_at(
                        cr,
                        s + 1 + q,
                        *w,
                        win,
                    ),
                nb == pow2(w.breakdown_key as nat),
                running_sums@.len() == nb,
                j <= outs@.len(),
                output_index <= s + j,
                forall|b: int|
                    0 <= b < nb ==> (#[trigger] running_sums@[b]).wf() && running_sums@[b].value()
                        == fp(bucket_total(cr, s + 1 + j, b as nat, *w, win) as int),
            decreases outs@.len() - j,
        {
            let out = &outs[j];
            proof {
                assert(outs@[j as int].wf(*w));
            }
            let bk_f = convert_bits(&convert_ctx, output_index, &out.attributed_breakdown_key_bits, 0);
            let tv_f = convert_bits(
                &convert_ctx,
                output_index,
                &out.capped_attributed_trigger_value,
                w.breakdown_key,
            );
            let tv_field = to_additive_sharing_in_large_field(&tv_f);
            let one_hot = move_single_value_to_bucket(&move_ctx, output_index, &bk_f, &tv_field);
            let ghost before = running_sums@;
            proof {
                let i = s + 1 + j;
                assert(continues(row_keys(cr), i));
                assert(forall|b: int| 0 <= b < nb ==> (#[trigger] one_hot@[b]).wf());
                assert(forall|b: int| 0 <= b < nb ==> (#[trigger] before[b]).wf());
            }
            add_contribution(&mut running_sums, &one_hot);
            proof {
                let i = s + 1 + j;
                let o = output_at(cr, i, *w, win);
                assert(o == outs@[j as int]@);
                lemma_bits_to_nat_bound(crate::share::open_bits(out.capped_attributed_trigger_value@));
                lemma_pow2_strictly_increases(w.trigger_value as nat, 32);
                vstd::arithmetic::power2::lemma2_to64();
                assert forall|b: int| 0 <= b < nb implies (#[trigger] running_sums@[b]).wf()
                    && running_sums@[b].value() == fp(
                    bucket_total(cr, i + 1, b as nat, *w, win) as int,
                ) by {
                    let c = contribution(cr, i, b as nat, *w, win);
                    assert(one_hot@[b].value() == c);
                    let t = bucket_total(cr, i, b as nat, *w, win);
                    lemma_small_mod(c, PRIME as nat);
                    lemma_add_mod_noop(t as int, c as int, PRIME as int);
                }
            }
            output_index = output_index + 1;
            j += 1;
        }
        proof {
            pos = e as int;
            if k + 1 < runs@.len() {
                assert(runs@[k as int].1 <= runs@[k + 1].0);
                assert(gap_free(keys, runs@[k as int].1 as int, runs@[k + 1].0 as int));
            }
        }
        k += 1;
    }
    proof {
        assert forall|b: int| 0 <= b < nb implies (#[trigger] running_sums@[b]).wf()
            && running_sums@[b].value() == fp(
            bucket_total(cr, keys.len() as int, b as nat, *w, win) as int,
        ) by {
            lemma_gap_total(cr, pos, keys.len() as int, b as nat, *w, win);
        }
    }
    Ok(running_sums)
}

/// Every row's trigger value fits its width.
pub open spec fn values_fit(rows: Seq<ClearRow>, w: BitWidths) -> bool {
    forall|i: int| 0 <= i < rows.len() ==> #[trigger] rows[i].tv < pow2(w.trigger_value as nat)
}

/// What the rows `(s, n)` of the user starting at `s` credit before capping.
pub open spec fn attributed_total(rows: Seq<ClearRow>, s: int, n: int, w: BitWidths, window: Option<u32>) -> nat
    decreases n - s,
{
    if n <= s + 1 {
        0
    } else {
        attributed_total(rows, s, n - 1, w, window) + attributed_value(
            state_at(rows, n - 2, w, window),
            rows[n - 1],
            w,
            window,
        )
    }
}

/// What the rows `(s, n)` of the user starting at `s` output after capping.
pub open spec fn capped_total(rows: Seq<ClearRow>, s: int, n: int, w: BitWidths, window: Option<u32>) -> nat
    decreases n - s,
{
    if n <= s + 1 {
        0
    } else {
        capped_total(rows, s, n - 1, w, window) + output_at(rows, n - 1, w, window).tv
    }
}

/// `(M - x) mod m` is `(-(x mod m)) mod m` when `m` divides `M`.
proof fn lemma_distance_mod(x: int, m: int, q: int)
    requires
        m > 0,
        0 <= x <= m * q,
    ensures
        (m * q - x) % m == (0 - x % m) % m,
{
    lemma_fundamental_div_mod(x, m);
    let k = q - x / m;
    assert(m * q - x == m * k + (0 - x % m)) by (nonlinear_arith)
        requires
            x == m * (x / m) + x % m,
            k == q - x / m,
    ;
    lemma_mod_multiples_vanish(k, 0 - x % m, m);
}

/// Capping: a user's outputs sum to what its rows credit, held at the cap `2^saturating_sum`;
/// so a user whose credited values sum to exactly the cap contributes exactly the cap.
pub proof fn lemma_user_contribution_is_capped(
    rows: Seq<ClearRow>,
    s: int,
    e: int,
    w: BitWidths,
    window: Option<u32>,
)
    requires
        w.wf(),
        values_fit(rows, w),
        is_user_run(row_keys(rows), s, e),
    ensures
        capped_total(rows, s, e, w, window) == if attributed_total(rows, s, e, w, window) < pow2(
            w.saturating_sum as nat,
        ) {
            attributed_total(rows, s, e, w, window)
        } else {
            pow2(w.saturating_sum as nat)
        },
{
    lemma_capping_invariant(rows, s, e, e, w, window);
}

proof fn lemma_capping_invariant(
    rows: Seq<ClearRow>,
    s: int,
    e: int,
    n: int,
    w: BitWidths,
    window: Option<u32>,
)
    requires
        w.wf(),
        values_fit(rows, w),
        is_user_run(row_keys(rows), s, e),
        s < n <= e,
    ensures
        ({
            let st = state_at(rows, n - 1, w, window);
            let a = attributed_total(rows, s, n, w, window);
            let c = capped_total(rows, s, n, w, window);
            let cap = pow2(w.saturating_sum as nat);
            if a < cap {
                !st.saturated && st.sum == a && st.diff == ((cap - a) as int) % (pow2(
                    w.trigger_value as nat,
                ) as int) && c == a
            } else {
                st.saturated && c == cap
            }
        }),
    decreases n - s,
{
    let tvb = w.trigger_value as nat;
    let ssb = w.saturating_sum as nat;
    let m = pow2(tvb);
    let cap = pow2(ssb);
    let q = pow2((ssb - tvb) as nat);
    lemma_pow2_adds(tvb, (ssb - tvb) as nat);
    assert(cap == m * q);
    lemma_pow2_pos(tvb);
    lemma_pow2_pos(ssb);
    lemma_pow2_pos((ssb - tvb) as nat);
    if n == s + 1 {
        assert(!continues(row_keys(rows), s));
        lemma_mod_multiples_basic(q as int, m as int);
        assert((m * q) as int == q * m) by (nonlinear_arith);
    } else {
        lemma_capping_invariant(rows, s, e, n - 1, w, window);
        let i = n - 1;
        assert(continues(row_keys(rows), i));
        let st = state_at(rows, i - 1, w, window);
        let row = rows[i];
        let a = attributed_total(rows, s, i, w, window);
        let v = attributed_value(st, row, w, window);
        assert(v < m) by {
            assert(row.tv < m);
        }
        if tvb < ssb {
            lemma_pow2_strictly_increases(tvb, ssb);
        }
        let sum = add_spec(st.sum, v, false, ssb);
        if a < cap {
            if a + v < cap {
                lemma_small_mod((a + v) as nat, cap);
                lemma_distance_mod((a + v) as int, m as int, q as int);
            } else {
                assert(sum.1);
                assert(0 < cap - a <= v);
                lemma_small_mod((cap - a) as nat, m);
            }
        }
    }
}

/// A user made of one source event and then only triggers credits all of its capped total to
/// that source's breakdown and nothing elsewhere; with the capping law, a user whose credited
/// values sum to exactly the cap adds exactly the cap to its bucket.
pub proof fn lemma_single_source_user_bucket(
    rows: Seq<ClearRow>,
    n: int,
    b: nat,
    w: BitWidths,
    window: Option<u32>,
)
    requires
        is_user_run(row_keys(rows), 0, n),
        !rows[0].is_trigger,
        forall|i: int| 0 < i < n ==> #[trigger] rows[i].is_trigger,
    ensures
        bucket_total(rows, n, b, w, window) == if b == rows[0].bk {
            capped_total(rows, 0, n, w, window)
        } else {
            0
        },
{
    lemma_single_source_prefix(rows, n, n, b, w, window);
}

proof fn lemma_single_source_prefix(
    rows: Seq<ClearRow>,
    n: int,
    m: int,
    b: nat,
    w: BitWidths,
    window: Option<u32>,
)
    requires
        is_user_run(row_keys(rows), 0, n),
        !rows[0].is_trigger,
        forall|i: int| 0 < i < n ==> #[trigger] rows[i].is_trigger,
        1 <= m <= n,
    ensures
        state_at(rows, m - 1, w, window).bk == rows[0].bk,
        bucket_total(rows, m, b, w, window) == if b == rows[0].bk {
            capped_total(rows, 0, m, w, window)
        } else {
            0
        },
    decreases m,
{
    if m == 1 {
        assert(!continues(row_keys(rows), 0));
        assert(bucket_total(rows, 0, b, w, window) == 0);
    } else {
        lemma_single_source_prefix(rows, n, m - 1, b, w, window);
        assert(continues(row_keys(rows), m - 1));
        assert(rows[m - 1].is_trigger);
    }
}

/// Leading triggers are credited to nobody: until a user's first source event, every
/// output of the user is zero.
pub proof fn lemma_leading_triggers_contribute_nothing(
    rows: Seq<ClearRow>,
    s: int,
    e: int,
    n: int,
    w: BitWidths,
    window: Option<u32>,
)
    requires
        w.wf(),
        is_user_run(row_keys(rows), s, e),
        s < n <= e,
        forall|i: int| s <= i < n ==> #[trigger] rows[i].is_trigger,
    ensures
        forall|i: int| s < i < n ==> #[trigger] output_at(rows, i, w, window).tv == 0,
        ({
            let st = state_at(rows, n - 1, w, window);
            !st.ever_source && st.sum == 0 && !st.saturated && st.diff == 0
        }),
    decreases n - s,
{
    let ssb = w.saturating_sum as nat;
    let tvb = w.trigger_value as nat;
    lemma_pow2_pos(ssb);
    lemma_pow2_pos(tvb);
    if n == s + 1 {
        assert(!continues(row_keys(rows), s));
    } else {
        lemma_leading_triggers_contribute_nothing(rows, s, e, n - 1, w, window);
        assert(rows[n - 1].is_trigger);
        assert(continues(row_keys(rows), n - 1));
        lemma_small_mod(0, pow2(ssb));
        lemma_small_mod(0, pow2(tvb));
    }
}

/// A user with a single row credits nothing to any bucket.
pub proof fn lemma_single_row_user_contributes_nothing(
    rows: Seq<ClearRow>,
    s: int,
    b: nat,
    w: BitWidths,
    window: Option<u32>,
)
    requires
        is_user_run(row_keys(rows), s, s + 1),
    ensures
        contribution(rows, s, b, w, window) == 0,
        bucket_total(rows, s + 1, b, w, window) == bucket_total(rows, s, b, w, window),
{
}

/// The aggregate of no rows is a zero in every bucket, and the empty histogram is theirs.
pub proof fn lemma_empty_input_aggregates_to_zero(b: nat, w: BitWidths, window: Option<u32>)
    ensures
        fp(bucket_total(Seq::<ClearRow>::empty(), 0, b, w, window) as int) == 0,
        is_histogram(Seq::<u64>::empty(), Seq::<usize>::empty()),
{
    lemma_small_mod(0, PRIME as nat);
}

/// How many of the first `k` users have a row at depth `d`.
pub open spec fn users_reaching(lens: Seq<usize>, k: int, d: nat) -> nat
    decreases k,
{
    if k <= 0 {
        0
    } else {
        users_reaching(lens, k - 1, d) + if lens[k - 1] > d {
            1nat
        } else {
            0nat
        }
    }
}

proof fn lemma_rank_below_reaching(lens: Seq<usize>, u: int, k: int, d: nat)
    requires
        0 <= u < lens.len(),
        0 <= k <= lens.len(),
        lens[u] > d,
    ensures
        dispatch_rank(lens, u, k) + (if u < k {
            1nat
        } else {
            0nat
        }) <= users_reaching(lens, k, d),
    decreases k,
{
    if k > 0 {
        lemma_rank_below_reaching(lens, u, k - 1, d);
    }
}

proof fn lemma_rank_order(lens: Seq<usize>, u: int, v: int, k: int)
    requires
        0 <= u < lens.len(),
        0 <= v < lens.len(),
        0 <= k <= lens.len(),
        precedes(lens, u, v),
    ensures
        dispatch_rank(lens, v, k) >= dispatch_rank(lens, u, k) + (if u < k {
            1nat
        } else {
            0nat
        }),
    decreases k,
{
    if k > 0 {
        lemma_rank_order(lens, u, v, k - 1);
    }
}

/// Two users never share a dispatch position.
proof fn lemma_rank_distinct(lens: Seq<usize>, u: int, v: int)
    requires
        0 <= u < lens.len(),
        0 <= v < lens.len(),
        u != v,
    ensures
        dispatch_rank(lens, u, lens.len() as int) != dispatch_rank(lens, v, lens.len() as int),
{
    if precedes(lens, u, v) {
        lemma_rank_order(lens, u, v, lens.len() as int);
    } else {
        lemma_rank_order(lens, v, u, lens.len() as int);
    }
}

/// Record-id discipline: at each depth `d`, the users that have a row there get distinct
/// record ids (their dispatch positions), all below the number of such users, which is the
/// depth's record count; so the ids fill `[0, count)` with no gap and no repeat.
pub proof fn lemma_record_ids_contiguous(lens: Seq<usize>, d: nat, u: int, v: int)
    requires
        0 <= u < lens.len(),
        0 <= v < lens.len(),
        lens[u] > d,
    ensures
        dispatch_rank(lens, u, lens.len() as int) < users_reaching(lens, lens.len() as int, d),
        u != v ==> dispatch_rank(lens, u, lens.len() as int) != dispatch_rank(
            lens,
            v,
            lens.len() as int,
        ),
{
    let n = lens.len() as int;
    lemma_rank_below_reaching(lens, u, n, d);
    if u != v {
        if precedes(lens, u, v) {
            lemma_rank_order(lens, u, v, n);
        } else {
            lemma_rank_order(lens, v, u, n);
        }
    }
}

/// The number of rows of each user in a list of runs.
pub open spec fn run_lengths(runs: Seq<(usize, usize)>) -> Seq<usize> {
    Seq::new(runs.len(), |k: int| (runs[k].1 - runs[k].0) as usize)
}

proof fn lemma_count_over_run(keys: Seq<u64>, s: int, e: int, m: int, d: nat)
    requires
        is_user_run(keys, s, e),
        s <= m <= e,
    ensures
        count_at_depth(keys, m, d) == count_at_depth(keys, s, d) + if m - s > d {
            1nat
        } else {
            0nat
        },
    decreases m - s,
{
    if m > s {
        lemma_count_over_run(keys, s, e, m - 1, d);
        lemma_depth_in_run(keys, s, e, m - 1);
    }
}

/// Rows that are their user's only row there sit at depth zero.
proof fn lemma_count_gap(keys: Seq<u64>, a: int, b: int, d: nat)
    requires
        0 <= a <= b,
        d >= 1,
        gap_free(keys, a, b),
    ensures
        count_at_depth(keys, b, d) == count_at_depth(keys, a, d),
    decreases b - a,
{
    if b > a {
        lemma_count_gap(keys, a, b - 1, d);
        assert(!continues(keys, b - 1));
    }
}

proof fn lemma_reaching_prefix(keys: Seq<u64>, runs: Seq<(usize, usize)>, k: int, d: nat)
    requires
        is_multi_row_runs(keys, runs),
        0 < k <= runs.len(),
        d >= 1,
    ensures
        users_reaching(run_lengths(runs), k, d) == count_at_depth(keys, runs[k - 1].1 as int, d),
    decreases k,
{
    let q = k - 1;
    assert(is_user_run(keys, runs[q].0 as int, runs[q].1 as int));
    assert(run_lengths(runs)[q] == runs[q].1 - runs[q].0);
    lemma_count_over_run(keys, runs[q].0 as int, runs[q].1 as int, runs[q].1 as int, d);
    assert(users_reaching(run_lengths(runs), k, d) == users_reaching(run_lengths(runs), q, d) + if run_lengths(runs)[q] > d {
        1nat
    } else {
        0nat
    });
    if k > 1 {
        lemma_reaching_prefix(keys, runs, k - 1, d);
        assert(runs[q - 1].1 <= runs[q].0);
        assert(gap_free(keys, runs[q - 1].1 as int, runs[q].0 as int));
        lemma_count_gap(keys, runs[q - 1].1 as int, runs[q].0 as int, d);
    } else {
        lemma_count_gap(keys, 0, runs[0].0 as int, d);
        assert(count_at_depth(keys, 0, d) == 0);
        assert(users_reaching(run_lengths(runs), 0, d) == 0);
    }
}

/// For each depth `d >= 1`, the users that reach it are as many as the histogram's entry `d`:
/// the record count of the depth's context.
pub proof fn lemma_users_reaching_is_histogram(
    keys: Seq<u64>,
    runs: Seq<(usize, usize)>,
    h: Seq<usize>,
    d: nat,
)
    requires
        is_multi_row_runs(keys, runs),
        is_histogram(keys, h),
        1 <= d < h.len(),
    ensures
        users_reaching(run_lengths(runs), runs.len() as int, d) == h[d as int],
{
    if runs.len() > 0 {
        lemma_reaching_prefix(keys, runs, runs.len() as int, d);
        assert(is_user_run(keys, runs[runs.len() - 1].0 as int, runs[runs.len() - 1].1 as int));
        lemma_count_gap(keys, runs.last().1 as int, keys.len() as int, d);
    } else {
        lemma_count_gap(keys, 0, keys.len() as int, d);
    }
}

/// Rows that each are their user's only row there add nothing to any bucket.
proof fn lemma_gap_total(rows: Seq<ClearRow>, a: int, b: int, bucket: nat, w: BitWidths, window: Option<u32>)
    requires
        0 <= a <= b,
        gap_free(row_keys(rows), a, b),
    ensures
        bucket_total(rows, b, bucket, w, window) == bucket_total(rows, a, bucket, w, window),
    decreases b - a,
{
    if b > a {
        lemma_gap_total(rows, a, b - 1, bucket, w, window);
        assert(!continues(row_keys(rows), b - 1));
    }
}

/// Run `q` starts no earlier than row `q`.
proof fn lemma_run_starts(keys: Seq<u64>, runs: Seq<(usize, usize)>, q: int)
    requires
        is_multi_row_runs(keys, runs),
        0 <= q < runs.len(),
    ensures
        runs[q].0 >= q,
    decreases q,
{
    if q > 0 {
        lemma_run_starts(keys, runs, q - 1);
        assert(runs[q - 1].1 <= runs[q].0);
        assert(is_user_run(keys, runs[q - 1].0 as int, runs[q - 1].1 as int));
    }
}

} // verus!
