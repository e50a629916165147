//! The per-user attribution and capping circuit: an oblivious fold over one user's events.
use crate::boolean_ops::{
    add_spec, compare_gt, integer_add_with_carry, integer_sub, multiply, or, select, sub_spec,
};
use crate::context::{Context, Step};
use crate::share::{
    copy_bits, extend, known_bit, lemma_bits_to_nat_bound, lemma_extend_value, open_bits,
    shared_value, truncate_from, wf_bits, zeros, SharedBit,
};
use vstd::arithmetic::div_mod::lemma_small_mod;
use vstd::arithmetic::power2::{
    lemma_pow2_pos, lemma_pow2_strictly_increases, lemma_pow2_unfold, pow2,
};
use vstd::prelude::*;

verus! {

/// Widths, in bits, of the breakdown key, the trigger value, the timestamp and the per-user
/// saturating sum (whose width sets the cap, `2^saturating_sum`).
#[derive(Clone, Copy, Debug, PartialEq, Eq, Structural)]
pub struct BitWidths {
    pub breakdown_key: usize,
    pub trigger_value: usize,
    pub timestamp: usize,
    pub saturating_sum: usize,
}

impl BitWidths {
    /// The cap is at least the largest trigger value, so one row never overshoots it alone.
    pub open spec fn wf(&self) -> bool {
        &&& 1 <= self.breakdown_key <= 16
        &&& 1 <= self.trigger_value <= self.saturating_sum
        &&& self.trigger_value <= 31
        &&& self.saturating_sum <= 64
        &&& 1 <= self.timestamp <= 64
    }
}

/// One input row as the helpers hold it: the cleartext grouping key and shared bits.
#[derive(Clone, Debug)]
pub struct PrfShardedIpaInputRow {
    pub prf_of_match_key: u64,
    pub is_trigger_bit: SharedBit,
    pub breakdown_key: Vec<SharedBit>,
    pub trigger_value: Vec<SharedBit>,
    pub timestamp: Vec<SharedBit>,
}

/// Whether `bits` are `n` consistent shared bits.
pub fn check_bits(bits: &Vec<SharedBit>, n: usize) -> (r: bool)
    ensures
        r == (bits@.len() == n && wf_bits(bits@)),
{
    if bits.len() != n {
        return false;
    }
    let mut i: usize = 0;
    while i < bits.len()
        invariant
            i <= bits@.len(),
            forall|j: int| 0 <= j < i ==> (#[trigger] bits@[j]).wf(),
        decreases bits@.len() - i,
    {
        if !bits[i].is_consistent() {
            return false;
        }
        i += 1;
    }
    true
}

/// What an input row stands for.
pub struct ClearRow {
    pub key: u64,
    pub is_trigger: bool,
    pub bk: nat,
    pub tv: nat,
    pub ts: nat,
}

/// Rows that carry a grouping key.
pub trait GroupingKey {
    spec fn spec_grouping_key(&self) -> u64;

    fn get_grouping_key(&self) -> (r: u64)
        ensures
            r == self.spec_grouping_key(),
    ;
}

impl GroupingKey for PrfShardedIpaInputRow {
    open spec fn spec_grouping_key(&self) -> u64 {
        self.prf_of_match_key
    }

    fn get_grouping_key(&self) -> (r: u64) {
        self.prf_of_match_key
    }
}

impl PrfShardedIpaInputRow {
    /// Whether the row has the given widths and its shares are consistent.
    pub fn check(&self, w: &BitWidths) -> (r: bool)
        ensures
            r == self.wf(*w),
    {
        self.is_trigger_bit.is_consistent() && check_bits(&self.breakdown_key, w.breakdown_key)
            && check_bits(&self.trigger_value, w.trigger_value) && check_bits(
            &self.timestamp,
            w.timestamp,
        )
    }

    pub open spec fn wf(&self, w: BitWidths) -> bool {
        &&& self.is_trigger_bit.wf()
        &&& self.breakdown_key@.len() == w.breakdown_key && wf_bits(self.breakdown_key@)
        &&& self.trigger_value@.len() == w.trigger_value && wf_bits(self.trigger_value@)
        &&& self.timestamp@.len() == w.timestamp && wf_bits(self.timestamp@)
    }

    pub open spec fn view(&self) -> ClearRow {
        ClearRow {
            key: self.prf_of_match_key,
            is_trigger: self.is_trigger_bit.value(),
            bk: shared_value(self.breakdown_key@),
            tv: shared_value(self.trigger_value@),
            ts: shared_value(self.timestamp@),
        }
    }
}

/// The state carried from one row of a user to the next.
pub struct InputsRequiredFromPrevRow {
    pub ever_encountered_a_source_event: SharedBit,
    pub attributed_breakdown_key_bits: Vec<SharedBit>,
    pub saturating_sum: Vec<SharedBit>,
    pub is_saturated: SharedBit,
    pub difference_to_cap: Vec<SharedBit>,
    pub source_event_timestamp: Vec<SharedBit>,
}

/// What the carried state stands for.
pub struct ClearState {
    pub ever_source: bool,
    pub bk: nat,
    pub sum: nat,
    pub saturated: bool,
    pub diff: nat,
    pub ts: nat,
}

/// One attributed, capped contribution.
pub struct ClearOutput {
    pub bk: nat,
    pub tv: nat,
}

/// The output of one row after the first: the breakdown to credit and the capped value.
#[derive(Clone, Debug)]
pub struct CappedAttributionOutputs {
    pub attributed_breakdown_key_bits: Vec<SharedBit>,
    pub capped_attributed_trigger_value: Vec<SharedBit>,
}

impl CappedAttributionOutputs {
    pub open spec fn wf(&self, w: BitWidths) -> bool {
        &&& self.attributed_breakdown_key_bits@.len() == w.breakdown_key
        &&& wf_bits(self.attributed_breakdown_key_bits@)
        &&& self.capped_attributed_trigger_value@.len() == w.trigger_value
        &&& wf_bits(self.capped_attributed_trigger_value@)
    }

    pub open spec fn view(&self) -> ClearOutput {
        ClearOutput {
            bk: shared_value(self.attributed_breakdown_key_bits@),
            tv: shared_value(self.capped_attributed_trigger_value@),
        }
    }
}

impl CappedAttributionOutputs {
    /// How many bits the output converts: the breakdown key's, then the trigger value's.
    pub fn bits(&self) -> (r: usize)
        requires
            self.attributed_breakdown_key_bits@.len() + self.capped_attributed_trigger_value@.len()
                <= usize::MAX,
        ensures
            r == self.attributed_breakdown_key_bits@.len() + self.capped_attributed_trigger_value@.len(),
    {
        self.attributed_breakdown_key_bits.len() + self.capped_attributed_trigger_value.len()
    }

    /// Bit `i` of the breakdown key followed by the trigger value.
    pub fn bit(&self, i: usize) -> (r: SharedBit)
        requires
            i < self.attributed_breakdown_key_bits@.len() + self.capped_attributed_trigger_value@.len(),
        ensures
            r == if i < self.attributed_breakdown_key_bits@.len() {
                self.attributed_breakdown_key_bits@[i as int]
            } else {
                self.capped_attributed_trigger_value@[i - self.attributed_breakdown_key_bits@.len()]
            },
    {
        let n = self.attributed_breakdown_key_bits.len();
        if i < n {
            self.attributed_breakdown_key_bits[i]
        } else {
            self.capped_attributed_trigger_value[i - n]
        }
    }
}

impl InputsRequiredFromPrevRow {
    pub open spec fn wf(&self, w: BitWidths) -> bool {
        &&& self.ever_encountered_a_source_event.wf()
        &&& self.is_saturated.wf()
        &&& self.attributed_breakdown_key_bits@.len() == w.breakdown_key
        &&& wf_bits(self.attributed_breakdown_key_bits@)
        &&& self.saturating_sum@.len() == w.saturating_sum && wf_bits(self.saturating_sum@)
        &&& self.difference_to_cap@.len() == w.trigger_value && wf_bits(self.difference_to_cap@)
        &&& self.source_event_timestamp@.len() == w.timestamp
        &&& wf_bits(self.source_event_timestamp@)
    }

    pub open spec fn view(&self) -> ClearState {
        ClearState {
            ever_source: self.ever_encountered_a_source_event.value(),
            bk: shared_value(self.attributed_breakdown_key_bits@),
            sum: shared_value(self.saturating_sum@),
            saturated: self.is_saturated.value(),
            diff: shared_value(self.difference_to_cap@),
            ts: shared_value(self.source_event_timestamp@),
        }
    }
}

/// The state after a user's first row.
pub open spec fn initial_state(row: ClearRow) -> ClearState {
    ClearState { ever_source: !row.is_trigger, bk: row.bk, sum: 0, saturated: false, diff: 0, ts: row.ts }
}

/// Whether a trigger at `trigger_ts` lies within `window` of the source at `source_ts`;
/// always so without a window.
pub open spec fn within_window(window: Option<u32>, trigger_ts: nat, source_ts: nat, ts_bits: nat) -> bool {
    match window {
        None => true,
        Some(a) => !(sub_spec(trigger_ts, source_ts, ts_bits) > a as nat),
    }
}

/// The trigger value a row credits before capping: its own value if it is a trigger that
/// follows some source (within the window, if there is one), zero otherwise.
pub open spec fn attributed_value(st: ClearState, row: ClearRow, w: BitWidths, window: Option<u32>) -> nat {
    let ever = !row.is_trigger || st.ever_source;
    let ts = if window.is_some() && !row.is_trigger { row.ts } else { st.ts };
    if row.is_trigger && ever && within_window(window, row.ts, ts, w.timestamp as nat) {
        row.tv
    } else {
        0
    }
}

/// One row of the fold: last-touch attribution, then capping at `2^saturating_sum`.
pub open spec fn attribution_step(st: ClearState, row: ClearRow, w: BitWidths, window: Option<u32>) -> (ClearState, ClearOutput) {
    let ever = !row.is_trigger || st.ever_source;
    let bk = if row.is_trigger { st.bk } else { row.bk };
    let ts = if window.is_some() && !row.is_trigger { row.ts } else { st.ts };
    let atv = attributed_value(st, row, w, window);
    let sum = add_spec(st.sum, atv, false, w.saturating_sum as nat);
    let just = sum.1 && !st.saturated;
    let saturated = st.saturated || just;
    let diff = sub_spec(0, sum.0 % pow2(w.trigger_value as nat), w.trigger_value as nat);
    let capped = if just { st.diff } else if saturated { 0 } else { atv };
    (
        ClearState { ever_source: ever, bk, sum: sum.0, saturated, diff, ts },
        ClearOutput { bk, tv: capped },
    )
}

impl InputsRequiredFromPrevRow {
    /// Folds one more row of the user into the state and emits that row's output: the
    /// breakdown key of the latest source event and the trigger value attributed to it, capped
    /// so that the user's outputs never sum past `2^saturating_sum`.
    pub fn compute_row_with_previous(
        &mut self,
        ctx: &Context,
        record_id: u32,
        input_row: &PrfShardedIpaInputRow,
        attribution_window_seconds: Option<u32>,
        w: &BitWidths,
    ) -> (r: CappedAttributionOutputs)
        requires
            ctx.wf(),
            w.wf(),
            old(self).wf(*w),
            input_row.wf(*w),
        ensures
            final(self).wf(*w),
            r.wf(*w),
            (final(self)@, r@) == attribution_step(old(self)@, input_row@, *w, attribution_window_seconds),
    {
        let is_source_event = input_row.is_trigger_bit.not();
        let ever_encountered_a_source_event = or(
            &ctx.narrow(Step::EverEncounteredSourceEvent),
            record_id,
            &is_source_event,
            &self.ever_encountered_a_source_event,
        );
        let attributed_breakdown_key_bits = breakdown_key_of_most_recent_source_event(
            &ctx.narrow(Step::AttributedBreakdownKey),
            record_id,
            &input_row.is_trigger_bit,
            &self.attributed_breakdown_key_bits,
            &input_row.breakdown_key,
        );
        let source_event_timestamp = timestamp_of_most_recent_source_event(
            &ctx.narrow(Step::SourceEventTimestamp),
            record_id,
            attribution_window_seconds,
            &input_row.is_trigger_bit,
            &self.source_event_timestamp,
            &input_row.timestamp,
        );
        let attributed_trigger_value = zero_out_trigger_value_unless_attributed(
            &ctx.narrow(Step::AttributedTriggerValue),
            record_id,
            &input_row.is_trigger_bit,
            &ever_encountered_a_source_event,
            &input_row.trigger_value,
            attribution_window_seconds,
            &input_row.timestamp,
            &source_event_timestamp,
        );
        let (updated_sum, overflow_bit) = integer_add_with_carry(
            &ctx.narrow(Step::ComputeSaturatingSum),
            record_id,
            &self.saturating_sum,
            &attributed_trigger_value,
        );
        let overflow_bit_and_prev_row_not_saturated = multiply(
            &ctx.narrow(Step::IsSaturatedAndPrevRowNotSaturated),
            record_id,
            &overflow_bit,
            &self.is_saturated.not(),
        );
        let zero_tv = zeros(w.trigger_value);
        let difference_to_cap = integer_sub(
            &ctx.narrow(Step::ComputeDifferenceToCap),
            record_id,
            &zero_tv,
            &updated_sum,
        );
        // The two conditions exclude each other, so their sum is their or.
        let is_saturated = self.is_saturated.xor(&overflow_bit_and_prev_row_not_saturated);
        let capped_attributed_trigger_value = compute_capped_trigger_value(
            ctx,
            record_id,
            &is_saturated,
            &overflow_bit_and_prev_row_not_saturated,
            &self.difference_to_cap,
            &attributed_trigger_value,
        );
        proof {
            let atv = shared_value(attributed_trigger_value@);
            let tvb = w.trigger_value as nat;
            let ssb = w.saturating_sum as nat;
            lemma_bits_to_nat_bound(open_bits(attributed_trigger_value@));
            lemma_extend_value(open_bits(attributed_trigger_value@), ssb);
            lemma_pow2_pos(tvb);
            if tvb < ssb {
                lemma_pow2_strictly_increases(tvb, ssb);
            }
            lemma_small_mod(atv, pow2(ssb));
            lemma_extend_value(open_bits(updated_sum@), tvb);
            assert(shared_value(zero_tv@) == 0);
        }
        self.ever_encountered_a_source_event = ever_encountered_a_source_event;
        self.attributed_breakdown_key_bits = copy_bits(&attributed_breakdown_key_bits);
        self.saturating_sum = updated_sum;
        self.is_saturated = is_saturated;
        self.difference_to_cap = difference_to_cap;
        self.source_event_timestamp = source_event_timestamp;
        CappedAttributionOutputs { attributed_breakdown_key_bits, capped_attributed_trigger_value }
    }
}

/// The state for a user's first row; no communication is needed.
pub fn initialize_new_device_attribution_variables(
    input_row: &PrfShardedIpaInputRow,
    w: &BitWidths,
) -> (r: InputsRequiredFromPrevRow)
    requires
        input_row.wf(*w),
    ensures
        r.wf(*w),
        r@ == initial_state(input_row@),
        r.attributed_breakdown_key_bits@ == input_row.breakdown_key@,
        r.source_event_timestamp@ == input_row.timestamp@,
        r.saturating_sum@ == Seq::new(w.saturating_sum as nat, |j: int| known_bit(false)),
        r.is_saturated == known_bit(false),
        r.difference_to_cap@ == Seq::new(w.trigger_value as nat, |j: int| known_bit(false)),
{
    InputsRequiredFromPrevRow {
        ever_encountered_a_source_event: input_row.is_trigger_bit.not(),
        attributed_breakdown_key_bits: copy_bits(&input_row.breakdown_key),
        saturating_sum: zeros(w.saturating_sum),
        is_saturated: SharedBit::zero(),
        difference_to_cap: zeros(w.trigger_value),
        source_event_timestamp: copy_bits(&input_row.timestamp),
    }
}

/// Last touch: a source row takes its own breakdown key, a trigger row keeps the previous one.
pub fn breakdown_key_of_most_recent_source_event(
    ctx: &Context,
    record_id: u32,
    is_trigger_bit: &SharedBit,
    prev_row_breakdown_key_bits: &Vec<SharedBit>,
    cur_row_breakdown_key_bits: &Vec<SharedBit>,
) -> (r: Vec<SharedBit>)
    requires
        is_trigger_bit.wf(),
        prev_row_breakdown_key_bits@.len() == cur_row_breakdown_key_bits@.len(),
        wf_bits(prev_row_breakdown_key_bits@),
        wf_bits(cur_row_breakdown_key_bits@),
    ensures
        r@.len() == prev_row_breakdown_key_bits@.len(),
        wf_bits(r@),
        shared_value(r@) == if is_trigger_bit.value() {
            shared_value(prev_row_breakdown_key_bits@)
        } else {
            shared_value(cur_row_breakdown_key_bits@)
        },
{
    select(ctx, record_id, is_trigger_bit, prev_row_breakdown_key_bits, cur_row_breakdown_key_bits)
}

/// The same for timestamps; without a window they are never read, so the previous one is kept
/// and no multiplication is spent.
pub fn timestamp_of_most_recent_source_event(
    ctx: &Context,
    record_id: u32,
    attribution_window_seconds: Option<u32>,
    is_trigger_bit: &SharedBit,
    prev_row_timestamp_bits: &Vec<SharedBit>,
    cur_row_timestamp_bits: &Vec<SharedBit>,
) -> (r: Vec<SharedBit>)
    requires
        is_trigger_bit.wf(),
        prev_row_timestamp_bits@.len() == cur_row_timestamp_bits@.len(),
        wf_bits(prev_row_timestamp_bits@),
        wf_bits(cur_row_timestamp_bits@),
    ensures
        r@.len() == prev_row_timestamp_bits@.len(),
        wf_bits(r@),
        shared_value(r@) == if attribution_window_seconds.is_some() && !is_trigger_bit.value() {
            shared_value(cur_row_timestamp_bits@)
        } else {
            shared_value(prev_row_timestamp_bits@)
        },
        attribution_window_seconds.is_none() ==> r@ == prev_row_timestamp_bits@,
{
    match attribution_window_seconds {
        None => copy_bits(prev_row_timestamp_bits),
        Some(_) => select(
            ctx,
            record_id,
            is_trigger_bit,
            prev_row_timestamp_bits,
            cur_row_timestamp_bits,
        ),
    }
}

/// `2^n` for `n < 64`.
fn pow2_u64(n: usize) -> (r: u64)
    requires
        n < 64,
    ensures
        r == pow2(n as nat),
{
    let mut r: u64 = 1;
    let mut i: usize = 0;
    proof {
        vstd::arithmetic::power2::lemma2_to64();
    }
    while i < n
        invariant
            i <= n < 64,
            r == pow2(i as nat),
        decreases n - i,
    {
        proof {
            lemma_pow2_unfold((i + 1) as nat);
            lemma_pow2_strictly_increases((i + 1) as nat, 64);
            vstd::arithmetic::power2::lemma2_to64();
        }
        r = r * 2;
        i += 1;
    }
    r
}

/// The window as an `n`-bit constant: itself if it fits, else the largest `n`-bit number,
/// which no `n`-bit time difference exceeds either.
fn window_bound(window: u32, n: usize) -> (r: u64)
    requires
        n <= 64,
    ensures
        r < pow2(n as nat),
        window < pow2(n as nat) ==> r == window,
        window >= pow2(n as nat) ==> r == pow2(n as nat) - 1,
{
    if n >= 32 {
        proof {
            vstd::arithmetic::power2::lemma2_to64();
            if n > 32 {
                lemma_pow2_strictly_increases(32, n as nat);
            }
        }
        window as u64
    } else {
        let p = pow2_u64(n);
        proof {
            lemma_pow2_pos(n as nat);
        }
        if window as u64 >= p {
            p - 1
        } else {
            window as u64
        }
    }
}

/// With a window, whether `trigger_ts - source_ts` (modulo `2^n`) does not exceed it;
/// without one, the known value one.
pub fn is_trigger_event_within_attribution_window(
    ctx: &Context,
    record_id: u32,
    attribution_window_seconds: Option<u32>,
    trigger_event_timestamp: &Vec<SharedBit>,
    source_event_timestamp: &Vec<SharedBit>,
) -> (r: SharedBit)
    requires
        ctx.wf(),
        trigger_event_timestamp@.len() == source_event_timestamp@.len(),
        trigger_event_timestamp@.len() <= 64,
        wf_bits(trigger_event_timestamp@),
        wf_bits(source_event_timestamp@),
    ensures
        r.wf(),
        r.value() == within_window(
            attribution_window_seconds,
            shared_value(trigger_event_timestamp@),
            shared_value(source_event_timestamp@),
            trigger_event_timestamp@.len(),
        ),
        attribution_window_seconds.is_none() ==> r == known_bit(true),
{
    match attribution_window_seconds {
        Some(window) => {
            let time_delta_bits = integer_sub(
                &ctx.narrow(Step::ComputeTimeDelta),
                record_id,
                trigger_event_timestamp,
                source_event_timestamp,
            );
            let n = trigger_event_timestamp.len();
            let bound = window_bound(window, n);
            let constant_bits = truncate_from(bound, n);
            let gt = compare_gt(
                &ctx.narrow(Step::CompareTimeDeltaToAttributionWindow),
                record_id,
                &time_delta_bits,
                &constant_bits,
            );
            proof {
                assert(extend(open_bits(source_event_timestamp@), trigger_event_timestamp@.len())
                    =~= open_bits(source_event_timestamp@));
                lemma_pow2_pos(n as nat);
                lemma_small_mod(bound as nat, pow2(n as nat));
            }
            gt.not()
        },
        None => SharedBit::share_known_value(true),
    }
}

/// The trigger value where the row is a trigger attributed to a source (within the window,
/// if there is one), zero elsewhere.
pub fn zero_out_trigger_value_unless_attributed(
    ctx: &Context,
    record_id: u32,
    is_trigger_bit: &SharedBit,
    ever_encountered_a_source_event: &SharedBit,
    trigger_value: &Vec<SharedBit>,
    attribution_window_seconds: Option<u32>,
    trigger_event_timestamp: &Vec<SharedBit>,
    source_event_timestamp: &Vec<SharedBit>,
) -> (r: Vec<SharedBit>)
    requires
        ctx.wf(),
        is_trigger_bit.wf(),
        ever_encountered_a_source_event.wf(),
        wf_bits(trigger_value@),
        trigger_event_timestamp@.len() == source_event_timestamp@.len(),
        trigger_event_timestamp@.len() <= 64,
        wf_bits(trigger_event_timestamp@),
        wf_bits(source_event_timestamp@),
    ensures
        r@.len() == trigger_value@.len(),
        wf_bits(r@),
        shared_value(r@) == if is_trigger_bit.value() && ever_encountered_a_source_event.value()
            && within_window(
            attribution_window_seconds,
            shared_value(trigger_event_timestamp@),
            shared_value(source_event_timestamp@),
            trigger_event_timestamp@.len(),
        ) {
            shared_value(trigger_value@)
        } else {
            0
        },
{
    let did_trigger_get_attributed = multiply(
        &ctx.narrow(Step::DidTriggerGetAttributed),
        record_id,
        is_trigger_bit,
        ever_encountered_a_source_event,
    );
    let is_trigger_within_window = is_trigger_event_within_attribution_window(
        &ctx.narrow(Step::CheckAttributionWindow),
        record_id,
        attribution_window_seconds,
        trigger_event_timestamp,
        source_event_timestamp,
    );
    let zero_out_flag = if attribution_window_seconds.is_some() {
        multiply(
            &ctx.narrow(Step::AttributedEventCheckFlag),
            record_id,
            &did_trigger_get_attributed,
            &is_trigger_within_window,
        )
    } else {
        did_trigger_get_attributed
    };
    let z = zeros(trigger_value.len());
    select(ctx, record_id, &zero_out_flag, trigger_value, &z)
}

/// Before saturation the attributed value; on the row that saturates, what was left below the
/// cap on the row before; after that, zero.
pub fn compute_capped_trigger_value(
    ctx: &Context,
    record_id: u32,
    is_saturated: &SharedBit,
    is_saturated_and_prev_row_not_saturated: &SharedBit,
    prev_row_diff_to_cap: &Vec<SharedBit>,
    attributed_trigger_value: &Vec<SharedBit>,
) -> (r: Vec<SharedBit>)
    requires
        ctx.wf(),
        is_saturated.wf(),
        is_saturated_and_prev_row_not_saturated.wf(),
        prev_row_diff_to_cap@.len() == attributed_trigger_value@.len(),
        wf_bits(prev_row_diff_to_cap@),
        wf_bits(attributed_trigger_value@),
    ensures
        r@.len() == attributed_trigger_value@.len(),
        wf_bits(r@),
        shared_value(r@) == if is_saturated_and_prev_row_not_saturated.value() {
            shared_value(prev_row_diff_to_cap@)
        } else if is_saturated.value() {
            0
        } else {
            shared_value(attributed_trigger_value@)
        },
{
    let z = zeros(attributed_trigger_value.len());
    let attributed_trigger_value_or_zero = select(
        &ctx.narrow(Step::ComputedCappedAttributedTriggerValueNotSaturatedCase),
        record_id,
        is_saturated,
        &z,
        attributed_trigger_value,
    );
    select(
        &ctx.narrow(Step::ComputedCappedAttributedTriggerValueJustSaturatedCase),
        record_id,
        is_saturated_and_prev_row_not_saturated,
        prev_row_diff_to_cap,
        &attributed_trigger_value_or_zero,
    )
}

} // verus!
