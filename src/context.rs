//! Step labels, gates and the execution context that every protocol step runs under.
use crate::helpers::{total_records_of, HelperIdentity, Role, RoleAssignment, TotalRecords};
use vstd::prelude::*;

verus! {

/// One label of a step path.
#[derive(Clone, Copy, Debug, PartialEq, Eq, Structural, Hash)]
pub enum Step {
    BinaryValidator,
    PrimeFieldValidator,
    EverEncounteredSourceEvent,
    DidTriggerGetAttributed,
    AttributedBreakdownKey,
    AttributedTriggerValue,
    AttributedEventCheckFlag,
    CheckAttributionWindow,
    ComputeTimeDelta,
    CompareTimeDeltaToAttributionWindow,
    SourceEventTimestamp,
    ComputeSaturatingSum,
    IsSaturatedAndPrevRowNotSaturated,
    ComputeDifferenceToCap,
    ComputedCappedAttributedTriggerValueNotSaturatedCase,
    ComputedCappedAttributedTriggerValueJustSaturatedCase,
    ModulusConvertBreakdownKeyBitsAndTriggerValues,
    MoveValueToCorrectBreakdown,
    SaturatedAddition,
    MultiplyWithCarry,
    /// Per-bit step of the bitwise circuits.
    Bit(usize),
    /// Row depth of a user's events.
    Row(usize),
    /// Level of the bucket tree.
    Depth(usize),
    /// One of the two exclusive-ors of a bit conversion.
    Xor(usize),
}

/// The number that tells step labels apart; it keys the pseudorandom pads.
pub open spec fn step_code(s: Step) -> u64 {
    match s {
        Step::BinaryValidator => 1,
        Step::PrimeFieldValidator => 2,
        Step::EverEncounteredSourceEvent => 3,
        Step::DidTriggerGetAttributed => 4,
        Step::AttributedBreakdownKey => 5,
        Step::AttributedTriggerValue => 6,
        Step::AttributedEventCheckFlag => 7,
        Step::CheckAttributionWindow => 8,
        Step::ComputeTimeDelta => 9,
        Step::CompareTimeDeltaToAttributionWindow => 10,
        Step::SourceEventTimestamp => 11,
        Step::ComputeSaturatingSum => 12,
        Step::IsSaturatedAndPrevRowNotSaturated => 13,
        Step::ComputeDifferenceToCap => 14,
        Step::ComputedCappedAttributedTriggerValueNotSaturatedCase => 15,
        Step::ComputedCappedAttributedTriggerValueJustSaturatedCase => 16,
        Step::ModulusConvertBreakdownKeyBitsAndTriggerValues => 17,
        Step::MoveValueToCorrectBreakdown => 18,
        Step::SaturatedAddition => 19,
        Step::MultiplyWithCarry => 20,
        Step::Bit(i) => ((i as u64) << 3u64).wrapping_add(1000u64),
        Step::Row(i) => ((i as u64) << 3u64).wrapping_add(1001u64),
        Step::Depth(i) => ((i as u64) << 3u64).wrapping_add(1002u64),
        Step::Xor(i) => ((i as u64) << 3u64).wrapping_add(1003u64),
    }
}

impl Step {
    /// A number that tells labels apart; it keys the pseudorandom pads.
    pub fn code(&self) -> (r: u64)
        ensures
            r == step_code(*self),
    {
        match self {
            Step::BinaryValidator => 1,
            Step::PrimeFieldValidator => 2,
            Step::EverEncounteredSourceEvent => 3,
            Step::DidTriggerGetAttributed => 4,
            Step::AttributedBreakdownKey => 5,
            Step::AttributedTriggerValue => 6,
            Step::AttributedEventCheckFlag => 7,
            Step::CheckAttributionWindow => 8,
            Step::ComputeTimeDelta => 9,
            Step::CompareTimeDeltaToAttributionWindow => 10,
            Step::SourceEventTimestamp => 11,
            Step::ComputeSaturatingSum => 12,
            Step::IsSaturatedAndPrevRowNotSaturated => 13,
            Step::ComputeDifferenceToCap => 14,
            Step::ComputedCappedAttributedTriggerValueNotSaturatedCase => 15,
            Step::ComputedCappedAttributedTriggerValueJustSaturatedCase => 16,
            Step::ModulusConvertBreakdownKeyBitsAndTriggerValues => 17,
            Step::MoveValueToCorrectBreakdown => 18,
            Step::SaturatedAddition => 19,
            Step::MultiplyWithCarry => 20,
            Step::Bit(i) => ((*i as u64) << 3u64).wrapping_add(1000u64),
            Step::Row(i) => ((*i as u64) << 3u64).wrapping_add(1001u64),
            Step::Depth(i) => ((*i as u64) << 3u64).wrapping_add(1002u64),
            Step::Xor(i) => ((*i as u64) << 3u64).wrapping_add(1003u64),
        }
    }
}

/// The `Row(d)` step of the scheduler.
#[derive(Clone, Copy, Debug, PartialEq, Eq, Structural)]
pub enum UserNthRowStep {
    Row(usize),
}

/// The `Depth(b)` step of the bucket tree.
#[derive(Clone, Copy, Debug, PartialEq, Eq, Structural)]
pub enum BinaryTreeDepthStep {
    Depth(usize),
}

impl From<usize> for UserNthRowStep {
    fn from(v: usize) -> (r: UserNthRowStep) {
        UserNthRowStep::Row(v)
    }
}

impl vstd::std_specs::convert::FromSpecImpl<usize> for UserNthRowStep {
    open spec fn obeys_from_spec() -> bool {
        true
    }

    open spec fn from_spec(v: usize) -> UserNthRowStep {
        UserNthRowStep::Row(v)
    }
}

impl From<usize> for BinaryTreeDepthStep {
    fn from(v: usize) -> (r: BinaryTreeDepthStep) {
        BinaryTreeDepthStep::Depth(v)
    }
}

impl vstd::std_specs::convert::FromSpecImpl<usize> for BinaryTreeDepthStep {
    open spec fn obeys_from_spec() -> bool {
        true
    }

    open spec fn from_spec(v: usize) -> BinaryTreeDepthStep {
        BinaryTreeDepthStep::Depth(v)
    }
}

impl UserNthRowStep {
    pub fn step(&self) -> (r: Step)
        ensures
            match *self {
                UserNthRowStep::Row(d) => r == Step::Row(d),
            },
    {
        match self {
            UserNthRowStep::Row(d) => Step::Row(*d),
        }
    }
}

impl BinaryTreeDepthStep {
    pub fn step(&self) -> (r: Step)
        ensures
            match *self {
                BinaryTreeDepthStep::Depth(d) => r == Step::Depth(d),
            },
    {
        match self {
            BinaryTreeDepthStep::Depth(d) => Step::Depth(*d),
        }
    }
}

/// A step path, from the query's root.
#[derive(Clone, Debug, PartialEq, Eq)]
pub struct Gate {
    pub path: Vec<Step>,
}

impl Gate {
    /// A copy of this path.
    pub fn duplicate(&self) -> (r: Gate)
        ensures
            r.path@ == self.path@,
    {
        let mut path: Vec<Step> = Vec::new();
        let mut i: usize = 0;
        while i < self.path.len()
            invariant
                i <= self.path@.len(),
                path@ == self.path@.subrange(0, i as int),
            decreases self.path@.len() - i,
        {
            path.push(self.path[i]);
            i += 1;
            proof {
                assert(path@ =~= self.path@.subrange(0, i as int));
            }
        }
        proof {
            assert(path@ =~= self.path@);
        }
        Gate { path }
    }

    /// The pad key of this path.
    pub fn code(&self) -> (r: u64)
        ensures
            r == gate_code_of(self.path@),
    {
        let mut acc: u64 = 0;
        let mut i: usize = 0;
        proof {
            assert(self.path@.take(0).len() == 0);
        }
        while i < self.path.len()
            invariant
                i <= self.path@.len(),
                acc == gate_code_of(self.path@.take(i as int)),
            decreases self.path@.len() - i,
        {
            proof {
                assert(self.path@.take(i + 1).drop_last() =~= self.path@.take(i as int));
            }
            acc = mix(acc ^ self.path[i].code());
            i += 1;
        }
        proof {
            assert(self.path@.take(self.path@.len() as int) =~= self.path@);
        }
        acc
    }
}

/// What `mix` computes.
pub open spec fn mix_spec(x: u64) -> u64 {
    let z = x.wrapping_add(0x9E37_79B9_7F4A_7C15u64);
    let z = (z ^ (z >> 30u64)).wrapping_mul(0xBF58_476D_1CE4_E5B9u64);
    let z = (z ^ (z >> 27u64)).wrapping_mul(0x94D0_49BB_1331_11EBu64);
    z ^ (z >> 31u64)
}

/// The pad key of a step path: each label is folded in with `mix`, from zero at the root.
pub open spec fn gate_code_of(path: Seq<Step>) -> u64
    decreases path.len(),
{
    if path.len() == 0 {
        0
    } else {
        mix_spec(gate_code_of(path.drop_last()) ^ step_code(path.last()))
    }
}

/// The pad bit that the pair with seed `seed` draws at `(gate_code, record_id, j)`.
pub open spec fn pad_bit_of(seed: u64, gate_code: u64, record_id: u32, j: usize) -> bool {
    mix_spec(mix_spec(seed ^ gate_code) ^ ((record_id as u64) << 20u64) ^ (j as u64)) & 1 == 1
}

/// The pad word that the pair with seed `seed` draws at `(gate_code, record_id, j)`.
pub open spec fn pad_word_of(seed: u64, gate_code: u64, record_id: u32, j: usize) -> u64 {
    mix_spec(mix_spec(seed ^ gate_code) ^ ((record_id as u64) << 20u64) ^ (j as u64)
        ^ 0x5555_0000_0000_0000u64)
}

/// One round of a 64-bit mixing function; it spreads every input bit over the output. Pads are
/// drawn from it keyed by the pair seeds: it stands in for a keyed pseudorandom function and is
/// not one of cryptographic strength.
pub fn mix(x: u64) -> (r: u64)
    ensures
        r == mix_spec(x),
{
    let z = x.wrapping_add(0x9E37_79B9_7F4A_7C15u64);
    let z = (z ^ (z >> 30u64)).wrapping_mul(0xBF58_476D_1CE4_E5B9u64);
    let z = (z ^ (z >> 27u64)).wrapping_mul(0x94D0_49BB_1331_11EBu64);
    z ^ (z >> 31u64)
}

/// The seeds of pseudorandom secret sharing: `pair[i]` is shared by the helpers that play
/// role `i` and role `i + 1 (mod 3)`.
#[derive(Clone, Copy, Debug, PartialEq, Eq, Structural)]
pub struct PrssSeeds {
    pub h1_h2: u64,
    pub h2_h3: u64,
    pub h3_h1: u64,
}

/// The seeds that each pair of helper identities agreed on.
#[derive(Clone, Copy, Debug, PartialEq, Eq, Structural)]
pub struct IdentitySeeds {
    pub one_two: u64,
    pub two_three: u64,
    pub three_one: u64,
}

impl IdentitySeeds {
    pub open spec fn spec_seed(&self, a: u8, b: u8) -> u64 {
        if (a == 1 && b == 2) || (a == 2 && b == 1) {
            self.one_two
        } else if (a == 2 && b == 3) || (a == 3 && b == 2) {
            self.two_three
        } else {
            self.three_one
        }
    }

    /// The seed shared by helpers `a` and `b`.
    pub fn seed(&self, a: HelperIdentity, b: HelperIdentity) -> (r: u64)
        ensures
            r == self.spec_seed(a.spec_id(), b.spec_id()),
    {
        let (x, y) = (a.id(), b.id());
        if (x == 1 && y == 2) || (x == 2 && y == 1) {
            self.one_two
        } else if (x == 2 && y == 3) || (x == 3 && y == 2) {
            self.two_three
        } else {
            self.three_one
        }
    }
}

impl PrssSeeds {
    /// The seeds of the role pairs of a query, from the seeds of the helpers that play them.
    pub fn for_roles(roles: &RoleAssignment, seeds: &IdentitySeeds) -> (r: PrssSeeds)
        ensures
            r.h1_h2 == seeds.spec_seed(
                roles.spec_identity(Role::H1).spec_id(),
                roles.spec_identity(Role::H2).spec_id(),
            ),
            r.h2_h3 == seeds.spec_seed(
                roles.spec_identity(Role::H2).spec_id(),
                roles.spec_identity(Role::H3).spec_id(),
            ),
            r.h3_h1 == seeds.spec_seed(
                roles.spec_identity(Role::H3).spec_id(),
                roles.spec_identity(Role::H1).spec_id(),
            ),
    {
        let a = roles.identity(Role::H1);
        let b = roles.identity(Role::H2);
        let c = roles.identity(Role::H3);
        PrssSeeds { h1_h2: seeds.seed(a, b), h2_h3: seeds.seed(b, c), h3_h1: seeds.seed(c, a) }
    }

    /// The seed of the pair of roles `i` and `i + 1 (mod 3)`.
    pub fn pair(&self, i: usize) -> (r: u64)
        requires
            i < 3,
        ensures
            i == 0 ==> r == self.h1_h2,
            i == 1 ==> r == self.h2_h3,
            i == 2 ==> r == self.h3_h1,
    {
        if i == 0 {
            self.h1_h2
        } else if i == 1 {
            self.h2_h3
        } else {
            self.h3_h1
        }
    }
}

/// An immutable handle to a step path, its record count and the shared randomness.
#[derive(Clone, Debug)]
pub struct Context {
    pub gate: Gate,
    pub gate_code: u64,
    pub total_records: TotalRecords,
    pub seeds: PrssSeeds,
    pub active_work: usize,
}

impl Context {
    /// A positive record count if any, some concurrency, and the pad key of its path.
    pub open spec fn wf(&self) -> bool {
        &&& self.total_records.wf()
        &&& self.active_work > 0
        &&& self.gate_code == gate_code_of(self.gate.path@)
    }

    /// The seed of the pair of roles `i` and `i + 1 (mod 3)`.
    pub open spec fn seed_of(&self, i: int) -> u64 {
        if i == 0 {
            self.seeds.h1_h2
        } else if i == 1 {
            self.seeds.h2_h3
        } else {
            self.seeds.h3_h1
        }
    }

    /// Whether the context is usable: a positive record count if any, and some concurrency.
    pub fn is_valid(&self) -> (r: bool)
        ensures
            r == self.wf(),
    {
        let records_ok = match self.total_records {
            TotalRecords::Specified(n) => n > 0,
            _ => true,
        };
        records_ok && self.active_work > 0 && self.gate_code == self.gate.code()
    }

    /// The root context of a query.
    pub fn new(seeds: PrssSeeds, active_work: usize) -> (r: Context)
        requires
            active_work > 0,
        ensures
            r.wf(),
            r.gate.path@.len() == 0,
            r.total_records == TotalRecords::Unspecified,
            r.seeds == seeds,
    {
        Context {
            gate: Gate { path: Vec::new() },
            gate_code: 0,
            total_records: TotalRecords::Unspecified,
            seeds,
            active_work,
        }
    }

    /// The child context whose path ends in `step`; its record count starts unspecified.
    pub fn narrow(&self, step: Step) -> (r: Context)
        requires
            self.wf(),
        ensures
            r.wf(),
            r.gate.path@ == self.gate.path@.push(step),
            r.total_records == TotalRecords::Unspecified,
            r.seeds == self.seeds,
            r.active_work == self.active_work,
    {
        let mut path = self.gate.duplicate().path;
        path.push(step);
        proof {
            assert(path@.drop_last() =~= self.gate.path@);
        }
        Context {
            gate: Gate { path },
            gate_code: mix(self.gate_code ^ step.code()),
            total_records: TotalRecords::Unspecified,
            seeds: self.seeds,
            active_work: self.active_work,
        }
    }

    /// The same context, annotated with the number of records its step will carry.
    pub fn set_total_records(&self, n: usize) -> (r: Context)
        requires
            self.wf(),
            self.total_records == TotalRecords::Unspecified,
        ensures
            r.wf(),
            r.gate.path@ == self.gate.path@,
            r.total_records == total_records_of(n),
            r.seeds == self.seeds,
            r.active_work == self.active_work,
    {
        Context {
            gate: self.gate.duplicate(),
            gate_code: self.gate_code,
            total_records: self.total_records.overwrite(TotalRecords::from_usize(n)),
            seeds: self.seeds,
            active_work: self.active_work,
        }
    }

    /// The pad bit shared by the pair of roles `i` and `i + 1` for record `record_id`
    /// and position `j` of this step.
    pub fn pad_bit(&self, i: usize, record_id: u32, j: usize) -> (r: bool)
        requires
            i < 3,
        ensures
            r == pad_bit_of(self.seed_of(i as int), self.gate_code, record_id, j),
    {
        let x = mix(self.seeds.pair(i) ^ self.gate_code);
        let y = mix(x ^ ((record_id as u64) << 20u64) ^ (j as u64));
        y & 1 == 1
    }

    /// The pad word shared by the pair of roles `i` and `i + 1`, for field protocols.
    pub fn pad_word(&self, i: usize, record_id: u32, j: usize) -> (r: u64)
        requires
            i < 3,
        ensures
            r == pad_word_of(self.seed_of(i as int), self.gate_code, record_id, j),
    {
        let x = mix(self.seeds.pair(i) ^ self.gate_code);
        mix(x ^ ((record_id as u64) << 20u64) ^ (j as u64) ^ 0x5555_0000_0000_0000u64)
    }
}

} // verus!
