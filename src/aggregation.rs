//! Modulus conversion of shared bits into the prime field, and the oblivious routing of each
//! contribution into its breakdown bucket.
use crate::context::{Context, Step};
use crate::ff::{fp, multiply_at, FieldShare, SharedField, PRIME};
use crate::share::{
    bits_to_nat, lemma_bits_to_nat_bound, lemma_bits_to_nat_push, open_bits, wf_bits, SharedBit,
};
use vstd::arithmetic::div_mod::lemma_small_mod;
use vstd::arithmetic::power2::{lemma_pow2_strictly_increases, lemma_pow2_unfold, pow2};
use vstd::prelude::*;

verus! {

pub open spec fn bit_value(b: bool) -> nat {
    if b {
        1
    } else {
        0
    }
}

/// The bits that field shares of zeros and ones stand for.
pub open spec fn field_bits(s: Seq<SharedField>) -> Seq<bool> {
    Seq::new(s.len(), |j: int| s[j].value() == 1)
}

pub open spec fn wf_field_bits(s: Seq<SharedField>) -> bool {
    forall|j: int| 0 <= j < s.len() ==> #[trigger] s[j].wf() && s[j].value() <= 1
}

/// Exclusive-or of two field shares of zeros and ones, as `a + b - 2ab`: one multiplication.
pub fn xor_in_field(ctx: &Context, record_id: u32, j: usize, a: &SharedField, b: &SharedField) -> (r:
    SharedField)
    requires
        a.wf(),
        b.wf(),
        a.value() <= 1,
        b.value() <= 1,
    ensures
        r.wf(),
        r.value() == bit_value((a.value() == 1) != (b.value() == 1)),
{
    let m = multiply_at(ctx, record_id, j, a, b);
    let r = a.plus(b).minus(&m.scale(2));
    proof {
        let p = PRIME as nat;
        assert(a.value() * b.value() <= 1) by (nonlinear_arith)
            requires
                a.value() <= 1,
                b.value() <= 1,
        ;
        lemma_small_mod(a.value() * b.value(), p);
        lemma_small_mod(a.value() + b.value(), p);
        lemma_small_mod(m.value() * 2, p);
        let d = a.value() + b.value() - 2 * m.value();
        assert(0 <= d <= 1) by (nonlinear_arith)
            requires
                a.value() <= 1,
                b.value() <= 1,
                m.value() == a.value() * b.value(),
                d == a.value() + b.value() - 2 * m.value(),
        ;
        lemma_small_mod(d as nat, p);
        assert(m.value() == a.value() * b.value());
    }
    r
}

/// A shared bit as a field share of zero or one: each helper's additive share becomes a
/// sharing that the two helpers holding it can form alone, and the three are combined with
/// two exclusive-ors, under `Xor(0)` and `Xor(1)`.
pub fn convert_bit(ctx: &Context, record_id: u32, j: usize, b: &SharedBit) -> (r: SharedField)
    requires
        ctx.wf(),
        b.wf(),
    ensures
        r.wf(),
        r.value() == bit_value(b.value()),
{
    let x1: u32 = if b.h1.left { 1 } else { 0 };
    let x2: u32 = if b.h2.left { 1 } else { 0 };
    let x3: u32 = if b.h3.left { 1 } else { 0 };
    let s1 = SharedField {
        h1: FieldShare { left: x1, right: 0 },
        h2: FieldShare { left: 0, right: 0 },
        h3: FieldShare { left: 0, right: x1 },
    };
    let s2 = SharedField {
        h1: FieldShare { left: 0, right: x2 },
        h2: FieldShare { left: x2, right: 0 },
        h3: FieldShare { left: 0, right: 0 },
    };
    let s3 = SharedField {
        h1: FieldShare { left: 0, right: 0 },
        h2: FieldShare { left: 0, right: x3 },
        h3: FieldShare { left: x3, right: 0 },
    };
    proof {
        lemma_small_mod(x1 as nat, PRIME as nat);
        lemma_small_mod(x2 as nat, PRIME as nat);
        lemma_small_mod(x3 as nat, PRIME as nat);
    }
    let t = xor_in_field(&ctx.narrow(Step::Xor(0)), record_id, j, &s1, &s2);
    xor_in_field(&ctx.narrow(Step::Xor(1)), record_id, j, &t, &s3)
}

/// Every bit of `bits`, converted into the field.
/// Bit `j` uses pad position `first_position + j`, so that several arrays of one record can be
/// converted under one step.
pub fn convert_bits(ctx: &Context, record_id: u32, bits: &Vec<SharedBit>, first_position: usize) -> (r:
    Vec<SharedField>)
    requires
        ctx.wf(),
        wf_bits(bits@),
        first_position + bits@.len() <= usize::MAX,
    ensures
        r@.len() == bits@.len(),
        wf_field_bits(r@),
        field_bits(r@) == open_bits(bits@),
{
    let mut r: Vec<SharedField> = Vec::new();
    let mut i: usize = 0;
    while i < bits.len()
        invariant
            ctx.wf(),
            wf_bits(bits@),
            first_position + bits@.len() <= usize::MAX,
            i <= bits@.len(),
            r@.len() == i,
            forall|j: int|
                0 <= j < i ==> (#[trigger] r@[j]).wf() && r@[j].value() == bit_value(
                    bits@[j].value(),
                ),
        decreases bits@.len() - i,
    {
        let f = convert_bit(ctx, record_id, first_position + i, &bits[i]);
        r.push(f);
        i += 1;
    }
    proof {
        assert forall|j: int| 0 <= j < bits@.len() implies #[trigger] field_bits(r@)[j] == open_bits(
            bits@,
        )[j] by {
            assert(r@[j].wf());
        }
        assert(field_bits(r@) =~= open_bits(bits@));
        assert forall|j: int| 0 <= j < r@.len() implies #[trigger] r@[j].wf() && r@[j].value() <= 1 by {
            assert(r@[j].value() == bit_value(bits@[j].value()));
        }
    }
    r
}

/// The number that field shares of digits stand for, as one field share: `sum 2^j b_j`.
pub fn to_additive_sharing_in_large_field(bits: &Vec<SharedField>) -> (r: SharedField)
    requires
        bits@.len() <= 31,
        wf_field_bits(bits@),
    ensures
        r.wf(),
        r.value() == bits_to_nat(field_bits(bits@)),
{
    let ghost bs = field_bits(bits@);
    let mut acc = SharedField::zero();
    let mut w: u32 = 1;
    let mut i: usize = 0;
    proof {
        vstd::arithmetic::power2::lemma2_to64();
        assert(bs.take(0).len() == 0);
    }
    while i < bits.len()
        invariant
            bits@.len() <= 31,
            wf_field_bits(bits@),
            bs == field_bits(bits@),
            i <= bits@.len(),
            i < 31 ==> w == pow2(i as nat),
            acc.wf(),
            acc.value() == bits_to_nat(bs.take(i as int)),
            bits_to_nat(bs.take(i as int)) < pow2(i as nat),
        decreases bits@.len() - i,
    {
        proof {
            lemma_pow2_strictly_increases(i as nat, 31);
            vstd::arithmetic::power2::lemma2_to64();
            lemma_pow2_unfold((i + 1) as nat);
            lemma_bits_to_nat_push(bs.take(i as int), bs[i as int]);
            assert(bs.take(i + 1) =~= bs.take(i as int).push(bs[i as int]));
            if i + 1 < 31 {
                lemma_pow2_strictly_increases((i + 1) as nat, 31);
            }
        }
        let term = bits[i].scale(w);
        acc = acc.plus(&term);
        proof {
            assert(bits@[i as int].wf());
            let b = bits@[i as int].value();
            assert(b * w == bit_value(bs[i as int]) * pow2(i as nat)) by (nonlinear_arith)
                requires
                    b <= 1,
                    bs[i as int] == (b == 1),
                    w == pow2(i as nat),
            ;
            lemma_small_mod((b * w) as nat, PRIME as nat);
            lemma_pow2_strictly_increases((i + 1) as nat, 32);
            lemma_small_mod(bits_to_nat(bs.take(i + 1)), PRIME as nat);
        }
        if i + 1 < 31 {
            w = w * 2;
        }
        i += 1;
    }
    proof {
        assert(bs.take(bits@.len() as int) =~= bs);
    }
    acc
}

/// A vector of `2^n` shares, each of `v` where its index is `bk` and of zero elsewhere.
pub open spec fn one_hot(s: Seq<SharedField>, bk: nat, v: nat) -> bool {
    forall|i: int| 0 <= i < s.len() ==> #[trigger] s[i].wf() && s[i].value() == if i == bk { v } else { 0 }
}

/// Routes `value` to bucket `bk` obliviously: a tree that at level `l`, under `Depth(l)`,
/// splits every entry by digit `l` of the key, one multiplication per entry. The result has
/// `2^n` entries for `n` key digits: `value` at index `bk`, zero elsewhere.
pub fn move_single_value_to_bucket(
    ctx: &Context,
    record_id: u32,
    bk_bits: &Vec<SharedField>,
    value: &SharedField,
) -> (r: Vec<SharedField>)
    requires
        ctx.wf(),
        bk_bits@.len() <= 16,
        wf_field_bits(bk_bits@),
        value.wf(),
    ensures
        r@.len() == pow2(bk_bits@.len() as nat),
        one_hot(r@, bits_to_nat(field_bits(bk_bits@)), value.value()),
{
    let ghost bs = field_bits(bk_bits@);
    let ghost v = value.value();
    let mut cur: Vec<SharedField> = Vec::new();
    cur.push(*value);
    let mut l: usize = 0;
    proof {
        vstd::arithmetic::power2::lemma2_to64();
        assert(bs.take(0).len() == 0);
    }
    while l < bk_bits.len()
        invariant
            ctx.wf(),
            bk_bits@.len() <= 16,
            wf_field_bits(bk_bits@),
            bs == field_bits(bk_bits@),
            value.wf(),
            v == value.value(),
            l <= bk_bits@.len(),
            cur@.len() == pow2(l as nat),
            one_hot(cur@, bits_to_nat(bs.take(l as int)), v),
        decreases bk_bits@.len() - l,
    {
        let ghost low = bits_to_nat(bs.take(l as int));
        let n = cur.len();
        let lctx = ctx.narrow(Step::Depth(l));
        let bit = bk_bits[l];
        proof {
            assert(bk_bits@[l as int].wf());
            lemma_pow2_strictly_increases(l as nat, 17);
            vstd::arithmetic::power2::lemma2_to64();
        }
        let mut lo: Vec<SharedField> = Vec::new();
        let mut hi: Vec<SharedField> = Vec::new();
        let mut i: usize = 0;
        while i < n
            invariant
                bit.wf(),
                bit.value() <= 1,
                n == cur@.len(),
                one_hot(cur@, low, v),
                i <= n,
                lo@.len() == i,
                hi@.len() == i,
                forall|k: int|
                    0 <= k < i ==> (#[trigger] lo@[k]).wf() && lo@[k].value() == if bit.value() == 0
                        && k == low {
                        v
                    } else {
                        0
                    },
                forall|k: int|
                    0 <= k < i ==> (#[trigger] hi@[k]).wf() && hi@[k].value() == if bit.value() == 1
                        && k == low {
                        v
                    } else {
                        0
                    },
            decreases n - i,
        {
            let e = cur[i];
            proof {
                assert(cur@[i as int].wf());
            }
            let m = multiply_at(&lctx, record_id, i, &e, &bit);
            let d = e.minus(&m);
            proof {
                let ev = e.value();
                assert(ev < PRIME);
                if bit.value() == 1 {
                    assert(ev * 1 == ev);
                } else {
                    assert(ev * 0 == 0);
                }
                lemma_small_mod(ev, PRIME as nat);
                lemma_small_mod(0, PRIME as nat);
            }
            lo.push(d);
            hi.push(m);
            i += 1;
        }
        proof {
            lemma_pow2_unfold((l + 1) as nat);
            lemma_bits_to_nat_push(bs.take(l as int), bs[l as int]);
            assert(bs.take(l + 1) =~= bs.take(l as int).push(bs[l as int]));
            lemma_bits_to_nat_bound(bs.take(l as int));
        }
        let ghost lo0 = lo@;
        let ghost hi0 = hi@;
        lo.append(&mut hi);
        cur = lo;
        proof {
            let nlow = bits_to_nat(bs.take(l + 1));
            assert forall|k: int| 0 <= k < cur@.len() implies #[trigger] cur@[k].wf()
                && cur@[k].value() == if k == nlow { v } else { 0 } by {
                if k >= n {
                    assert(cur@[k] == hi0[k - n]);
                } else {
                    assert(cur@[k] == lo0[k]);
                }
            }
        }
        l += 1;
    }
    proof {
        assert(bs.take(bk_bits@.len() as int) =~= bs);
    }
    cur
}

/// Adds a row's contribution into the running per-bucket sums.
pub fn add_contribution(running_sums: &mut Vec<SharedField>, contribution: &Vec<SharedField>)
    requires
        old(running_sums)@.len() == contribution@.len(),
        forall|i: int| 0 <= i < old(running_sums)@.len() ==> (#[trigger] old(running_sums)@[i]).wf(),
        forall|i: int| 0 <= i < contribution@.len() ==> (#[trigger] contribution@[i]).wf(),
    ensures
        final(running_sums)@.len() == old(running_sums)@.len(),
        forall|i: int|
            0 <= i < old(running_sums)@.len() ==> (#[trigger] final(running_sums)@[i]).wf()
                && final(running_sums)@[i].value() == fp(
                (old(running_sums)@[i].value() + contribution@[i].value()) as int,
            ),
{
    let ghost orig = running_sums@;
    let mut i: usize = 0;
    while i < contribution.len()
        invariant
            orig.len() == contribution@.len(),
            running_sums@.len() == orig.len(),
            forall|k: int| 0 <= k < orig.len() ==> (#[trigger] orig[k]).wf(),
            forall|k: int| 0 <= k < contribution@.len() ==> (#[trigger] contribution@[k]).wf(),
            i <= orig.len(),
            forall|k: int| i <= k < orig.len() ==> #[trigger] running_sums@[k] == orig[k],
            forall|k: int|
                0 <= k < i ==> (#[trigger] running_sums@[k]).wf() && running_sums@[k].value() == fp(
                    (orig[k].value() + contribution@[k].value()) as int,
                ),
        decreases orig.len() - i,
    {
        proof {
            assert(orig[i as int].wf());
            assert(contribution@[i as int].wf());
        }
        let s = running_sums[i].plus(&contribution[i]);
        running_sums.set(i, s);
        i += 1;
    }
}

} // verus!
