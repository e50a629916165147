//! Secure primitives on shared bits: multiplication and the circuits built from it.
use crate::context::{pad_bit_of, Context, Step};
use crate::share::{
    bits_to_nat, complement, expand, extend, lemma_bits_to_nat_bound, lemma_bits_to_nat_ones,
    lemma_bits_to_nat_push, lemma_complement_value, open_bits, shared_value, wf_bits, xor_bits,
    BitShare, SharedBit,
};
use vstd::arithmetic::div_mod::{
    lemma_mod_add_multiples_vanish, lemma_mod_multiples_vanish, lemma_small_mod,
};
use vstd::arithmetic::power2::{lemma_pow2_pos, lemma_pow2_unfold, pow2};
use vstd::prelude::*;

verus! {

pub open spec fn bit_of(b: bool) -> nat {
    if b {
        1
    } else {
        0
    }
}

/// `(x + y + c) mod 2^n` and whether it carried out, over `n` digits.
pub open spec fn add_spec(x: nat, y: nat, c: bool, n: nat) -> (nat, bool) {
    ((((x + y + bit_of(c)) as int) % (pow2(n) as int)) as nat, x + y + bit_of(c) >= pow2(n))
}

/// What one helper sends in a multiplication (see `multiply_local`).
pub open spec fn local_product(a: BitShare, b: BitShare, pad_left: bool, pad_right: bool) -> bool {
    ((((a.left && b.left) != (a.left && b.right)) != (a.right && b.left)) != pad_left) != pad_right
}

/// The shares that a multiplication under `ctx`, record `record_id` and position `j` produces:
/// the pads are the ones each pair of roles draws at exactly that gate, record and position.
pub open spec fn product_shares(ctx: Context, record_id: u32, j: usize, a: SharedBit, b: SharedBit) -> SharedBit {
    let p12 = pad_bit_of(ctx.seed_of(0), ctx.gate_code, record_id, j);
    let p23 = pad_bit_of(ctx.seed_of(1), ctx.gate_code, record_id, j);
    let p31 = pad_bit_of(ctx.seed_of(2), ctx.gate_code, record_id, j);
    let z1 = local_product(a.h1, b.h1, p31, p12);
    let z2 = local_product(a.h2, b.h2, p12, p23);
    let z3 = local_product(a.h3, b.h3, p23, p31);
    SharedBit {
        h1: BitShare { left: z1, right: z2 },
        h2: BitShare { left: z2, right: z3 },
        h3: BitShare { left: z3, right: z1 },
    }
}

/// One helper's part of a multiplication: its cross terms, masked by the pad it shares with
/// its left neighbour and the one it shares with its right neighbour.
pub fn multiply_local(a: BitShare, b: BitShare, pad_left: bool, pad_right: bool) -> (r: bool)
    ensures
        r == ((((a.left && b.left) != (a.left && b.right)) != (a.right && b.left)) != pad_left)
            != pad_right,
{
    let cross = ((a.left && b.left) != (a.left && b.right)) != (a.right && b.left);
    (cross != pad_left) != pad_right
}

/// One round of multiplication: every helper masks its cross terms, sends the result to its
/// left neighbour, and keeps the pair (own, received) as its share of `a * b`. Position `j`
/// tells apart several products made under one step and record.
pub fn multiply_at(ctx: &Context, record_id: u32, j: usize, a: &SharedBit, b: &SharedBit) -> (r:
    SharedBit)
    requires
        a.wf(),
        b.wf(),
    ensures
        r.wf(),
        r.value() == (a.value() && b.value()),
        r == product_shares(*ctx, record_id, j, *a, *b),
{
    let p12 = ctx.pad_bit(0, record_id, j);
    let p23 = ctx.pad_bit(1, record_id, j);
    let p31 = ctx.pad_bit(2, record_id, j);
    let z1 = multiply_local(a.h1, b.h1, p31, p12);
    let z2 = multiply_local(a.h2, b.h2, p12, p23);
    let z3 = multiply_local(a.h3, b.h3, p23, p31);
    SharedBit {
        h1: BitShare { left: z1, right: z2 },
        h2: BitShare { left: z2, right: z3 },
        h3: BitShare { left: z3, right: z1 },
    }
}

/// `a * b` on shared bits.
pub fn multiply(ctx: &Context, record_id: u32, a: &SharedBit, b: &SharedBit) -> (r: SharedBit)
    requires
        a.wf(),
        b.wf(),
    ensures
        r.wf(),
        r.value() == (a.value() && b.value()),
        r == product_shares(*ctx, record_id, 0, *a, *b),
{
    multiply_at(ctx, record_id, 0, a, b)
}

/// Bitwise product of two arrays of one width, one record.
pub fn multiply_bits(ctx: &Context, record_id: u32, a: &Vec<SharedBit>, b: &Vec<SharedBit>) -> (r:
    Vec<SharedBit>)
    requires
        a@.len() == b@.len(),
        wf_bits(a@),
        wf_bits(b@),
    ensures
        r@.len() == a@.len(),
        wf_bits(r@),
        forall|j: int|
            0 <= j < a@.len() ==> #[trigger] open_bits(r@)[j] == (open_bits(a@)[j]
                && open_bits(b@)[j]),
{
    let mut r: Vec<SharedBit> = Vec::new();
    let mut i: usize = 0;
    while i < a.len()
        invariant
            a@.len() == b@.len(),
            wf_bits(a@),
            wf_bits(b@),
            i <= a@.len(),
            r@.len() == i,
            wf_bits(r@),
            forall|j: int|
                0 <= j < i ==> #[trigger] r@[j].value() == (a@[j].value() && b@[j].value()),
        decreases a@.len() - i,
    {
        let x = multiply_at(ctx, record_id, i, &a[i], &b[i]);
        r.push(x);
        i += 1;
    }
    r
}

/// `cond ? a : b` bitwise, as `b + cond * (a - b)`: one multiplication.
pub fn if_else(
    ctx: &Context,
    record_id: u32,
    cond: &Vec<SharedBit>,
    a: &Vec<SharedBit>,
    b: &Vec<SharedBit>,
) -> (r: Vec<SharedBit>)
    requires
        cond@.len() == a@.len(),
        a@.len() == b@.len(),
        wf_bits(cond@),
        wf_bits(a@),
        wf_bits(b@),
    ensures
        r@.len() == a@.len(),
        wf_bits(r@),
        forall|j: int|
            0 <= j < a@.len() ==> #[trigger] open_bits(r@)[j] == if open_bits(cond@)[j] {
                open_bits(a@)[j]
            } else {
                open_bits(b@)[j]
            },
{
    let d = xor_bits(a, b);
    let m = multiply_bits(ctx, record_id, cond, &d);
    let r = xor_bits(&m, b);
    proof {
        assert forall|j: int| 0 <= j < a@.len() implies #[trigger] open_bits(r@)[j] == if open_bits(
            cond@,
        )[j] {
            open_bits(a@)[j]
        } else {
            open_bits(b@)[j]
        } by {
            assert(open_bits(r@)[j] == (open_bits(m@)[j] != open_bits(b@)[j]));
            assert(open_bits(m@)[j] == (open_bits(cond@)[j] && open_bits(d@)[j]));
            assert(open_bits(d@)[j] == (open_bits(a@)[j] != open_bits(b@)[j]));
        }
    }
    r
}

/// `cond ? a : b` where `cond` is one bit, spread over the width of `a`.
pub fn select(
    ctx: &Context,
    record_id: u32,
    cond: &SharedBit,
    a: &Vec<SharedBit>,
    b: &Vec<SharedBit>,
) -> (r: Vec<SharedBit>)
    requires
        a@.len() == b@.len(),
        cond.wf(),
        wf_bits(a@),
        wf_bits(b@),
    ensures
        r@.len() == a@.len(),
        wf_bits(r@),
        open_bits(r@) == if cond.value() {
            open_bits(a@)
        } else {
            open_bits(b@)
        },
{
    let c = expand(cond, a.len());
    let r = if_else(ctx, record_id, &c, a, b);
    proof {
        assert(open_bits(r@) =~= if cond.value() {
            open_bits(a@)
        } else {
            open_bits(b@)
        });
    }
    r
}

/// Logical or, as `a + b - a * b`: one multiplication.
pub fn or(ctx: &Context, record_id: u32, a: &SharedBit, b: &SharedBit) -> (r: SharedBit)
    requires
        a.wf(),
        b.wf(),
    ensures
        r.wf(),
        r.value() == (a.value() || b.value()),
{
    let ab = multiply(ctx, record_id, a, b);
    a.xor(b).xor(&ab)
}

/// One position of the ripple-carry adder: the sum digit `x + y + carry`, and the new carry
/// `carry + (x + carry) * (y + carry)`.
pub fn bit_adder(
    ctx: &Context,
    record_id: u32,
    x: &SharedBit,
    y: &SharedBit,
    carry: &mut SharedBit,
) -> (r: SharedBit)
    requires
        x.wf(),
        y.wf(),
        old(carry).wf(),
    ensures
        r.wf(),
        final(carry).wf(),
        bit_of(r.value()) + 2 * bit_of(final(carry).value()) == bit_of(x.value()) + bit_of(
            y.value(),
        ) + bit_of(old(carry).value()),
{
    let out = x.xor(y).xor(carry);
    let m = multiply(ctx, record_id, &x.xor(carry), &y.xor(carry));
    *carry = carry.xor(&m);
    out
}

/// Adds `y` (cut or zero-padded to the width of `x`) and the carry to `x`, one position per
/// step `Bit(i)`. The result has the width of `x`; the carry out is left in `carry`.
pub fn addition_circuit(
    ctx: &Context,
    record_id: u32,
    x: &Vec<SharedBit>,
    y: &Vec<SharedBit>,
    carry: &mut SharedBit,
) -> (r: Vec<SharedBit>)
    requires
        ctx.wf(),
        wf_bits(x@),
        wf_bits(y@),
        old(carry).wf(),
    ensures
        r@.len() == x@.len(),
        wf_bits(r@),
        final(carry).wf(),
        shared_value(r@) + bit_of(final(carry).value()) * pow2(x@.len()) == shared_value(x@)
            + bits_to_nat(extend(open_bits(y@), x@.len())) + bit_of(old(carry).value()),
{
    let ghost n = x@.len();
    let ghost xs = open_bits(x@);
    let ghost ys = extend(open_bits(y@), n);
    let ghost c0 = bit_of(carry.value());
    let mut r: Vec<SharedBit> = Vec::new();
    let mut i: usize = 0;
    proof {
        assert(open_bits(r@).len() == 0);
        assert(xs.take(0).len() == 0);
        assert(ys.take(0).len() == 0);
        assert(pow2(0) == 1) by {
            vstd::arithmetic::power2::lemma2_to64();
        }
    }
    while i < x.len()
        invariant
            ctx.wf(),
            wf_bits(x@),
            wf_bits(y@),
            n == x@.len(),
            xs == open_bits(x@),
            ys == extend(open_bits(y@), n),
            i <= n,
            r@.len() == i,
            wf_bits(r@),
            carry.wf(),
            shared_value(r@) + bit_of(carry.value()) * pow2(i as nat) == bits_to_nat(
                xs.take(i as int),
            ) + bits_to_nat(ys.take(i as int)) + c0,
        decreases n - i,
    {
        let yi = if i < y.len() {
            y[i]
        } else {
            SharedBit::zero()
        };
        let ghost c_before = bit_of(carry.value());
        let out = bit_adder(&ctx.narrow(Step::Bit(i)), record_id, &x[i], &yi, carry);
        proof {
            let p = pow2(i as nat);
            lemma_pow2_unfold((i + 1) as nat);
            lemma_bits_to_nat_push(open_bits(r@), out.value());
            assert(open_bits(r@.push(out)) =~= open_bits(r@).push(out.value()));
            assert(xs.take(i + 1) =~= xs.take(i as int).push(xs[i as int]));
            assert(ys.take(i + 1) =~= ys.take(i as int).push(ys[i as int]));
            lemma_bits_to_nat_push(xs.take(i as int), xs[i as int]);
            lemma_bits_to_nat_push(ys.take(i as int), ys[i as int]);
            assert(ys[i as int] == yi.value());
            assert(bit_of(carry.value()) * pow2((i + 1) as nat) == 2 * bit_of(carry.value()) * p)
                by (nonlinear_arith)
                requires
                    pow2((i + 1) as nat) == 2 * p,
            ;
            assert(c_before * p + 2 * bit_of(carry.value()) * p + bit_of(out.value()) * p == bit_of(
                xs[i as int],
            ) * p + bit_of(ys[i as int]) * p + c_before * p + c_before * p) by (nonlinear_arith)
                requires
                    bit_of(out.value()) + 2 * bit_of(carry.value()) == bit_of(xs[i as int])
                        + bit_of(ys[i as int]) + c_before,
            ;
        }
        r.push(out);
        i += 1;
    }
    proof {
        assert(xs.take(n as int) =~= xs);
        assert(ys.take(n as int) =~= ys);
    }
    r
}

/// Turns the digit-sum identity of the adder into its remainder and carry-out.
proof fn lemma_add_result(v: nat, c: bool, n: nat, total: nat)
    requires
        v < pow2(n),
        v + bit_of(c) * pow2(n) == total,
    ensures
        v == (total as int % pow2(n) as int) as nat,
        c == (total >= pow2(n)),
{
    lemma_pow2_pos(n);
    lemma_small_mod(v, pow2(n));
    if c {
        lemma_mod_multiples_vanish(1, v as int, pow2(n) as int);
    }
}

/// `x + y` over the width of `x`; a carry out of the top digit is dropped.
pub fn integer_add(ctx: &Context, record_id: u32, x: &Vec<SharedBit>, y: &Vec<SharedBit>) -> (r:
    Vec<SharedBit>)
    requires
        ctx.wf(),
        wf_bits(x@),
        wf_bits(y@),
    ensures
        r@.len() == x@.len(),
        wf_bits(r@),
        shared_value(r@) == add_spec(
            shared_value(x@),
            bits_to_nat(extend(open_bits(y@), x@.len())),
            false,
            x@.len(),
        ).0,
{
    let (r, _carry) = integer_add_with_carry(ctx, record_id, x, y);
    r
}

/// `x + y` over the width of `x`, and whether it carried out of the top digit.
pub fn integer_add_with_carry(
    ctx: &Context,
    record_id: u32,
    x: &Vec<SharedBit>,
    y: &Vec<SharedBit>,
) -> (r: (Vec<SharedBit>, SharedBit))
    requires
        ctx.wf(),
        wf_bits(x@),
        wf_bits(y@),
    ensures
        r.0@.len() == x@.len(),
        wf_bits(r.0@),
        r.1.wf(),
        (shared_value(r.0@), r.1.value()) == add_spec(
            shared_value(x@),
            bits_to_nat(extend(open_bits(y@), x@.len())),
            false,
            x@.len(),
        ),
{
    let mut carry = SharedBit::zero();
    let r = addition_circuit(ctx, record_id, x, y, &mut carry);
    proof {
        lemma_bits_to_nat_bound(open_bits(r@));
        lemma_add_result(
            shared_value(r@),
            carry.value(),
            x@.len(),
            shared_value(x@) + bits_to_nat(extend(open_bits(y@), x@.len())),
        );
    }
    (r, carry)
}

/// `(x - y) mod 2^n`.
pub open spec fn sub_spec(x: nat, y: nat, n: nat) -> nat {
    ((x - y) % (pow2(n) as int)) as nat
}

/// `x - y` over the width of `x` (with `y` cut or zero-padded to it), computed as
/// `x + !y + 1`; the carry out is set exactly when `x >= y`.
pub fn subtraction_circuit(
    ctx: &Context,
    record_id: u32,
    x: &Vec<SharedBit>,
    y: &Vec<SharedBit>,
) -> (r: (Vec<SharedBit>, SharedBit))
    requires
        ctx.wf(),
        wf_bits(x@),
        wf_bits(y@),
    ensures
        r.0@.len() == x@.len(),
        wf_bits(r.0@),
        r.1.wf(),
        shared_value(r.0@) == sub_spec(
            shared_value(x@),
            bits_to_nat(extend(open_bits(y@), x@.len())),
            x@.len(),
        ),
        r.1.value() == (shared_value(x@) >= bits_to_nat(extend(open_bits(y@), x@.len()))),
{
    let ghost n = x@.len();
    let ghost ys = extend(open_bits(y@), n);
    let mut ny: Vec<SharedBit> = Vec::new();
    let mut i: usize = 0;
    while i < x.len()
        invariant
            wf_bits(y@),
            n == x@.len(),
            ys == extend(open_bits(y@), n),
            i <= n,
            ny@.len() == i,
            wf_bits(ny@),
            forall|j: int| 0 <= j < i ==> #[trigger] ny@[j].value() == !ys[j],
        decreases n - i,
    {
        let b = if i < y.len() {
            y[i].not()
        } else {
            SharedBit::share_known_value(true)
        };
        ny.push(b);
        i += 1;
    }
    let mut carry = SharedBit::share_known_value(true);
    let r = addition_circuit(ctx, record_id, x, &ny, &mut carry);
    proof {
        assert(extend(open_bits(ny@), n) =~= complement(ys));
        lemma_complement_value(ys);
        let xv = shared_value(x@) as int;
        let yv = bits_to_nat(ys) as int;
        let total = shared_value(x@) + bits_to_nat(complement(ys)) + 1;
        lemma_bits_to_nat_bound(open_bits(r@));
        lemma_add_result(shared_value(r@), carry.value(), n, total);
        lemma_pow2_pos(n);
        assert(total as int == pow2(n) + (xv - yv));
        lemma_mod_add_multiples_vanish(xv - yv, pow2(n) as int);
    }
    (r, carry)
}

/// `x - y` over the width of `x`, wrapping below zero.
pub fn integer_sub(ctx: &Context, record_id: u32, x: &Vec<SharedBit>, y: &Vec<SharedBit>) -> (r:
    Vec<SharedBit>)
    requires
        ctx.wf(),
        wf_bits(x@),
        wf_bits(y@),
    ensures
        r@.len() == x@.len(),
        wf_bits(r@),
        shared_value(r@) == sub_spec(
            shared_value(x@),
            bits_to_nat(extend(open_bits(y@), x@.len())),
            x@.len(),
        ),
{
    let (r, _borrow) = subtraction_circuit(ctx, record_id, x, y);
    r
}

/// Whether `x > y`, for arrays of one width: no carry out of `y - x`.
pub fn compare_gt(ctx: &Context, record_id: u32, x: &Vec<SharedBit>, y: &Vec<SharedBit>) -> (r:
    SharedBit)
    requires
        ctx.wf(),
        x@.len() == y@.len(),
        wf_bits(x@),
        wf_bits(y@),
    ensures
        r.wf(),
        r.value() == (shared_value(x@) > shared_value(y@)),
{
    let (_d, carry) = subtraction_circuit(ctx, record_id, y, x);
    proof {
        assert(extend(open_bits(x@), y@.len()) =~= open_bits(x@));
    }
    carry.not()
}

/// `x + y` over the width of `x`, held at all ones (`2^n - 1`) when it carries out of the top
/// digit: the adder under `SaturatedAddition`, then one product with the carry under
/// `MultiplyWithCarry`.
pub fn integer_sat_add(
    ctx: &Context,
    record_id: u32,
    x: &Vec<SharedBit>,
    y: &Vec<SharedBit>,
) -> (r: Vec<SharedBit>)
    requires
        ctx.wf(),
        wf_bits(x@),
        wf_bits(y@),
    ensures
        r@.len() == x@.len(),
        wf_bits(r@),
        shared_value(r@) == if shared_value(x@) + bits_to_nat(extend(open_bits(y@), x@.len()))
            >= pow2(x@.len()) {
            (pow2(x@.len()) - 1) as nat
        } else {
            shared_value(x@) + bits_to_nat(extend(open_bits(y@), x@.len()))
        },
{
    let mut carry = SharedBit::zero();
    let sum = addition_circuit(&ctx.narrow(Step::SaturatedAddition), record_id, x, y, &mut carry);
    let ones = expand(&SharedBit::share_known_value(true), x.len());
    let r = select(&ctx.narrow(Step::MultiplyWithCarry), record_id, &carry, &ones, &sum);
    proof {
        lemma_bits_to_nat_bound(open_bits(sum@));
        lemma_bits_to_nat_ones(x@.len());
        assert(open_bits(ones@) =~= Seq::new(x@.len(), |j: int| true));
        let total = shared_value(x@) + bits_to_nat(extend(open_bits(y@), x@.len()));
        if carry.value() {
            assert(bit_of(carry.value()) * pow2(x@.len()) == pow2(x@.len()));
            assert(total >= pow2(x@.len()));
            assert(open_bits(r@) == open_bits(ones@));
        } else {
            let b = bit_of(carry.value());
            assert(b == 0);
            assert(b * pow2(x@.len()) == 0) by (nonlinear_arith)
                requires
                    b == 0,
            ;
            assert(open_bits(r@) == open_bits(sum@));
        }
    }
    r
}

} // verus!
