//! The prime field of the aggregation, its replicated shares, and the element traits.
use crate::context::{pad_word_of, Context};
use crate::helpers::Message;
use crate::share::{ReplicatedSecretSharing, SharedBit};
use vstd::arithmetic::div_mod::{
    lemma_add_mod_noop, lemma_fundamental_div_mod, lemma_mod_multiples_vanish, lemma_mul_mod_noop,
    lemma_small_mod,
};
use vstd::prelude::*;

verus! {

/// The largest prime below `2^32`.
pub const PRIME: u64 = 4294967291;

/// `x` reduced into the field.
pub open spec fn fp(x: int) -> nat {
    (x % (PRIME as int)) as nat
}

/// Errors of field arithmetic.
#[derive(Clone, Debug, PartialEq, Eq)]
pub enum Error {
    /// The input does not name an element of the field.
    UnknownField { type_str: String },
}

/// Addition and subtraction of values of one type.
pub trait AddSub: Sized {
    fn add(&self, rhs: &Self) -> Self;

    fn sub(&self, rhs: &Self) -> Self;
}

/// Addition and subtraction in place.
pub trait AddSubAssign {
    fn add_assign(&mut self, rhs: &Self);

    fn sub_assign(&mut self, rhs: &Self);
}

/// Indexed access to the elements of an array-like value.
pub trait ArrayAccess {
    type Output;

    fn get(&self, index: usize) -> Option<Self::Output>;

    fn set(&mut self, index: usize, e: Self::Output);
}

/// An array with every element equal to one input value.
pub trait Expand: Sized {
    type Input;

    fn expand(v: &Self::Input) -> Self;
}

/// Arrays whose elements can be read, written and spread.
pub trait CustomArray: ArrayAccess + Expand {
}

/// An element of the field of `PRIME` elements.
#[derive(Clone, Copy, Debug, PartialEq, Eq, Structural)]
pub struct Fp32BitPrime {
    v: u32,
}

impl Fp32BitPrime {
    pub open spec fn wf(&self) -> bool {
        self.spec_value() < PRIME
    }

    pub closed spec fn spec_value(&self) -> nat {
        self.v as nat
    }

    /// The residue `x`, which must lie below the prime.
    pub fn try_from_u128(x: u128) -> (r: Result<Fp32BitPrime, Error>)
        ensures
            match r {
                Ok(e) => x < PRIME && e.spec_value() == x && e.wf(),
                Err(_) => x >= PRIME,
            },
    {
        if x < PRIME as u128 {
            Ok(Fp32BitPrime { v: x as u32 })
        } else {
            Err(Error::UnknownField { type_str: "value is not below the field's prime".to_owned() })
        }
    }

    /// `x` reduced into the field.
    pub fn truncate_from(x: u128) -> (r: Fp32BitPrime)
        ensures
            r.wf(),
            r.spec_value() == fp(x as int),
    {
        Fp32BitPrime { v: (x % (PRIME as u128)) as u32 }
    }

    pub fn as_u128(&self) -> (r: u128)
        ensures
            r == self.spec_value(),
    {
        self.v as u128
    }

    /// Four bytes, least significant first.
    pub fn serialize(&self) -> (r: [u8; 4])
        ensures
            r@ == u32_bytes(self.spec_value() as u32),
    {
        let v = self.v;
        let r = [(v % 256) as u8, (v / 256 % 256) as u8, (v / 65536 % 256) as u8, (v / 16777216) as u8];
        proof {
            assert(r@ =~= u32_bytes(v));
        }
        r
    }

    /// The element whose four bytes, least significant first, are `buf`.
    pub fn deserialize(buf: &[u8; 4]) -> (r: Result<Fp32BitPrime, Error>)
        ensures
            match r {
                Ok(e) => e.wf() && e.spec_value() == bytes_u32(buf@) && bytes_u32(buf@) < PRIME,
                Err(_) => bytes_u32(buf@) >= PRIME,
            },
    {
        let x = buf[0] as u128 + buf[1] as u128 * 256 + buf[2] as u128 * 65536 + buf[3] as u128
            * 16777216;
        Fp32BitPrime::try_from_u128(x)
    }
}

/// The four bytes of `v`, least significant first.
pub open spec fn u32_bytes(v: u32) -> Seq<u8> {
    seq![(v % 256) as u8, (v / 256 % 256) as u8, (v / 65536 % 256) as u8, (v / 16777216) as u8]
}

/// The number whose four bytes, least significant first, are `b`.
pub open spec fn bytes_u32(b: Seq<u8>) -> nat {
    (b[0] + b[1] * 256 + b[2] * 65536 + b[3] * 16777216) as nat
}

/// Reading back the bytes of a number gives the number.
pub proof fn lemma_u32_bytes_round_trip(v: u32)
    ensures
        bytes_u32(u32_bytes(v)) == v,
{
}

/// Helper-local arithmetic in the field.
pub fn add_mod(a: u32, b: u32) -> (r: u32)
    requires
        a < PRIME,
        b < PRIME,
    ensures
        r < PRIME,
        r == fp(a + b),
{
    ((a as u64 + b as u64) % PRIME) as u32
}

pub fn sub_mod(a: u32, b: u32) -> (r: u32)
    requires
        a < PRIME,
        b < PRIME,
    ensures
        r < PRIME,
        r == fp(a - b),
{
    proof {
        lemma_mod_multiples_vanish(1, a - b, PRIME as int);
    }
    ((a as u64 + PRIME - b as u64) % PRIME) as u32
}

pub fn mul_mod(a: u32, b: u32) -> (r: u32)
    requires
        a < PRIME,
        b < PRIME,
    ensures
        r < PRIME,
        r == fp(a * b),
{
    proof {
        assert(a * b < 0x1_0000_0000_0000_0000) by (nonlinear_arith)
            requires
                a < PRIME,
                b < PRIME,
        ;
    }
    ((a as u64 * b as u64) % PRIME) as u32
}

/// One helper's replicated share of a field element.
#[derive(Clone, Copy, Debug, PartialEq, Eq, Structural)]
pub struct FieldShare {
    pub left: u32,
    pub right: u32,
}

/// The eight bytes of a share: left, then right, each least significant byte first.
pub open spec fn share_bytes(s: FieldShare) -> Seq<u8> {
    u32_bytes(s.left) + u32_bytes(s.right)
}

/// The share whose eight bytes are `b`.
pub open spec fn share_of_bytes(b: Seq<u8>) -> FieldShare {
    FieldShare { left: bytes_u32(b.subrange(0, 4)) as u32, right: bytes_u32(b.subrange(4, 8)) as u32 }
}

impl FieldShare {
    /// The share's wire form.
    pub fn serialize(&self) -> (r: [u8; 8])
        ensures
            r@ == share_bytes(*self),
    {
        let l = self.left;
        let h = self.right;
        let r = [
            (l % 256) as u8,
            (l / 256 % 256) as u8,
            (l / 65536 % 256) as u8,
            (l / 16777216) as u8,
            (h % 256) as u8,
            (h / 256 % 256) as u8,
            (h / 65536 % 256) as u8,
            (h / 16777216) as u8,
        ];
        proof {
            assert(r@ =~= share_bytes(*self));
        }
        r
    }

    /// The share whose wire form is `buf`; a half that is not below the prime is refused.
    pub fn deserialize(buf: &[u8; 8]) -> (r: Result<FieldShare, Error>)
        ensures
            match r {
                Ok(s) => s == share_of_bytes(buf@) && s.left < PRIME && s.right < PRIME,
                Err(_) => bytes_u32(buf@.subrange(0, 4)) >= PRIME || bytes_u32(buf@.subrange(4, 8))
                    >= PRIME,
            },
    {
        let l = buf[0] as u64 + buf[1] as u64 * 256 + buf[2] as u64 * 65536 + buf[3] as u64
            * 16777216;
        let h = buf[4] as u64 + buf[5] as u64 * 256 + buf[6] as u64 * 65536 + buf[7] as u64
            * 16777216;
        proof {
            assert(l == bytes_u32(buf@.subrange(0, 4)));
            assert(h == bytes_u32(buf@.subrange(4, 8)));
        }
        if l < PRIME && h < PRIME {
            Ok(FieldShare { left: l as u32, right: h as u32 })
        } else {
            Err(Error::UnknownField { type_str: "share is not below the field's prime".to_owned() })
        }
    }
}

/// Writing the helpers' shares out and reading them back gives the same shares, and so the
/// same reconstructed element.
pub proof fn lemma_share_round_trip(x: SharedField)
    requires
        x.wf(),
    ensures
        share_of_bytes(share_bytes(x.h1)) == x.h1,
        share_of_bytes(share_bytes(x.h2)) == x.h2,
        share_of_bytes(share_bytes(x.h3)) == x.h3,
        (SharedField {
            h1: share_of_bytes(share_bytes(x.h1)),
            h2: share_of_bytes(share_bytes(x.h2)),
            h3: share_of_bytes(share_bytes(x.h3)),
        }).value() == x.value(),
{
    lemma_field_share_round_trip(x.h1);
    lemma_field_share_round_trip(x.h2);
    lemma_field_share_round_trip(x.h3);
}

/// One share read back from its bytes.
pub proof fn lemma_field_share_round_trip(s: FieldShare)
    ensures
        share_of_bytes(share_bytes(s)) == s,
{
    assert(share_bytes(s).subrange(0, 4) =~= u32_bytes(s.left));
    assert(share_bytes(s).subrange(4, 8) =~= u32_bytes(s.right));
    lemma_u32_bytes_round_trip(s.left);
    lemma_u32_bytes_round_trip(s.right);
}

/// The shares of one field element held by the helpers in roles H1, H2 and H3.
#[derive(Clone, Copy, Debug, PartialEq, Eq, Structural)]
pub struct SharedField {
    pub h1: FieldShare,
    pub h2: FieldShare,
    pub h3: FieldShare,
}

/// `x`, `y` and `z` sum to the same residue as their residues do.
pub proof fn lemma_mod_sum3(x: int, y: int, z: int)
    ensures
        fp((fp(x) + fp(y) + fp(z)) as int) == fp(x + y + z),
{
    let p = PRIME as int;
    lemma_add_mod_noop(x, y, p);
    lemma_add_mod_noop(x + y, z, p);
    lemma_add_mod_noop((fp(x) + fp(y)) as int, z, p);
    lemma_small_mod(fp(x + y), PRIME as nat);
    lemma_add_mod_noop((fp(x) + fp(y)) as int, fp(z) as int, p);
    lemma_small_mod(fp(z), PRIME as nat);
}

/// Numbers that differ by a multiple of the prime have one residue.
pub proof fn lemma_mod_congruent(x: int, y: int, k: int)
    requires
        x == y + PRIME * k,
    ensures
        fp(x) == fp(y),
{
    lemma_mod_multiples_vanish(k, y, PRIME as int);
}

/// The sharing of a public element `v`: H1's left share and H3's right share hold it, the
/// others are zero.
pub open spec fn known_field(v: u32) -> SharedField {
    SharedField {
        h1: FieldShare { left: v, right: 0 },
        h2: FieldShare { left: 0, right: 0 },
        h3: FieldShare { left: 0, right: v },
    }
}

impl SharedField {
    pub open spec fn wf(&self) -> bool {
        &&& self.h1.right == self.h2.left
        &&& self.h2.right == self.h3.left
        &&& self.h3.right == self.h1.left
        &&& self.h1.left < PRIME && self.h2.left < PRIME && self.h3.left < PRIME
    }

    /// The element the shares stand for: the sum of the three left shares.
    pub open spec fn value(&self) -> nat {
        fp(self.h1.left + self.h2.left + self.h3.left)
    }

    /// A public constant: only H1's left share (and so H3's right share) holds it.
    pub fn share_known_value(v: u32) -> (r: SharedField)
        requires
            v < PRIME,
        ensures
            r.wf(),
            r.value() == v,
            r == known_field(v),
    {
        proof {
            lemma_small_mod(v as nat, PRIME as nat);
        }
        SharedField {
            h1: FieldShare { left: v, right: 0 },
            h2: FieldShare { left: 0, right: 0 },
            h3: FieldShare { left: 0, right: v },
        }
    }

    pub fn zero() -> (r: SharedField)
        ensures
            r.wf(),
            r.value() == 0,
            r == known_field(0),
    {
        SharedField::share_known_value(0)
    }

    /// Whether the shares agree between neighbours and lie in the field.
    pub fn is_consistent(&self) -> (r: bool)
        ensures
            r == self.wf(),
    {
        self.h1.right == self.h2.left && self.h2.right == self.h3.left && self.h3.right
            == self.h1.left && (self.h1.left as u64) < PRIME && (self.h2.left as u64) < PRIME
            && (self.h3.left as u64) < PRIME
    }

    /// The element, reconstructed from the three left shares.
    pub fn reconstruct(&self) -> (r: u32)
        requires
            self.wf(),
        ensures
            r == self.value(),
    {
        add_mod(add_mod(self.h1.left, self.h2.left), self.h3.left)
    }

    /// Sum, computed locally.
    pub fn plus(&self, o: &SharedField) -> (r: SharedField)
        requires
            self.wf(),
            o.wf(),
        ensures
            r.wf(),
            r.value() == fp((self.value() + o.value()) as int),
    {
        let a = add_mod(self.h1.left, o.h1.left);
        let b = add_mod(self.h2.left, o.h2.left);
        let c = add_mod(self.h3.left, o.h3.left);
        proof {
            let s = self.h1.left + self.h2.left + self.h3.left;
            let t = o.h1.left + o.h2.left + o.h3.left;
            lemma_mod_sum3(self.h1.left + o.h1.left, self.h2.left + o.h2.left, self.h3.left + o.h3.left);
            lemma_add_mod_noop(s, t, PRIME as int);
        }
        SharedField {
            h1: FieldShare { left: a, right: b },
            h2: FieldShare { left: b, right: c },
            h3: FieldShare { left: c, right: a },
        }
    }

    /// Difference, computed locally.
    pub fn minus(&self, o: &SharedField) -> (r: SharedField)
        requires
            self.wf(),
            o.wf(),
        ensures
            r.wf(),
            r.value() == fp(self.value() - o.value()),
    {
        let a = sub_mod(self.h1.left, o.h1.left);
        let b = sub_mod(self.h2.left, o.h2.left);
        let c = sub_mod(self.h3.left, o.h3.left);
        proof {
            let s = self.h1.left + self.h2.left + self.h3.left;
            let t = o.h1.left + o.h2.left + o.h3.left;
            let p = PRIME as int;
            lemma_mod_sum3(self.h1.left - o.h1.left, self.h2.left - o.h2.left, self.h3.left - o.h3.left);
            lemma_fundamental_div_mod(s, p);
            lemma_fundamental_div_mod(t, p);
            lemma_mod_congruent(s - t, fp(s) - fp(t), s / p - t / p);
        }
        SharedField {
            h1: FieldShare { left: a, right: b },
            h2: FieldShare { left: b, right: c },
            h3: FieldShare { left: c, right: a },
        }
    }

    /// Product with a public constant, computed locally.
    pub fn scale(&self, k: u32) -> (r: SharedField)
        requires
            self.wf(),
            k < PRIME,
        ensures
            r.wf(),
            r.value() == fp((self.value() * k) as int),
    {
        let a = mul_mod(self.h1.left, k);
        let b = mul_mod(self.h2.left, k);
        let c = mul_mod(self.h3.left, k);
        proof {
            let s = self.h1.left + self.h2.left + self.h3.left;
            let p = PRIME as int;
            lemma_mod_sum3(self.h1.left * k, self.h2.left * k, self.h3.left * k);
            let (x1, x2, x3) = (self.h1.left as int, self.h2.left as int, self.h3.left as int);
            assert(x1 * k + x2 * k + x3 * k == s * k) by (nonlinear_arith)
                requires
                    s == x1 + x2 + x3,
            ;
            lemma_mul_mod_noop(s, k as int, p);
            lemma_small_mod(k as nat, PRIME as nat);
        }
        SharedField {
            h1: FieldShare { left: a, right: b },
            h2: FieldShare { left: b, right: c },
            h3: FieldShare { left: c, right: a },
        }
    }
}

impl Message for Fp32BitPrime {
    fn size() -> usize {
        4
    }
}

impl Message for FieldShare {
    fn size() -> usize {
        8
    }
}

impl ReplicatedSecretSharing<u32> for FieldShare {
    fn left(&self) -> u32 {
        self.left
    }

    fn right(&self) -> u32 {
        self.right
    }
}

impl ArrayAccess for Vec<SharedBit> {
    type Output = SharedBit;

    fn get(&self, index: usize) -> Option<SharedBit> {
        if index < self.len() {
            Some(self[index])
        } else {
            None
        }
    }

    fn set(&mut self, index: usize, e: SharedBit) {
        if index < self.len() {
            vstd::pervasive::VecAdditionalExecFns::set(self, index, e);
        }
    }
}

/// What one helper sends in a field multiplication (see `multiply_local`).
pub open spec fn local_product(a: FieldShare, b: FieldShare, pad_left: u32, pad_right: u32) -> u32 {
    fp(a.left * b.left + a.left * b.right + a.right * b.left + pad_left - pad_right) as u32
}

/// The pad of the pair with seed `seed`, reduced into the field.
pub open spec fn field_pad(seed: u64, gate_code: u64, record_id: u32, j: usize) -> u32 {
    (pad_word_of(seed, gate_code, record_id, j) % PRIME) as u32
}

/// The shares that a field multiplication under `ctx`, record `record_id` and position `j`
/// produces: the pads are the ones each pair of roles draws at exactly that gate, record and
/// position.
pub open spec fn product_shares(ctx: Context, record_id: u32, j: usize, a: SharedField, b: SharedField) -> SharedField {
    let p12 = field_pad(ctx.seed_of(0), ctx.gate_code, record_id, j);
    let p23 = field_pad(ctx.seed_of(1), ctx.gate_code, record_id, j);
    let p31 = field_pad(ctx.seed_of(2), ctx.gate_code, record_id, j);
    let z1 = local_product(a.h1, b.h1, p31, p12);
    let z2 = local_product(a.h2, b.h2, p12, p23);
    let z3 = local_product(a.h3, b.h3, p23, p31);
    SharedField {
        h1: FieldShare { left: z1, right: z2 },
        h2: FieldShare { left: z2, right: z3 },
        h3: FieldShare { left: z3, right: z1 },
    }
}

/// One helper's part of a multiplication: its cross terms plus the pad it shares with its left
/// neighbour, minus the one it shares with its right neighbour.
pub fn multiply_local(a: FieldShare, b: FieldShare, pad_left: u32, pad_right: u32) -> (r: u32)
    requires
        a.left < PRIME,
        a.right < PRIME,
        b.left < PRIME,
        b.right < PRIME,
        pad_left < PRIME,
        pad_right < PRIME,
    ensures
        r < PRIME,
        r == fp(a.left * b.left + a.left * b.right + a.right * b.left + pad_left - pad_right),
{
    let t1 = mul_mod(a.left, b.left);
    let t2 = mul_mod(a.left, b.right);
    let t3 = mul_mod(a.right, b.left);
    let s1 = add_mod(t1, t2);
    let s2 = add_mod(s1, t3);
    let s = add_mod(s2, pad_left);
    let r = sub_mod(s, pad_right);
    proof {
        let p = PRIME as int;
        let x1 = a.left * b.left;
        let x2 = a.left * b.right;
        let x3 = a.right * b.left;
        lemma_fundamental_div_mod(x1, p);
        lemma_fundamental_div_mod(x2, p);
        lemma_fundamental_div_mod(x3, p);
        let u1 = t1 + t2;
        lemma_fundamental_div_mod(u1, p);
        let u2 = s1 + t3;
        lemma_fundamental_div_mod(u2, p);
        let u3 = fp(u2) + pad_left;
        lemma_fundamental_div_mod(u3, p);
        let u4 = s - pad_right;
        lemma_fundamental_div_mod(u4, p);
        lemma_mod_congruent(
            x1 + x2 + x3 + pad_left - pad_right,
            u4,
            x1 / p + x2 / p + x3 / p + u1 / p + u2 / p + u3 / p,
        );
        lemma_small_mod(r as nat, PRIME as nat);
    }
    r
}

/// One round of multiplication in the field: every helper masks its cross terms and keeps
/// the pair (own, received from its right neighbour) as its share of `a * b`.
pub fn multiply_at(ctx: &Context, record_id: u32, j: usize, a: &SharedField, b: &SharedField) -> (r:
    SharedField)
    requires
        a.wf(),
        b.wf(),
    ensures
        r.wf(),
        r.value() == fp((a.value() * b.value()) as int),
        r == product_shares(*ctx, record_id, j, *a, *b),
{
    let p12 = (ctx.pad_word(0, record_id, j) % PRIME) as u32;
    let p23 = (ctx.pad_word(1, record_id, j) % PRIME) as u32;
    let p31 = (ctx.pad_word(2, record_id, j) % PRIME) as u32;
    let z1 = multiply_local(a.h1, b.h1, p31, p12);
    let z2 = multiply_local(a.h2, b.h2, p12, p23);
    let z3 = multiply_local(a.h3, b.h3, p23, p31);
    proof {
        let p = PRIME as int;
        let (a1, a2, a3) = (a.h1.left as int, a.h2.left as int, a.h3.left as int);
        let (b1, b2, b3) = (b.h1.left as int, b.h2.left as int, b.h3.left as int);
        let c1 = a1 * b1 + a1 * b2 + a2 * b1 + p31 - p12;
        let c2 = a2 * b2 + a2 * b3 + a3 * b2 + p12 - p23;
        let c3 = a3 * b3 + a3 * b1 + a1 * b3 + p23 - p31;
        lemma_mod_sum3(c1, c2, c3);
        assert(c1 + c2 + c3 == (a1 + a2 + a3) * (b1 + b2 + b3)) by (nonlinear_arith)
            requires
                c1 == a1 * b1 + a1 * b2 + a2 * b1 + p31 - p12,
                c2 == a2 * b2 + a2 * b3 + a3 * b2 + p12 - p23,
                c3 == a3 * b3 + a3 * b1 + a1 * b3 + p23 - p31,
        ;
        lemma_mul_mod_noop(a1 + a2 + a3, b1 + b2 + b3, p);
    }
    SharedField {
        h1: FieldShare { left: z1, right: z2 },
        h2: FieldShare { left: z2, right: z3 },
        h3: FieldShare { left: z3, right: z1 },
    }
}

} // verus!
