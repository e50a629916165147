//! Replicated shares of bits and bit arrays, held by the three helpers side by side.
use vstd::arithmetic::div_mod::{
    lemma_div_denominator, lemma_mod_breakdown, lemma_mod_multiples_vanish, lemma_small_mod,
};
use vstd::arithmetic::power2::{
    lemma_pow2_adds, lemma_pow2_pos, lemma_pow2_strictly_increases, lemma_pow2_unfold, pow2,
};
use vstd::prelude::*;

verus! {

/// One helper's replicated share of a bit: its own additive share and its right neighbour's.
#[derive(Clone, Copy, Debug, PartialEq, Eq, Structural)]
pub struct BitShare {
    pub left: bool,
    pub right: bool,
}

/// Operations shared by every replicated share.
pub trait ReplicatedSecretSharing<V> {
    fn left(&self) -> V;

    fn right(&self) -> V;
}

impl ReplicatedSecretSharing<bool> for BitShare {
    fn left(&self) -> bool {
        self.left
    }

    fn right(&self) -> bool {
        self.right
    }
}

/// The shares of one bit held by the helpers in roles H1, H2 and H3.
#[derive(Clone, Copy, Debug, PartialEq, Eq, Structural)]
pub struct SharedBit {
    pub h1: BitShare,
    pub h2: BitShare,
    pub h3: BitShare,
}

/// The sharing of a public bit `v`: H1's left share and H3's right share hold it, the others
/// are zero.
pub open spec fn known_bit(v: bool) -> SharedBit {
    SharedBit {
        h1: BitShare { left: v, right: false },
        h2: BitShare { left: false, right: false },
        h3: BitShare { left: false, right: v },
    }
}

impl SharedBit {
    /// Each helper's right share is its right neighbour's left share.
    pub open spec fn wf(&self) -> bool {
        &&& self.h1.right == self.h2.left
        &&& self.h2.right == self.h3.left
        &&& self.h3.right == self.h1.left
    }

    /// Whether each helper's right share matches its neighbour's left share.
    pub fn is_consistent(&self) -> (r: bool)
        ensures
            r == self.wf(),
    {
        self.h1.right == self.h2.left && self.h2.right == self.h3.left && self.h3.right == self.h1.left
    }

    /// The bit the shares stand for: the exclusive-or of the three left shares.
    pub open spec fn value(&self) -> bool {
        (self.h1.left != self.h2.left) != self.h3.left
    }

    /// The bit `v`, as the helpers encode a public constant: only H1's left share
    /// (and so H3's right share) holds it.
    pub fn share_known_value(v: bool) -> (r: SharedBit)
        ensures
            r.wf(),
            r.value() == v,
            r == known_bit(v),
    {
        SharedBit {
            h1: BitShare { left: v, right: false },
            h2: BitShare { left: false, right: false },
            h3: BitShare { left: false, right: v },
        }
    }

    /// The shares of zero.
    pub fn zero() -> (r: SharedBit)
        ensures
            r.wf(),
            !r.value(),
            r == known_bit(false),
    {
        SharedBit::share_known_value(false)
    }

    /// Exclusive-or, computed locally by each helper.
    pub fn xor(&self, o: &SharedBit) -> (r: SharedBit)
        requires
            self.wf(),
            o.wf(),
        ensures
            r.wf(),
            r.value() == (self.value() != o.value()),
    {
        SharedBit {
            h1: BitShare { left: self.h1.left != o.h1.left, right: self.h1.right != o.h1.right },
            h2: BitShare { left: self.h2.left != o.h2.left, right: self.h2.right != o.h2.right },
            h3: BitShare { left: self.h3.left != o.h3.left, right: self.h3.right != o.h3.right },
        }
    }

    /// The bit, reconstructed from the three left shares.
    pub fn reconstruct(&self) -> (r: bool)
        ensures
            r == self.value(),
    {
        (self.h1.left != self.h2.left) != self.h3.left
    }

    /// Negation: the exclusive-or with the known value one.
    pub fn not(&self) -> (r: SharedBit)
        requires
            self.wf(),
        ensures
            r.wf(),
            r.value() == !self.value(),
    {
        self.xor(&SharedBit::share_known_value(true))
    }
}

/// The bits that a sequence of shared bits stands for.
pub open spec fn open_bits(s: Seq<SharedBit>) -> Seq<bool> {
    Seq::new(s.len(), |j: int| s[j].value())
}

pub open spec fn wf_bits(s: Seq<SharedBit>) -> bool {
    forall|j: int| 0 <= j < s.len() ==> #[trigger] s[j].wf()
}

/// The number whose binary digits, least significant first, are `b`.
pub open spec fn bits_to_nat(b: Seq<bool>) -> nat
    decreases b.len(),
{
    if b.len() == 0 {
        0
    } else {
        bits_to_nat(b.drop_last()) + if b.last() {
            pow2((b.len() - 1) as nat)
        } else {
            0
        }
    }
}

/// The number of shared bits `s`.
pub open spec fn shared_value(s: Seq<SharedBit>) -> nat {
    bits_to_nat(open_bits(s))
}

pub proof fn lemma_bits_to_nat_bound(b: Seq<bool>)
    ensures
        bits_to_nat(b) < pow2(b.len()),
    decreases b.len(),
{
    if b.len() == 0 {
        lemma_pow2_pos(0);
    } else {
        lemma_bits_to_nat_bound(b.drop_last());
        lemma_pow2_unfold(b.len());
        assert(b.drop_last().len() == (b.len() - 1) as nat);
    }
}

/// Appending a digit adds it at weight `2^len`.
pub proof fn lemma_bits_to_nat_push(b: Seq<bool>, x: bool)
    ensures
        bits_to_nat(b.push(x)) == bits_to_nat(b) + if x {
            pow2(b.len())
        } else {
            0
        },
{
    assert(b.push(x).drop_last() =~= b);
}

/// All-false digits are zero.
pub proof fn lemma_bits_to_nat_zeros(n: nat)
    ensures
        bits_to_nat(Seq::new(n, |j: int| false)) == 0,
    decreases n,
{
    if n > 0 {
        assert(Seq::new(n, |j: int| false).drop_last() =~= Seq::new((n - 1) as nat, |j: int| false));
        lemma_bits_to_nat_zeros((n - 1) as nat);
    }
}

/// `b` read as `n` digits: cut to `n`, or padded with zeros.
pub open spec fn extend(b: Seq<bool>, n: nat) -> Seq<bool> {
    Seq::new(n, |j: int| if j < b.len() { b[j] } else { false })
}

/// The low `n` digits and the rest.
pub proof fn lemma_bits_split(b: Seq<bool>, n: nat)
    requires
        n <= b.len(),
    ensures
        bits_to_nat(b) == bits_to_nat(b.take(n as int)) + pow2(n) * bits_to_nat(b.skip(n as int)),
    decreases b.len(),
{
    if n == b.len() {
        assert(b.take(n as int) =~= b);
        assert(b.skip(n as int).len() == 0);
        assert(bits_to_nat(b.skip(n as int)) == 0);
        assert(pow2(n) * 0 == 0);
    } else {
        let d = b.drop_last();
        lemma_bits_split(d, n);
        assert(d.take(n as int) =~= b.take(n as int));
        let m = (b.len() - 1 - n) as nat;
        assert(b.skip(n as int) =~= d.skip(n as int).push(b.last()));
        lemma_bits_to_nat_push(d.skip(n as int), b.last());
        lemma_pow2_adds(n, m);
        assert(n + m == b.len() - 1);
        let l = if b.last() {
            1nat
        } else {
            0nat
        };
        let a = bits_to_nat(d.skip(n as int));
        assert(d.skip(n as int).len() == m);
        assert(bits_to_nat(b.skip(n as int)) == a + l * pow2(m));
        assert(bits_to_nat(b) == bits_to_nat(d) + l * pow2((b.len() - 1) as nat));
        assert(pow2(n) * (a + l * pow2(m)) == pow2(n) * a + l * (pow2(n) * pow2(m)))
            by (nonlinear_arith);
    }
}

/// Padding with zeros keeps the value.
proof fn lemma_extend_long(b: Seq<bool>, n: nat)
    requires
        b.len() <= n,
    ensures
        bits_to_nat(extend(b, n)) == bits_to_nat(b),
    decreases n,
{
    if n == b.len() {
        assert(extend(b, n) =~= b);
    } else {
        lemma_extend_long(b, (n - 1) as nat);
        assert(extend(b, n) =~= extend(b, (n - 1) as nat).push(false));
        lemma_bits_to_nat_push(extend(b, (n - 1) as nat), false);
    }
}

/// Reading `b` as `n` digits takes its value modulo `2^n`.
pub proof fn lemma_extend_value(b: Seq<bool>, n: nat)
    ensures
        bits_to_nat(extend(b, n)) == bits_to_nat(b) % pow2(n),
{
    lemma_pow2_pos(n);
    if n <= b.len() {
        assert(extend(b, n) =~= b.take(n as int));
        lemma_bits_split(b, n);
        lemma_bits_to_nat_bound(b.take(n as int));
        lemma_mod_multiples_vanish(
            bits_to_nat(b.skip(n as int)) as int,
            bits_to_nat(b.take(n as int)) as int,
            pow2(n) as int,
        );
        lemma_small_mod(bits_to_nat(b.take(n as int)), pow2(n));
    } else {
        lemma_extend_long(b, n);
        lemma_bits_to_nat_bound(b);
        lemma_pow2_strictly_increases(b.len(), n);
        lemma_small_mod(bits_to_nat(b), pow2(n));
    }
}

/// The digits of `b`, each flipped.
pub open spec fn complement(b: Seq<bool>) -> Seq<bool> {
    Seq::new(b.len(), |j: int| !b[j])
}

/// Flipping every digit gives the distance to the largest number of that width.
pub proof fn lemma_complement_value(b: Seq<bool>)
    ensures
        bits_to_nat(complement(b)) + bits_to_nat(b) + 1 == pow2(b.len()),
    decreases b.len(),
{
    if b.len() == 0 {
        lemma_pow2_pos(0);
        vstd::arithmetic::power2::lemma2_to64();
    } else {
        assert(complement(b).drop_last() =~= complement(b.drop_last()));
        lemma_complement_value(b.drop_last());
        lemma_pow2_unfold(b.len());
    }
}

/// `n` ones make `2^n - 1`.
pub proof fn lemma_bits_to_nat_ones(n: nat)
    ensures
        bits_to_nat(Seq::new(n, |j: int| true)) + 1 == pow2(n),
{
    lemma_bits_to_nat_zeros(n);
    assert(complement(Seq::new(n, |j: int| false)) =~= Seq::new(n, |j: int| true));
    lemma_complement_value(Seq::new(n, |j: int| false));
}

/// `n` copies of `b`: a bit spread over a whole array, computed locally.
pub fn expand(b: &SharedBit, n: usize) -> (r: Vec<SharedBit>)
    requires
        b.wf(),
    ensures
        r@.len() == n,
        wf_bits(r@),
        open_bits(r@) == Seq::new(n as nat, |j: int| b.value()),
        r@ == Seq::new(n as nat, |j: int| *b),
{
    let mut r: Vec<SharedBit> = Vec::new();
    let mut i: usize = 0;
    while i < n
        invariant
            b.wf(),
            i <= n,
            r@.len() == i,
            forall|j: int| 0 <= j < i ==> r@[j] == *b,
        decreases n - i,
    {
        r.push(*b);
        i += 1;
    }
    proof {
        assert(open_bits(r@) =~= Seq::new(n as nat, |j: int| b.value()));
        assert(r@ =~= Seq::new(n as nat, |j: int| *b));
    }
    r
}

/// The shares of the `n`-bit array of zeros.
pub fn zeros(n: usize) -> (r: Vec<SharedBit>)
    ensures
        r@.len() == n,
        wf_bits(r@),
        open_bits(r@) == Seq::new(n as nat, |j: int| false),
        shared_value(r@) == 0,
        r@ == Seq::new(n as nat, |j: int| known_bit(false)),
{
    let r = expand(&SharedBit::zero(), n);
    proof {
        lemma_bits_to_nat_zeros(n as nat);
    }
    r
}

/// Bitwise exclusive-or of two arrays of one width, computed locally.
pub fn xor_bits(a: &Vec<SharedBit>, b: &Vec<SharedBit>) -> (r: Vec<SharedBit>)
    requires
        a@.len() == b@.len(),
        wf_bits(a@),
        wf_bits(b@),
    ensures
        r@.len() == a@.len(),
        wf_bits(r@),
        forall|j: int| 0 <= j < a@.len() ==> #[trigger] open_bits(r@)[j] == (open_bits(a@)[j] != open_bits(b@)[j]),
{
    let mut r: Vec<SharedBit> = Vec::new();
    let mut i: usize = 0;
    while i < a.len()
        invariant
            a@.len() == b@.len(),
            wf_bits(a@),
            wf_bits(b@),
            i <= a@.len(),
            r@.len() == i,
            wf_bits(r@),
            forall|j: int| 0 <= j < i ==> #[trigger] r@[j].value() == (a@[j].value() != b@[j].value()),
        decreases a@.len() - i,
    {
        let x = a[i].xor(&b[i]);
        r.push(x);
        i += 1;
    }
    r
}

/// The low `n` digits of `v` as the helpers encode a public constant.
pub fn truncate_from(v: u64, n: usize) -> (r: Vec<SharedBit>)
    ensures
        r@.len() == n,
        wf_bits(r@),
        shared_value(r@) == (v as nat) % pow2(n as nat),
{
    let mut r: Vec<SharedBit> = Vec::new();
    let mut rest: u64 = v;
    let mut i: usize = 0;
    proof {
        lemma_pow2_pos(0);
        vstd::arithmetic::power2::lemma2_to64();
        assert(open_bits(r@).len() == 0);
    }
    while i < n
        invariant
            i <= n,
            r@.len() == i,
            wf_bits(r@),
            rest as nat == (v as nat) / pow2(i as nat),
            shared_value(r@) == (v as nat) % pow2(i as nat),
        decreases n - i,
    {
        let bit = SharedBit::share_known_value(rest % 2 == 1);
        proof {
            let p = pow2(i as nat);
            lemma_pow2_pos(i as nat);
            lemma_pow2_unfold((i + 1) as nat);
            lemma_mod_breakdown(v as int, p as int, 2);
            lemma_div_denominator(v as int, p as int, 2);
            lemma_bits_to_nat_push(open_bits(r@), bit.value());
            assert(open_bits(r@.push(bit)) =~= open_bits(r@).push(bit.value()));
            assert(p * 2 == pow2((i + 1) as nat));
            let d = ((v as nat) / p) % 2;
            assert(bit.value() == (d == 1));
            if d == 1 {
                assert(p * d == p);
            } else {
                assert(p * d == 0);
            }
        }
        r.push(bit);
        rest = rest / 2;
        i += 1;
    }
    r
}

/// `v` (cut to `n` digits) split into three shares with the masks `m1` and `m2`.
pub fn share_bits(v: u64, n: usize, m1: u64, m2: u64) -> (r: Vec<SharedBit>)
    ensures
        r@.len() == n,
        wf_bits(r@),
        shared_value(r@) == (v as nat) % pow2(n as nat),
{
    let t = truncate_from(v, n);
    let mut r: Vec<SharedBit> = Vec::new();
    let mut i: usize = 0;
    while i < n
        invariant
            t@.len() == n,
            wf_bits(t@),
            i <= n,
            r@.len() == i,
            wf_bits(r@),
            forall|j: int| 0 <= j < i ==> #[trigger] r@[j].value() == t@[j].value(),
        decreases n - i,
    {
        let a = (m1 >> (i as u64 % 64)) & 1 == 1;
        let b = (m2 >> (i as u64 % 64)) & 1 == 1;
        let mask = SharedBit {
            h1: BitShare { left: a, right: b },
            h2: BitShare { left: b, right: a != b },
            h3: BitShare { left: a != b, right: a },
        };
        r.push(t[i].xor(&mask));
        i += 1;
    }
    proof {
        assert(open_bits(r@) =~= open_bits(t@));
    }
    r
}

/// The bits that shares of an array stand for, least significant first, as a number.
pub fn reconstruct_bits(s: &Vec<SharedBit>) -> (r: u64)
    requires
        s@.len() <= 64,
        wf_bits(s@),
    ensures
        r as nat == shared_value(s@),
{
    let mut r: u64 = 0;
    let mut w: u64 = 1;
    let mut i: usize = 0;
    proof {
        lemma_pow2_pos(0);
        vstd::arithmetic::power2::lemma2_to64();
        assert(open_bits(s@).take(0).len() == 0);
    }
    while i < s.len()
        invariant
            s@.len() <= 64,
            i <= s@.len(),
            i < 64 ==> w as nat == pow2(i as nat),
            r as nat == bits_to_nat(open_bits(s@).take(i as int)),
            r as nat <= pow2(i as nat) - 1,
        decreases s@.len() - i,
    {
        let ghost bs = open_bits(s@);
        proof {
            lemma_bits_to_nat_push(bs.take(i as int), bs[i as int]);
            assert(bs.take(i + 1) =~= bs.take(i as int).push(bs[i as int]));
            lemma_pow2_unfold((i + 1) as nat);
            vstd::arithmetic::power2::lemma2_to64();
            if i + 1 < 64 {
                lemma_pow2_strictly_increases((i + 1) as nat, 64);
            }
            assert(pow2((i + 1) as nat) <= 0x1_0000_0000_0000_0000);
            if i < 63 {
                lemma_pow2_strictly_increases(i as nat, 63);
            }
        }
        if s[i].reconstruct() {
            r = r + w;
        }
        if i < 63 {
            w = w * 2;
        }
        i += 1;
    }
    proof {
        assert(open_bits(s@).take(s@.len() as int) =~= open_bits(s@));
    }
    r
}

/// A copy of an array of shares.
pub fn copy_bits(a: &Vec<SharedBit>) -> (r: Vec<SharedBit>)
    ensures
        r@ == a@,
{
    let mut r: Vec<SharedBit> = Vec::new();
    let mut i: usize = 0;
    while i < a.len()
        invariant
            i <= a@.len(),
            r@ == a@.subrange(0, i as int),
        decreases a@.len() - i,
    {
        r.push(a[i]);
        i += 1;
        proof {
            assert(r@ =~= a@.subrange(0, i as int));
        }
    }
    proof {
        assert(r@ =~= a@);
    }
    r
}

} // verus!
