//! A query: its configuration, and the run of the pipeline that it selects.
use crate::attribution::{BitWidths, PrfShardedIpaInputRow};
use crate::share::{BitShare, SharedBit};
use crate::context::Context;
use crate::error::Error;
use crate::ff::SharedField;
use crate::prf_sharding::{
    attribute_cap_aggregate, clear_rows, compute_histogram_of_users_with_row_count, is_aggregate_of,
};
use vstd::prelude::*;

verus! {

/// What a query asks for.
#[derive(Clone, Copy, Debug, PartialEq, Eq, Structural)]
pub struct IpaQueryConfig {
    /// The most a user may contribute: one of 8, 16, 32, 64 and 128.
    pub per_user_credit_cap: u32,
    /// How long after a source event a trigger is still credited to it, if there is a limit.
    pub attribution_window_seconds: Option<u32>,
    /// Whether match keys arrive in the clear.
    pub plaintext_match_keys: bool,
}

/// The width of the saturating sum for a cap, if the cap is supported.
pub open spec fn cap_bits(cap: u32) -> Option<usize> {
    if cap == 8 {
        Some(3)
    } else if cap == 16 {
        Some(4)
    } else if cap == 32 {
        Some(5)
    } else if cap == 64 {
        Some(6)
    } else if cap == 128 {
        Some(7)
    } else {
        None
    }
}

/// A configuration the pipeline runs: a supported cap, match keys in the clear, and a
/// positive window if there is one.
pub open spec fn config_valid(c: IpaQueryConfig) -> bool {
    &&& cap_bits(c.per_user_credit_cap).is_some()
    &&& c.plaintext_match_keys
    &&& match c.attribution_window_seconds {
        Some(w) => w > 0,
        None => true,
    }
}

/// The widths for a cap: 8-bit breakdown keys, 3-bit trigger values, 20-bit timestamps.
pub open spec fn query_widths(ss: usize) -> BitWidths {
    BitWidths { breakdown_key: 8, trigger_value: 3, timestamp: 20, saturating_sum: ss }
}

/// The first `n` rows, or all of them if there are fewer.
pub open spec fn truncated<T>(s: Seq<T>, n: usize) -> Seq<T> {
    if n < s.len() {
        s.subrange(0, n as int)
    } else {
        s
    }
}

/// The saturating-sum width for a cap, if the cap is supported.
pub fn saturating_sum_bits(cap: u32) -> (r: Option<usize>)
    ensures
        r == cap_bits(cap),
{
    match cap {
        8 => Some(3),
        16 => Some(4),
        32 => Some(5),
        64 => Some(6),
        128 => Some(7),
        _ => None,
    }
}

/// Bytes that one share of an `n`-bit value takes: `ceil(n / 8)`.
pub open spec fn share_width(n: nat) -> nat {
    (n + 7) / 8
}

/// Bit `j` of the little-endian bit array that starts at byte `off` of `b`.
pub open spec fn bit_of_bytes(b: Seq<u8>, off: int, j: int) -> bool {
    ((b[off + j / 8] >> ((j % 8) as u8)) & 1u8) == 1u8
}

/// The number whose eight bytes, least significant first, start `b`.
pub open spec fn le_u64(b: Seq<u8>) -> nat {
    (b[0] + b[1] * 0x100 + b[2] * 0x1_0000 + b[3] * 0x100_0000 + b[4] * 0x1_0000_0000 + b[5]
        * 0x100_0000_0000 + b[6] * 0x1_0000_0000_0000 + b[7] * 0x100_0000_0000_0000) as nat
}

/// Where each field of one helper's serialized row starts: the grouping key (eight bytes),
/// the trigger bit (one byte, its left share in bit 0 and its right share in bit 1), then the
/// breakdown key, the trigger value and the timestamp, each as its left share then its right.
pub open spec fn field_offset(w: BitWidths, field: nat) -> nat {
    let bk = share_width(w.breakdown_key as nat);
    let tv = share_width(w.trigger_value as nat);
    if field == 0 {
        9
    } else if field == 1 {
        9 + 2 * bk
    } else {
        9 + 2 * bk + 2 * tv
    }
}

/// The length of one helper's serialized row.
pub open spec fn row_bytes(w: BitWidths) -> nat {
    field_offset(w, 2) + 2 * share_width(w.timestamp as nat)
}

/// The shared bits of an `n`-bit field whose shares start at `off` in each helper's bytes.
pub open spec fn field_matches(
    bits: Seq<SharedBit>,
    h1: Seq<u8>,
    h2: Seq<u8>,
    h3: Seq<u8>,
    off: nat,
    n: nat,
) -> bool {
    let r = off + share_width(n);
    &&& bits.len() == n
    &&& forall|j: int|
        0 <= j < n ==> {
            &&& (#[trigger] bits[j]).h1.left == bit_of_bytes(h1, off as int, j)
            &&& bits[j].h1.right == bit_of_bytes(h1, r as int, j)
            &&& bits[j].h2.left == bit_of_bytes(h2, off as int, j)
            &&& bits[j].h2.right == bit_of_bytes(h2, r as int, j)
            &&& bits[j].h3.left == bit_of_bytes(h3, off as int, j)
            &&& bits[j].h3.right == bit_of_bytes(h3, r as int, j)
        }
}

/// In an `n`-bit field at `off`, each helper's right share is its right neighbour's left share.
pub open spec fn field_agrees(h1: Seq<u8>, h2: Seq<u8>, h3: Seq<u8>, off: nat, n: nat) -> bool {
    let r = off + share_width(n);
    forall|j: int|
        0 <= j < n ==> {
            &&& #[trigger] bit_of_bytes(h1, r as int, j) == bit_of_bytes(h2, off as int, j)
            &&& bit_of_bytes(h2, r as int, j) == bit_of_bytes(h3, off as int, j)
            &&& bit_of_bytes(h3, r as int, j) == bit_of_bytes(h1, off as int, j)
        }
}

/// Three helpers' serialized shares of one row fit together: the row's length, one grouping
/// key, and neighbouring shares that agree.
pub open spec fn row_fits(h1: Seq<u8>, h2: Seq<u8>, h3: Seq<u8>, w: BitWidths) -> bool {
    &&& h1.len() == row_bytes(w) && h2.len() == row_bytes(w) && h3.len() == row_bytes(w)
    &&& le_u64(h1) == le_u64(h2) && le_u64(h2) == le_u64(h3)
    &&& bit_of_bytes(h1, 8, 1) == bit_of_bytes(h2, 8, 0)
    &&& bit_of_bytes(h2, 8, 1) == bit_of_bytes(h3, 8, 0)
    &&& bit_of_bytes(h3, 8, 1) == bit_of_bytes(h1, 8, 0)
    &&& field_agrees(h1, h2, h3, field_offset(w, 0), w.breakdown_key as nat)
    &&& field_agrees(h1, h2, h3, field_offset(w, 1), w.trigger_value as nat)
    &&& field_agrees(h1, h2, h3, field_offset(w, 2), w.timestamp as nat)
}

/// `row` holds exactly the shares that the three helpers' bytes of it give: the grouping key,
/// the trigger bit and every bit of the three fields.
pub open spec fn row_matches(row: PrfShardedIpaInputRow, h1: Seq<u8>, h2: Seq<u8>, h3: Seq<u8>, w: BitWidths) -> bool {
    &&& row.prf_of_match_key == le_u64(h1)
    &&& row.is_trigger_bit.h1 == BitShare { left: bit_of_bytes(h1, 8, 0), right: bit_of_bytes(h1, 8, 1) }
    &&& row.is_trigger_bit.h2 == BitShare { left: bit_of_bytes(h2, 8, 0), right: bit_of_bytes(h2, 8, 1) }
    &&& row.is_trigger_bit.h3 == BitShare { left: bit_of_bytes(h3, 8, 0), right: bit_of_bytes(h3, 8, 1) }
    &&& field_matches(row.breakdown_key@, h1, h2, h3, field_offset(w, 0), w.breakdown_key as nat)
    &&& field_matches(row.trigger_value@, h1, h2, h3, field_offset(w, 1), w.trigger_value as nat)
    &&& field_matches(row.timestamp@, h1, h2, h3, field_offset(w, 2), w.timestamp as nat)
}

/// Bits `off * 8 ..` of `buf`, `n` of them, least significant bit of each byte first.
fn read_bits(buf: &Vec<u8>, off: usize, n: usize) -> (r: Vec<bool>)
    requires
        n <= 64,
        off + share_width(n as nat) <= buf@.len(),
    ensures
        r@.len() == n,
        forall|j: int| 0 <= j < n ==> #[trigger] r@[j] == bit_of_bytes(buf@, off as int, j),
{
    let mut r: Vec<bool> = Vec::new();
    let mut j: usize = 0;
    let total = buf.len();
    while j < n
        invariant
            total == buf@.len(),
            n <= 64,
            off + share_width(n as nat) <= buf@.len(),
            j <= n,
            r@.len() == j,
            forall|k: int| 0 <= k < j ==> #[trigger] r@[k] == bit_of_bytes(buf@, off as int, k),
        decreases n - j,
    {
        assert(j / 8 < share_width(n as nat));
        let byte = buf[off + j / 8];
        r.push(((byte >> ((j % 8) as u8)) & 1u8) == 1u8);
        j += 1;
    }
    r
}

/// Puts together the three helpers' shares of one field.
fn field_from_bytes(h1: &Vec<u8>, h2: &Vec<u8>, h3: &Vec<u8>, off: usize, n: usize) -> (r: Vec<
    SharedBit,
>)
    requires
        n <= 64,
        off + 2 * share_width(n as nat) <= h1@.len(),
        off + 2 * share_width(n as nat) <= h2@.len(),
        off + 2 * share_width(n as nat) <= h3@.len(),
    ensures
        field_matches(r@, h1@, h2@, h3@, off as nat, n as nat),
{
    let nb = (n + 7) / 8;
    // The buffer fits in memory, so offsets within it fit in `usize`.
    let _buffer_len = h1.len();
    let l1 = read_bits(h1, off, n);
    let r1 = read_bits(h1, off + nb, n);
    let l2 = read_bits(h2, off, n);
    let r2 = read_bits(h2, off + nb, n);
    let l3 = read_bits(h3, off, n);
    let r3 = read_bits(h3, off + nb, n);
    let mut bits: Vec<SharedBit> = Vec::new();
    let mut j: usize = 0;
    while j < n
        invariant
            nb == share_width(n as nat),
            l1@.len() == n && r1@.len() == n && l2@.len() == n,
            r2@.len() == n && l3@.len() == n && r3@.len() == n,
            forall|k: int| 0 <= k < n ==> #[trigger] l1@[k] == bit_of_bytes(h1@, off as int, k),
            forall|k: int| 0 <= k < n ==> #[trigger] r1@[k] == bit_of_bytes(h1@, off + nb, k),
            forall|k: int| 0 <= k < n ==> #[trigger] l2@[k] == bit_of_bytes(h2@, off as int, k),
            forall|k: int| 0 <= k < n ==> #[trigger] r2@[k] == bit_of_bytes(h2@, off + nb, k),
            forall|k: int| 0 <= k < n ==> #[trigger] l3@[k] == bit_of_bytes(h3@, off as int, k),
            forall|k: int| 0 <= k < n ==> #[trigger] r3@[k] == bit_of_bytes(h3@, off + nb, k),
            j <= n,
            bits@.len() == j,
            forall|k: int|
                0 <= k < j ==> {
                    &&& (#[trigger] bits@[k]).h1.left == l1@[k] && bits@[k].h1.right == r1@[k]
                    &&& bits@[k].h2.left == l2@[k] && bits@[k].h2.right == r2@[k]
                    &&& bits@[k].h3.left == l3@[k] && bits@[k].h3.right == r3@[k]
                },
        decreases n - j,
    {
        bits.push(
            SharedBit {
                h1: BitShare { left: l1[j], right: r1[j] },
                h2: BitShare { left: l2[j], right: r2[j] },
                h3: BitShare { left: l3[j], right: r3[j] },
            },
        );
        j += 1;
    }
    bits
}

/// The grouping key at the start of a helper's row.
fn read_key(b: &Vec<u8>) -> (r: u64)
    requires
        b@.len() >= 8,
    ensures
        r == le_u64(b@),
{
    b[0] as u64 + b[1] as u64 * 0x100 + b[2] as u64 * 0x1_0000 + b[3] as u64 * 0x100_0000 + b[4] as u64
        * 0x1_0000_0000 + b[5] as u64 * 0x100_0000_0000 + b[6] as u64 * 0x1_0000_0000_0000 + b[7] as u64
        * 0x100_0000_0000_0000
}

/// Puts together one input row from the three helpers' serialized shares of it. The buffers
/// must have the row's length and the same grouping key, and neighbouring helpers' shares must
/// agree; otherwise the row is refused as a protocol failure.
pub fn row_from_helper_bytes(h1: &Vec<u8>, h2: &Vec<u8>, h3: &Vec<u8>, w: &BitWidths) -> (r: Result<
    PrfShardedIpaInputRow,
    Error,
>)
    requires
        w.wf(),
    ensures
        match r {
            Ok(row) => {
                &&& h1@.len() == row_bytes(*w) && h2@.len() == row_bytes(*w) && h3@.len() == row_bytes(*w)
                &&& row.wf(*w)
                &&& le_u64(h1@) == le_u64(h2@) && le_u64(h2@) == le_u64(h3@)
                &&& row_matches(row, h1@, h2@, h3@, *w)
            },
            Err(e) => e == Error::ProtocolFailure && !row_fits(h1@, h2@, h3@, *w),
        },
{
    let bk = (w.breakdown_key + 7) / 8;
    let tv = (w.trigger_value + 7) / 8;
    let ts = (w.timestamp + 7) / 8;
    let len = 9 + 2 * bk + 2 * tv + 2 * ts;
    if h1.len() != len || h2.len() != len || h3.len() != len {
        return Err(Error::ProtocolFailure);
    }
    let key = read_key(h1);
    if read_key(h2) != key || read_key(h3) != key {
        return Err(Error::ProtocolFailure);
    }
    let t1 = read_bits(h1, 8, 2);
    let t2 = read_bits(h2, 8, 2);
    let t3 = read_bits(h3, 8, 2);
    let row = PrfShardedIpaInputRow {
        prf_of_match_key: key,
        is_trigger_bit: SharedBit {
            h1: BitShare { left: t1[0], right: t1[1] },
            h2: BitShare { left: t2[0], right: t2[1] },
            h3: BitShare { left: t3[0], right: t3[1] },
        },
        breakdown_key: field_from_bytes(h1, h2, h3, 9, w.breakdown_key),
        trigger_value: field_from_bytes(h1, h2, h3, 9 + 2 * bk, w.trigger_value),
        timestamp: field_from_bytes(h1, h2, h3, 9 + 2 * bk + 2 * tv, w.timestamp),
    };
    if !row.check(w) {
        proof {
            if row_fits(h1@, h2@, h3@, *w) {
                assert(row.is_trigger_bit.wf());
                assert forall|j: int| 0 <= j < row.breakdown_key@.len() implies (
                #[trigger] row.breakdown_key@[j]).wf() by {
                    assert(field_agrees(h1@, h2@, h3@, field_offset(*w, 0), w.breakdown_key as nat));
                    assert(bit_of_bytes(h1@, (field_offset(*w, 0) + share_width(w.breakdown_key as nat)) as int, j) == bit_of_bytes(h2@, field_offset(*w, 0) as int, j));
                }
                assert forall|j: int| 0 <= j < row.trigger_value@.len() implies (
                #[trigger] row.trigger_value@[j]).wf() by {
                    assert(bit_of_bytes(h1@, (field_offset(*w, 1) + share_width(w.trigger_value as nat)) as int, j) == bit_of_bytes(h2@, field_offset(*w, 1) as int, j));
                }
                assert forall|j: int| 0 <= j < row.timestamp@.len() implies (
                #[trigger] row.timestamp@[j]).wf() by {
                    assert(bit_of_bytes(h1@, (field_offset(*w, 2) + share_width(w.timestamp as nat)) as int, j) == bit_of_bytes(h2@, field_offset(*w, 2) as int, j));
                }
            }
        }
        return Err(Error::ProtocolFailure);
    }
    Ok(row)
}

/// Row `i` of a buffer of rows of `len` bytes each.
pub open spec fn row_chunk(b: Seq<u8>, i: int, len: nat) -> Seq<u8> {
    b.subrange(i * len, (i + 1) * len)
}

/// Three helpers' buffers hold the same whole number of rows, and each row fits together.
pub open spec fn rows_fit(h1: Seq<u8>, h2: Seq<u8>, h3: Seq<u8>, w: BitWidths) -> bool {
    let len = row_bytes(w);
    &&& h2.len() == h1.len() && h3.len() == h1.len()
    &&& (h1.len() as int) % (len as int) == 0
    &&& forall|i: int|
        0 <= i < (h1.len() as int) / (len as int) ==> #[trigger] row_fits(
            row_chunk(h1, i, len),
            row_chunk(h2, i, len),
            row_chunk(h3, i, len),
            w,
        )
}

/// The length of one helper's serialized row.
pub fn row_length(w: &BitWidths) -> (r: usize)
    requires
        w.wf(),
    ensures
        r == row_bytes(*w),
{
    9 + 2 * ((w.breakdown_key + 7) / 8) + 2 * ((w.trigger_value + 7) / 8) + 2 * ((w.timestamp + 7) / 8)
}

/// Bytes `start .. start + n` of `b`.
fn slice_copy(b: &Vec<u8>, start: usize, n: usize) -> (r: Vec<u8>)
    requires
        start + n <= b@.len(),
    ensures
        r@ == b@.subrange(start as int, start + n),
{
    let mut r: Vec<u8> = Vec::new();
    let mut i: usize = 0;
    let total = b.len();
    while i < n
        invariant
            total == b@.len(),
            start + n <= b@.len(),
            i <= n,
            r@ == b@.subrange(start as int, start + i),
        decreases n - i,
    {
        r.push(b[start + i]);
        i += 1;
        proof {
            assert(r@ =~= b@.subrange(start as int, start + i));
        }
    }
    r
}

/// All rows of a query's input from the three helpers' serialized shares: each buffer holds
/// the rows back to back, in one order. Buffers of different lengths, or of a length that is
/// not a whole number of rows, are refused, and so is any row that `row_from_helper_bytes`
/// refuses.
pub fn rows_from_helper_bytes(h1: &Vec<u8>, h2: &Vec<u8>, h3: &Vec<u8>, w: &BitWidths) -> (r: Result<
    Vec<PrfShardedIpaInputRow>,
    Error,
>)
    requires
        w.wf(),
    ensures
        match r {
            Ok(rows) => {
                &&& h1@.len() == rows@.len() * row_bytes(*w)
                &&& h2@.len() == h1@.len() && h3@.len() == h1@.len()
                &&& forall|i: int|
                    0 <= i < rows@.len() ==> {
                        &&& (#[trigger] rows@[i]).wf(*w)
                        &&& row_matches(
                            rows@[i],
                            row_chunk(h1@, i, row_bytes(*w)),
                            row_chunk(h2@, i, row_bytes(*w)),
                            row_chunk(h3@, i, row_bytes(*w)),
                            *w,
                        )
                    }
            },
            Err(e) => e == Error::ProtocolFailure && !rows_fit(h1@, h2@, h3@, *w),
        },
{
    let len = row_length(w);
    if h1.len() != h2.len() || h1.len() != h3.len() || h1.len() % len != 0 {
        return Err(Error::ProtocolFailure);
    }
    let n = h1.len() / len;
    let total = h1.len();
    proof {
        vstd::arithmetic::div_mod::lemma_fundamental_div_mod(h1@.len() as int, len as int);
        let t = h1@.len() as int;
        let l = len as int;
        assert(t == n * l) by (nonlinear_arith)
            requires
                t == l * (t / l) + t % l,
                t % l == 0,
                n == t / l,
        ;
    }
    let mut rows: Vec<PrfShardedIpaInputRow> = Vec::new();
    let mut i: usize = 0;
    while i < n
        invariant
            w.wf(),
            len == row_bytes(*w),
            len > 0,
            total == h1@.len(),
            n == h1@.len() / (len as nat),
            h1@.len() == n * len,
            h2@.len() == h1@.len() && h3@.len() == h1@.len(),
            i <= n,
            rows@.len() == i,
            forall|k: int|
                0 <= k < i ==> {
                    &&& (#[trigger] rows@[k]).wf(*w)
                    &&& row_matches(
                        rows@[k],
                        row_chunk(h1@, k, row_bytes(*w)),
                        row_chunk(h2@, k, row_bytes(*w)),
                        row_chunk(h3@, k, row_bytes(*w)),
                        *w,
                    )
                },
        decreases n - i,
    {
        proof {
            assert((i + 1) * len <= n * len) by (nonlinear_arith)
                requires
                    i < n,
            ;
            assert((i + 1) * len == i * len + len) by (nonlinear_arith);
            assert(i * len <= n * len) by (nonlinear_arith)
                requires
                    i <= n,
            ;
        }
        let start = i * len;
        let b1 = slice_copy(h1, start, len);
        let b2 = slice_copy(h2, start, len);
        let b3 = slice_copy(h3, start, len);
        proof {
            assert(b1@ == row_chunk(h1@, i as int, len as nat));
            assert(b2@ == row_chunk(h2@, i as int, len as nat));
            assert(b3@ == row_chunk(h3@, i as int, len as nat));
        }
        match row_from_helper_bytes(&b1, &b2, &b3, w) {
            Ok(row) => rows.push(row),
            Err(e) => {
                proof {
                    assert(b1@ == row_chunk(h1@, i as int, len as nat));
                    assert(b2@ == row_chunk(h2@, i as int, len as nat));
                    assert(b3@ == row_chunk(h3@, i as int, len as nat));
                    assert(!row_fits(b1@, b2@, b3@, *w));
                }
                return Err(e);
            },
        }
        i += 1;
    }
    Ok(rows)
}

/// A query of the attribute-cap-aggregate kind.
pub struct OprfIpaQuery {
    config: IpaQueryConfig,
}

impl OprfIpaQuery {
    pub closed spec fn spec_config(&self) -> IpaQueryConfig {
        self.config
    }

    pub fn new(config: IpaQueryConfig) -> (r: OprfIpaQuery)
        ensures
            r.spec_config() == config,
    {
        OprfIpaQuery { config }
    }

    pub fn config(&self) -> (r: IpaQueryConfig)
        ensures
            r == self.spec_config(),
    {
        self.config
    }

    /// Runs the query on the first `query_size` rows, which come grouped by user, oldest first.
    /// An unsupported configuration is refused, and so is a row whose shares do not have the
    /// query's widths or do not agree between neighbours.
    pub fn execute(
        &self,
        ctx: &Context,
        input_rows: Vec<PrfShardedIpaInputRow>,
        query_size: usize,
    ) -> (r: Result<Vec<SharedField>, Error>)
        requires
            ctx.wf(),
            input_rows@.len() <= u32::MAX,
        ensures
            ({
                let c = self.spec_config();
                let rows = truncated(input_rows@, query_size);
                match r {
                    Ok(sums) => config_valid(c) && (forall|i: int|
                        0 <= i < rows.len() ==> #[trigger] rows[i].wf(
                            query_widths(cap_bits(c.per_user_credit_cap).unwrap()),
                        )) && is_aggregate_of(
                        clear_rows(rows),
                        sums@,
                        query_widths(cap_bits(c.per_user_credit_cap).unwrap()),
                        c.attribution_window_seconds,
                    ),
                    Err(Error::ConfigInvalid) => !config_valid(c),
                    Err(Error::ProtocolFailure) => config_valid(c) && exists|i: int|
                        0 <= i < rows.len() && !(#[trigger] rows[i].wf(
                            query_widths(cap_bits(c.per_user_credit_cap).unwrap()),
                        )),
                    Err(_) => false,
                }
            }),
    {
        let config = self.config;
        let ss = match saturating_sum_bits(config.per_user_credit_cap) {
            Some(ss) => ss,
            None => return Err(Error::ConfigInvalid),
        };
        if !config.plaintext_match_keys {
            return Err(Error::ConfigInvalid);
        }
        if let Some(w) = config.attribution_window_seconds {
            if w == 0 {
                return Err(Error::ConfigInvalid);
            }
        }
        let w = BitWidths { breakdown_key: 8, trigger_value: 3, timestamp: 20, saturating_sum: ss };
        let ghost orig = input_rows@;
        let mut input = input_rows;
        input.truncate(query_size);
        proof {
            assert(w == query_widths(cap_bits(config.per_user_credit_cap).unwrap()));
            assert(input@ == truncated(orig, query_size));
        }
        let mut i: usize = 0;
        while i < input.len()
            invariant
                i <= input@.len(),
                forall|j: int| 0 <= j < i ==> (#[trigger] input@[j]).wf(w),
                config == self.spec_config(),
                config_valid(config),
                w == query_widths(cap_bits(config.per_user_credit_cap).unwrap()),
                input@ == truncated(orig, query_size),
                orig == input_rows@,
            decreases input@.len() - i,
        {
            if !input[i].check(&w) {
                proof {
                    assert(!truncated(orig, query_size)[i as int].wf(w));
                }
                return Err(Error::ProtocolFailure);
            }
            i += 1;
        }
        let histogram = compute_histogram_of_users_with_row_count(&input);
        match attribute_cap_aggregate(ctx, &input, config.attribution_window_seconds, &histogram, &w) {
            Ok(sums) => Ok(sums),
            Err(_) => Err(Error::InputInvariantViolated),
        }
    }
}

} // verus!
