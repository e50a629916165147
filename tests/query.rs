use ipa_core::attribution::{BitWidths, PrfShardedIpaInputRow};
use ipa_core::context::{Context, PrssSeeds};
use ipa_core::error::Error;
use ipa_core::query::{row_from_helper_bytes, saturating_sum_bits, IpaQueryConfig, OprfIpaQuery};
use ipa_core::share::{reconstruct_bits, share_bits, SharedBit};

fn widths() -> BitWidths {
    BitWidths { breakdown_key: 8, trigger_value: 3, timestamp: 20, saturating_sum: 5 }
}

fn row(n: u64, key: u64, is_trigger: bool, bk: u64, tv: u64, ts: u64) -> PrfShardedIpaInputRow {
    let w = widths();
    let m = n.wrapping_mul(0x2545_F491_4F6C_DD1D);
    PrfShardedIpaInputRow {
        prf_of_match_key: key,
        is_trigger_bit: share_bits(is_trigger as u64, 1, m, m >> 9)[0],
        breakdown_key: share_bits(bk, w.breakdown_key, m >> 3, m >> 11),
        trigger_value: share_bits(tv, w.trigger_value, m >> 5, m >> 13),
        timestamp: share_bits(ts, w.timestamp, m >> 17, m >> 23),
    }
}

fn config(cap: u32, window: Option<u32>) -> IpaQueryConfig {
    IpaQueryConfig { per_user_credit_cap: cap, attribution_window_seconds: window, plaintext_match_keys: true }
}

fn input() -> Vec<PrfShardedIpaInputRow> {
    vec![
        row(1, 123, false, 17, 0, 0),
        row(2, 123, true, 0, 7, 0),
        row(3, 123, false, 20, 0, 0),
        row(4, 123, true, 0, 3, 0),
        row(5, 234, false, 12, 0, 0),
        row(6, 234, true, 0, 5, 0),
        row(7, 345, false, 20, 0, 0),
        row(8, 345, true, 0, 7, 0),
        row(9, 345, false, 18, 0, 0),
        row(10, 345, false, 12, 0, 0),
        row(11, 345, true, 0, 7, 0),
        row(12, 345, true, 0, 7, 0),
        row(13, 345, true, 0, 7, 0),
        row(14, 345, true, 0, 7, 0),
    ]
}

fn ctx() -> Context {
    Context::new(PrssSeeds { h1_h2: 1, h2_h3: 2, h3_h1: 3 }, 8)
}

#[test]
fn cap_widths() {
    assert_eq!(saturating_sum_bits(8), Some(3));
    assert_eq!(saturating_sum_bits(32), Some(5));
    assert_eq!(saturating_sum_bits(128), Some(7));
    assert_eq!(saturating_sum_bits(20), None);
}

#[test]
fn unsupported_cap_is_refused() {
    let q = OprfIpaQuery::new(config(20, None));
    assert_eq!(q.execute(&ctx(), input(), 14).err(), Some(Error::ConfigInvalid));
    let q = OprfIpaQuery::new(config(32, Some(0)));
    assert_eq!(q.execute(&ctx(), input(), 14).err(), Some(Error::ConfigInvalid));
    let mut c = config(32, None);
    c.plaintext_match_keys = false;
    assert_eq!(OprfIpaQuery::new(c).execute(&ctx(), input(), 14).err(), Some(Error::ConfigInvalid));
}

#[test]
fn query_runs_the_pipeline() {
    let q = OprfIpaQuery::new(config(32, None));
    assert_eq!(q.config(), config(32, None));
    let sums: Vec<u32> = q.execute(&ctx(), input(), 14).unwrap().iter().map(|s| s.reconstruct()).collect();
    let mut expected = vec![0_u32; 256];
    expected[12] = 30;
    expected[17] = 7;
    expected[20] = 10;
    assert_eq!(sums, expected);
}

#[test]
fn query_with_smaller_cap_and_truncation() {
    let q = OprfIpaQuery::new(config(8, None));
    let sums: Vec<u32> = q.execute(&ctx(), input(), 12).unwrap().iter().map(|s| s.reconstruct()).collect();
    let mut expected = vec![0_u32; 256];
    // A cap of 8: user 123 credits 7, then 1 of its 3; user 345 credits 7, then 1 of its 7.
    expected[12] = 5 + 1;
    expected[17] = 7;
    expected[20] = 1 + 7;
    assert_eq!(sums, expected);
}

#[test]
fn malformed_row_is_refused() {
    let mut rows = input();
    rows[3].trigger_value.pop();
    let q = OprfIpaQuery::new(config(32, None));
    assert_eq!(q.execute(&ctx(), rows, 14).err(), Some(Error::ProtocolFailure));
}

fn bits_bytes(bits: &[bool], out: &mut Vec<u8>) {
    let mut bytes = vec![0_u8; (bits.len() + 7) / 8];
    for (j, b) in bits.iter().enumerate() {
        if *b {
            bytes[j / 8] |= 1 << (j % 8);
        }
    }
    out.extend(bytes);
}

fn helper_bytes(r: &PrfShardedIpaInputRow, pick: fn(&SharedBit) -> (bool, bool)) -> Vec<u8> {
    let mut out = r.prf_of_match_key.to_le_bytes().to_vec();
    let (l, rt) = pick(&r.is_trigger_bit);
    out.push(l as u8 | (rt as u8) << 1);
    for field in [&r.breakdown_key, &r.trigger_value, &r.timestamp] {
        let lefts: Vec<bool> = field.iter().map(|b| pick(b).0).collect();
        let rights: Vec<bool> = field.iter().map(|b| pick(b).1).collect();
        bits_bytes(&lefts, &mut out);
        bits_bytes(&rights, &mut out);
    }
    out
}

#[test]
fn row_round_trips_through_helper_bytes() {
    let r = row(77, 0x0102_0304_0506_0708, true, 201, 6, 654_321);
    let b1 = helper_bytes(&r, |b| (b.h1.left, b.h1.right));
    let b2 = helper_bytes(&r, |b| (b.h2.left, b.h2.right));
    let b3 = helper_bytes(&r, |b| (b.h3.left, b.h3.right));
    assert_eq!(b1.len(), 19);
    let parsed = row_from_helper_bytes(&b1, &b2, &b3, &widths()).unwrap();
    assert_eq!(parsed.prf_of_match_key, 0x0102_0304_0506_0708);
    assert!(parsed.is_trigger_bit.reconstruct());
    assert_eq!(reconstruct_bits(&parsed.breakdown_key), 201);
    assert_eq!(reconstruct_bits(&parsed.trigger_value), 6);
    assert_eq!(reconstruct_bits(&parsed.timestamp), 654_321);
    let mut bad = b2.clone();
    bad[9] ^= 1;
    assert_eq!(row_from_helper_bytes(&b1, &bad, &b3, &widths()).err(), Some(Error::ProtocolFailure));
    assert_eq!(row_from_helper_bytes(&b1, &b2[..18].to_vec(), &b3, &widths()).err(), Some(Error::ProtocolFailure));
}
