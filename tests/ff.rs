use ipa_core::ff::{Error, FieldShare, Fp32BitPrime, SharedField, PRIME};

#[test]
fn field_element_bounds() {
    assert!(Fp32BitPrime::try_from_u128(u128::from(PRIME) - 1).is_ok());
    assert!(matches!(Fp32BitPrime::try_from_u128(u128::from(PRIME)), Err(Error::UnknownField { .. })));
    assert_eq!(Fp32BitPrime::truncate_from(u128::from(PRIME) + 9).as_u128(), 9);
}

#[test]
fn field_element_round_trip() {
    let e = Fp32BitPrime::try_from_u128(0x1234_5678).unwrap();
    let bytes = e.serialize();
    assert_eq!(bytes, [0x78, 0x56, 0x34, 0x12]);
    assert_eq!(Fp32BitPrime::deserialize(&bytes).unwrap(), e);
    assert!(Fp32BitPrime::deserialize(&[0xff, 0xff, 0xff, 0xff]).is_err());
}

#[test]
fn field_share_arithmetic() {
    let a = SharedField::share_known_value(PRIME as u32 - 1);
    let b = SharedField::share_known_value(3);
    assert_eq!(a.plus(&b).reconstruct(), 2);
    assert_eq!(b.minus(&a).reconstruct(), 4);
    assert_eq!(b.scale(5).reconstruct(), 15);
}

#[test]
fn field_share_round_trip() {
    let x = SharedField::share_known_value(123_456_789).plus(&SharedField::share_known_value(PRIME as u32 - 2));
    let back = SharedField {
        h1: FieldShare::deserialize(&x.h1.serialize()).unwrap(),
        h2: FieldShare::deserialize(&x.h2.serialize()).unwrap(),
        h3: FieldShare::deserialize(&x.h3.serialize()).unwrap(),
    };
    assert_eq!(back, x);
    assert_eq!(back.reconstruct(), 123_456_787);
    assert!(FieldShare::deserialize(&[0xff; 8]).is_err());
}
