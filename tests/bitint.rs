use bitint::{checked_limb_plan, limb_plan, u1024, u2048, u24, u256, u4096, u48, u512, u80};

#[test]
fn test() {
    assert_eq!(u24::from(5) + u24::from(251), u24::from(256));
    assert_eq!(u24::from(257) - u24::from(251), u24::from(6));
    assert_eq!(u128::from(u24::from(257)), 257);
}

#[test]
fn plans_follow_greedy_largest_limb() {
    assert_eq!(limb_plan(24), vec![16, 8]);
    assert_eq!(limb_plan(80), vec![64, 16]);
    assert_eq!(limb_plan(48), vec![32, 16]);
    assert_eq!(limb_plan(256), vec![128, 128]);
    assert_eq!(limb_plan(8), vec![8]);
    assert_eq!(limb_plan(248), vec![128, 64, 32, 16, 8]);
}

#[test]
fn plans_sum_to_their_width() {
    let mut bits: u32 = 8;
    while bits <= 4096 {
        let plan = limb_plan(bits);
        assert_eq!(plan.iter().sum::<u32>(), bits);
        assert!(plan.iter().all(|w| [8, 16, 32, 64, 128].contains(w)));
        bits += 8;
    }
}

#[test]
fn widths_are_reported() {
    assert_eq!(u24::bits(), 24);
    assert_eq!(u48::bits(), 48);
    assert_eq!(u80::bits(), 80);
    assert_eq!(u256::bits(), 256);
    assert_eq!(u512::bits(), 512);
    assert_eq!(u1024::bits(), 1024);
    assert_eq!(u2048::bits(), 2048);
    assert_eq!(u4096::bits(), 4096);
}

#[test]
fn carry_crosses_limbs() {
    let (sum, carried) = u24::from(5).overflowing_add(&u24::from(251));
    assert_eq!(sum, u24::from(256));
    assert!(!carried);
    assert_eq!(u24::from(256).to_le_bytes(), vec![0, 1, 0]);
}

#[test]
fn borrow_crosses_limbs() {
    let (diff, borrowed) = u24::from(257).overflowing_sub(&u24::from(251));
    assert_eq!(diff, u24::from(6));
    assert!(!borrowed);
}

#[test]
fn max_plus_one_overflows_to_min_80() {
    let (sum, carried) = u80::max_value().overflowing_add(&u80::from(1));
    assert_eq!(sum, u80::min_value());
    assert!(carried);
}

#[test]
fn min_plus_one_is_one_and_max_plus_one_overflows_at_every_width() {
    assert_eq!(u24::min_value() + u24::from(1), u24::from(1));
    assert!(u24::max_value().overflowing_add(&u24::from(1)).1);
    assert_eq!(u48::min_value() + u48::from(1), u48::from(1));
    assert!(u48::max_value().overflowing_add(&u48::from(1)).1);
    assert_eq!(u80::min_value() + u80::from(1), u80::from(1));
    assert!(u80::max_value().overflowing_add(&u80::from(1)).1);
    assert_eq!(u256::min_value() + u256::from(1), u256::from(1));
    assert!(u256::max_value().overflowing_add(&u256::from(1)).1);
    assert_eq!(u512::min_value() + u512::from(1), u512::from(1));
    assert!(u512::max_value().overflowing_add(&u512::from(1)).1);
    assert_eq!(u1024::min_value() + u1024::from(1), u1024::from(1));
    assert!(u1024::max_value().overflowing_add(&u1024::from(1)).1);
    assert_eq!(u2048::min_value() + u2048::from(1), u2048::from(1));
    assert!(u2048::max_value().overflowing_add(&u2048::from(1)).1);
    assert_eq!(u4096::min_value() + u4096::from(1), u4096::from(1));
    assert!(u4096::max_value().overflowing_add(&u4096::from(1)).1);
}

#[test]
fn max_has_every_byte_set() {
    assert_eq!(u24::max_value().to_le_bytes(), vec![0xff; 3]);
    assert_eq!(u80::max_value().to_le_bytes(), vec![0xff; 10]);
    assert_eq!(u128::from(u24::max_value()), 0xff_ffff);
}

#[test]
fn add_then_sub_gives_back() {
    let x = u80::from(0x1234_5678_9abc_def0_u64);
    let y = u80::from(0xffff_0000_ffff_0000_u64);
    let (s, o) = x.overflowing_add(&y);
    assert!(!o);
    assert_eq!(s.overflowing_sub(&y), (x, false));
}

#[test]
fn sub_below_zero_wraps() {
    let (d, borrowed) = u24::from(0).overflowing_sub(&u24::from(1));
    assert!(borrowed);
    assert_eq!(d, u24::max_value());
    let (d, borrowed) = u48::from(1).overflowing_sub(&u48::from(3));
    assert!(borrowed);
    assert_eq!(u128::from(d), (1u128 << 48) - 2);
}

#[test]
fn multiplication() {
    assert_eq!(u24::from(7) * u24::from(6), u24::from(42));
    assert_eq!(u80::from(1000) * u80::from(1000), u80::from(1_000_000));
    let (p, o) = u24::max_value().overflowing_mul(&u24::from(2));
    assert!(o);
    assert_eq!(u128::from(p), 0xff_fffe);
    let (p, o) = u24::from(0x1000).overflowing_mul(&u24::from(0x1000));
    assert!(o);
    assert_eq!(p, u24::from(0));
    assert_eq!(u24::from(123).overflowing_mul(&u24::from(0)), (u24::from(0), false));
}

#[test]
fn division() {
    assert_eq!(u24::from(10) / u24::from(3), u24::from(3));
    assert_eq!(u24::from(10) % u24::from(3), u24::from(1));
    assert_eq!(u80::from(1000) / u80::from(7), u80::from(142));
    assert_eq!(u80::from(1000) % u80::from(7), u80::from(6));
    assert_eq!(u24::from(2) / u24::from(5), u24::from(0));
    assert_eq!(u24::from(10).overflowing_div(&u24::from(3)), (u24::from(3), false));
    assert_eq!(u24::from(10).overflowing_rem(&u24::from(3)), (u24::from(1), false));
}

#[test]
fn division_by_zero_is_rejected() {
    assert_eq!(u24::from(10).checked_div(&u24::from(0)), None);
    assert_eq!(u24::from(10).checked_rem(&u24::from(0)), None);
    assert_eq!(u24::from(10).checked_div(&u24::from(3)), Some(u24::from(3)));
    assert_eq!(u24::from(10).checked_rem(&u24::from(3)), Some(u24::from(1)));
}

#[test]
fn le_bytes_round_trip() {
    let x = u80::from(0x0102_0304_0506_0708_090a_u128);
    let le = x.to_le_bytes();
    assert_eq!(le, vec![0x0a, 0x09, 0x08, 0x07, 0x06, 0x05, 0x04, 0x03, 0x02, 0x01]);
    assert_eq!(u80::from_le_bytes(&le), x);
    let y = u24::from(0x00ab_cdef);
    assert_eq!(u24::from_le_bytes(&y.to_le_bytes()), y);
    let z = u256::max_value() - u256::from(12345);
    assert_eq!(u256::from_le_bytes(&z.to_le_bytes()), z);
}

#[test]
fn be_bytes_are_reversed_le_bytes() {
    let x = u48::from(0x0102_0304_0506_u64);
    let mut le = x.to_le_bytes();
    le.reverse();
    assert_eq!(x.to_be_bytes(), le);
    assert_eq!(x.to_be_bytes(), vec![1, 2, 3, 4, 5, 6]);
    assert_eq!(u48::from_be_bytes(&x.to_be_bytes()), x);
}

#[test]
fn ne_bytes_follow_the_platform() {
    let x = u24::from(0x0001_0203);
    let ne = x.to_ne_bytes();
    if 1u16.to_ne_bytes()[0] == 1 {
        assert_eq!(ne, vec![3, 2, 1]);
    } else {
        assert_eq!(ne, vec![1, 2, 3]);
    }
    assert_eq!(u24::from_ne_bytes(&ne), x);
}

#[test]
fn narrowing_conversions_truncate() {
    assert_eq!(u24::from(0x0100_0005_u32), u24::from(5));
    assert_eq!(u8::from(u24::from(257)), 1);
    assert_eq!(u16::from(u24::from(0x01_2345)), 0x2345);
    assert_eq!(u32::from(u80::from(0x1_0000_0002_u64)), 2);
    assert_eq!(u64::from(u80::max_value()), u64::MAX);
    let big = u256::max_value();
    assert_eq!(u128::from(big), u128::MAX);
}

#[test]
fn signed_conversions() {
    assert_eq!(u24::from(-1i8), u24::max_value());
    assert_eq!(u24::from(-2i32), u24::max_value() - u24::from(1));
    assert_eq!(i8::from(u24::from(0xff)), -1);
    assert_eq!(i16::from(u24::from(300)), 300);
    assert_eq!(i32::from(u24::max_value()), 0xff_ffff);
    assert_eq!(i64::from(u80::from(7)), 7);
    assert_eq!(i128::from(u256::max_value()), -1);
    assert_eq!(u128::from(u256::from(-1i64)), u128::MAX);
    assert_eq!(u256::from(5i16), u256::from(5));
}

#[test]
fn wide_values_keep_low_bits() {
    assert_eq!(u128::from(u256::from(u128::MAX)), u128::MAX);
    assert_eq!(u256::from(u128::MAX) + u256::from(1) > u256::from(u128::MAX), true);
    let two_128 = u256::from(u128::MAX) + u256::from(1);
    assert_eq!(two_128.to_u128(), 0);
    assert_eq!(two_128.to_le_bytes()[16], 1);
}

#[test]
fn default_is_zero_and_order_is_numeric() {
    assert_eq!(u80::default(), u80::min_value());
    assert!(u24::from(3) < u24::from(300));
    assert!(u24::from(0x1_0000) > u24::from(0xffff));
    assert!(u80::max_value() > u80::from(u64::MAX));
    assert_eq!(u24::from(9).clone(), u24::from(9));
    assert_ne!(u24::from(9), u24::from(10));
}

#[test]
fn wide_multiplication_and_division() {
    let x = u256::from(u128::MAX);
    let sq = x.clone() * x.clone();
    let mut expected = vec![0u8; 32];
    expected[0] = 1;
    expected[16] = 0xfe;
    for b in expected.iter_mut().skip(17) {
        *b = 0xff;
    }
    assert_eq!(sq.to_le_bytes(), expected);
    assert_eq!(sq.clone() / x.clone(), x.clone());
    assert_eq!(sq % x, u256::from(0));
    let (_, o) = u256::max_value().overflowing_mul(&u256::from(2));
    assert!(o);
}

#[test]
fn division_identity_at_4096_bits() {
    let n = u4096::max_value();
    let d = u4096::from(0xdead_beef_u64);
    let q = n.clone() / d.clone();
    let r = n.clone() % d.clone();
    assert!(r < d);
    assert_eq!(q * d + r, n);
    assert_eq!(u4096::max_value() / u4096::max_value(), u4096::from(1));
    assert_eq!(u4096::max_value() % u4096::from(2), u4096::from(1));
}

#[test]
fn invalid_widths_are_refused() {
    assert_eq!(checked_limb_plan(0), None);
    assert_eq!(checked_limb_plan(12), None);
    assert_eq!(checked_limb_plan(4097), None);
    assert_eq!(checked_limb_plan(24), Some(vec![16, 8]));
    assert_eq!(checked_limb_plan(80), Some(vec![64, 16]));
}

#[test]
fn values_sort_numerically() {
    let mut v = vec![u48::from(70000), u48::from(3), u48::from(65535), u48::from(256)];
    v.sort();
    assert_eq!(v, vec![u48::from(3), u48::from(256), u48::from(65535), u48::from(70000)]);
    assert_eq!(u24::from(5).max(u24::from(9)), u24::from(9));
}
