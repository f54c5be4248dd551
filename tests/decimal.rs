use rpyutils::decimal::{mpd_to_bigendian, reduce_limbs, write_trimmed_bytes, Int256};

fn decode_value(bytes: &[u8], negative: bool) -> i256::i256 {
    let fill = if negative { 0xFF } else { 0x00 };
    let mut full = [fill; 32];
    let start = 32 - bytes.len();
    full[start..].copy_from_slice(bytes);
    i256::i256::from_be_bytes(full)
}

#[test]
fn reduces_positive_limbs() {
    let limbs = [12345usize];
    let mut out = [0xAAu8; 32];

    let written = mpd_to_bigendian(&limbs, 10, 0, false, &mut out).unwrap();

    assert_eq!(written, 2);
    assert_eq!(&out[..written], &[0x30, 0x39]);
    assert!(out[written..].iter().all(|b| *b == 0xAA));
}

#[test]
fn reduces_negative_limbs() {
    let limbs = [42usize];
    let mut out = [0xAAu8; 32];

    let written = mpd_to_bigendian(&limbs, 10, 0, true, &mut out).unwrap();

    assert_eq!(written, 2);
    assert_eq!(&out[..written], &[0xFF, 0xD6]);
    assert!(out[written..].iter().all(|b| *b == 0xAA));
}

#[test]
fn large_number() {
    let limbs = [1usize];
    let mut out = [0xAAu8; 32];

    let written = mpd_to_bigendian(&limbs, 10, 12, false, &mut out).unwrap();

    assert_eq!(written, 6);
    assert_eq!(&out[..written], &[0x00, 0xE8, 0xD4, 0xA5, 0x10, 0x00]);
    assert!(out[written..].iter().all(|b| *b == 0xAA));
}

#[test]
fn overflow_by_one() {
    // decimal representation of 2²⁵⁵
    let limbs = [
        8792003956564819968usize,
        3499233282028201972usize,
        7854925043439539266usize,
        7896044618658097711usize,
        5usize,
    ];
    let mut out = [0xAAu8; 32];

    let r = mpd_to_bigendian(&limbs, 10000000000000000000, 0, false, &mut out);
    assert!(r.is_none());
}

#[test]
fn underflow_by_one() {
    // decimal representation of 2²⁵⁵-2
    let limbs = [
        8792003956564819969usize,
        3499233282028201972usize,
        7854925043439539266usize,
        7896044618658097711usize,
        5usize,
    ];
    let mut out = [0xAAu8; 32];

    let r = mpd_to_bigendian(&limbs, 10000000000000000000, 0, true, &mut out);
    assert!(r.is_none());
}

#[test]
fn maximum_value() {
    // decimal representation of 2²⁵⁵-1
    let limbs = [
        8792003956564819967usize,
        3499233282028201972usize,
        7854925043439539266usize,
        7896044618658097711usize,
        5usize,
    ];
    let mut out = [0xAAu8; 32];

    let written = mpd_to_bigendian(&limbs, 10000000000000000000, 0, false, &mut out).unwrap();
    assert_eq!(written, 32);
    assert_eq!(out[0], 0x7F);
    assert!(out[1..].iter().all(|b| *b == 0xFF));
}

#[test]
fn minimum_value() {
    // decimal representation of -2²⁵⁵
    let limbs = [
        8792003956564819968usize,
        3499233282028201972usize,
        7854925043439539266usize,
        7896044618658097711usize,
        5usize,
    ];
    let mut out = [0xAAu8; 32];

    let written = mpd_to_bigendian(&limbs, 10000000000000000000, 0, true, &mut out).unwrap();
    assert_eq!(written, 32);
    assert_eq!(out[0], 0x80);
    assert!(out[1..].iter().all(|b| *b == 0x00));
}

#[test]
fn reduces_multiple_limbs_positive() {
    let radix = 1usize << 16;
    let limbs = [0x0123usize, 0x4567usize, 0x89ABusize];
    let mut out = [0xAAu8; 32];

    let written = mpd_to_bigendian(&limbs, radix, 0, false, &mut out).expect("conversion");

    assert_eq!(written, 7);
    let expected: [u8; 7] = [0x00, 0x89, 0xAB, 0x45, 0x67, 0x01, 0x23];
    assert_eq!(&out[..written], &expected);
    assert!(out[written..].iter().all(|b| *b == 0xAA));
}

#[test]
fn reduces_multiple_limbs_negative() {
    let radix = 1usize << 16;
    let limbs = [0x0123usize, 0x4567usize, 0x89ABusize];
    let mut out = [0xAAu8; 32];

    let written = mpd_to_bigendian(&limbs, radix, 0, true, &mut out).expect("conversion");

    assert_eq!(written, 7);
    let expected: [u8; 7] = [0xFF, 0x76, 0x54, 0xBA, 0x98, 0xFE, 0xDD];
    assert_eq!(&out[..written], &expected);
    assert!(out[written..].iter().all(|b| *b == 0xAA));
}

#[test]
fn reduces_many_limbs_radix_1e9() {
    let radix = 1_000_000_000usize;
    let limbs = [123_456_789usize, 987_654_321usize, 202_122_212usize];
    let mut out = [0xAAu8; 32];

    let written = mpd_to_bigendian(&limbs, radix, 3, false, &mut out).unwrap();

    let decoded = decode_value(&out[..written], false);
    let mut expected = i256::i256::from_be_bytes(reduce_limbs(&limbs, radix).unwrap().be).wrapping_neg();
    let pow10 = i256::i256::from(10).checked_pow(3).unwrap();
    expected = expected.checked_mul(pow10).unwrap();
    assert_eq!(decoded, expected);
    assert!(out[written..].iter().all(|b| *b == 0xAA));
}

#[test]
fn reduces_many_limbs_radix_1e19_negative() {
    let radix = 10_000_000_000_000_000_000usize;
    let limbs = [
        123_456_789_012_345_678usize,
        987_654_321_098_765_432usize,
        111_111_111_111_111_111usize,
    ];
    let mut out = [0xAAu8; 32];

    let written = mpd_to_bigendian(&limbs, radix, 1, true, &mut out).unwrap();

    let decoded = decode_value(&out[..written], true);
    let mut expected = i256::i256::from_be_bytes(reduce_limbs(&limbs, radix).unwrap().be).wrapping_neg();
    expected = expected.checked_neg().unwrap();
    let pow10 = i256::i256::from(10).checked_pow(1).unwrap();
    expected = expected.checked_mul(pow10).unwrap();
    assert_eq!(decoded, expected);
    assert!(out[written..].iter().all(|b| *b == 0xAA));
}

#[test]
fn scales_by_power_of_ten() {
    let limbs = [3usize];
    let mut out = [0xAAu8; 32];

    let written = mpd_to_bigendian(&limbs, 10, 2, false, &mut out).unwrap();

    assert_eq!(written, 2);
    assert_eq!(&out[..written], &[0x01, 0x2C]); // 3 * 10^2 = 300
    assert!(out[written..].iter().all(|b| *b == 0xAA));
}

#[test]
fn returns_none_on_exponent_overflow() {
    let limbs = [2usize];
    let mut out = [0u8; 32];

    // 10^256 does not fit in 256 bits.
    assert!(mpd_to_bigendian(&limbs, 10, 256, false, &mut out).is_none());
}

#[test]
fn returns_none_on_exponent_overflow2() {
    let limbs = [1_000_000_000usize];
    let mut out = [0u8; 32];

    // 1_000_000_000 * 10^74 does not fit in 256 bits.
    assert!(mpd_to_bigendian(&limbs, 10, 74, false, &mut out).is_none());
}

#[test]
fn returns_none_on_value_overflow() {
    let radix = 256usize;
    let mut limbs = [0usize; 33];
    limbs[32] = 1; // Represents radix^32 == 2^256 which cannot be encoded.
    let mut out = [0u8; 32];

    assert!(mpd_to_bigendian(&limbs, radix, 0, false, &mut out).is_none());
}

#[test]
fn handles_zero_limbs() {
    let limbs: [usize; 0] = [];
    let mut out = [0xAAu8; 32];

    let written = mpd_to_bigendian(&limbs, 10, 0, false, &mut out).unwrap();

    assert_eq!(written, 2);
    assert_eq!(&out[..written], &[0x00, 0x00]);
    assert!(out[written..].iter().all(|b| *b == 0xAA));
}

#[test]
fn handles_negative_zero_limbs() {
    let limbs: [usize; 0] = [];
    let mut out = [0xAAu8; 32];

    let written = mpd_to_bigendian(&limbs, 10, 0, true, &mut out).unwrap();

    assert_eq!(written, 32);
    assert!(out.iter().all(|b| *b == 0x00));
}

#[test]
fn trimming_keeps_two_bytes_at_least() {
    let mut out = [0xAAu8; 32];
    let written = write_trimmed_bytes(Int256::from_u8(5), false, &mut out);
    assert_eq!(written, 2);
    assert_eq!(&out[..2], &[0x00, 0x05]);
    assert!(out[2..].iter().all(|b| *b == 0xAA));
}

#[test]
fn trimming_keeps_the_sign_byte() {
    let mut out = [0u8; 32];
    let written = write_trimmed_bytes(Int256::from_u8(0x80), false, &mut out);
    assert_eq!(written, 2);
    assert_eq!(&out[..2], &[0x00, 0x80]);
    let mut be = [0xFFu8; 32];
    be[31] = 0x7F;
    let written = write_trimmed_bytes(Int256 { be }, true, &mut out);
    assert_eq!(written, 2);
    assert_eq!(&out[..2], &[0xFF, 0x7F]);
    let mut be = [0xFFu8; 32];
    be[30] = 0x7F;
    let written = write_trimmed_bytes(Int256 { be }, true, &mut out);
    assert_eq!(written, 3);
    assert_eq!(&out[..3], &[0xFF, 0x7F, 0xFF]);
}

#[test]
fn reduce_limbs_negates() {
    let r = reduce_limbs(&[5, 4], 10).unwrap();
    assert_eq!(i256::i256::from_be_bytes(r.be), i256::i256::from_i32(-45));
    assert!(reduce_limbs(&[], 10).unwrap().be.iter().all(|b| *b == 0));
}

#[test]
fn exponent_at_the_edge() {
    let mut out = [0u8; 32];
    // 10^76 fits in 256 bits, 10^77 does not.
    assert!(mpd_to_bigendian(&[1], 10, 76, false, &mut out).is_some());
    assert!(mpd_to_bigendian(&[1], 10, 77, false, &mut out).is_none());
    // Zero times a power of ten that does not fit still fails.
    assert!(mpd_to_bigendian(&[0], 10, 77, false, &mut out).is_none());
}

#[test]
fn negative_magnitude_just_past_the_range_overflows() {
    // 2^255 + 1207996043435180032: a negative product that i256 would wrap.
    let limbs = [
        0usize,
        3499233282028201973usize,
        7854925043439539266usize,
        7896044618658097711usize,
        5usize,
    ];
    let mut out = [0xAAu8; 32];
    assert!(mpd_to_bigendian(&limbs, 10000000000000000000, 0, true, &mut out).is_none());
    assert!(out.iter().all(|b| *b == 0xAA));
    assert!(reduce_limbs(&limbs, 10000000000000000000).is_none());
}

#[test]
fn negative_scaled_value_just_past_the_range_overflows() {
    // (2^255 / 10 + 1) * 10 == 2^255 + 2.
    let limbs = [
        2879200395656481997usize,
        6349923328202820197usize,
        1785492504343953926usize,
        5789604461865809771usize,
    ];
    let mut out = [0xAAu8; 32];
    assert!(mpd_to_bigendian(&limbs, 10000000000000000000, 1, true, &mut out).is_none());
    assert!(out.iter().all(|b| *b == 0xAA));
    // Unscaled it fits.
    assert!(mpd_to_bigendian(&limbs, 10000000000000000000, 0, true, &mut out).is_some());
}

#[test]
fn trimming_into_a_longer_buffer() {
    let mut out = [0xAAu8; 40];
    let written = write_trimmed_bytes(Int256::from_u8(7), false, &mut out);
    assert_eq!(written, 2);
    assert_eq!(&out[..2], &[0x00, 0x07]);
    assert!(out[2..].iter().all(|b| *b == 0xAA));
}
