use tuple_math::quotient::normalize_significand;
use tuple_math::root::isqrt;
use tuple_math::round::{bit_length, pack, pow2_u64};
use tuple_math::scalar::Scalar;

#[test]
fn powers_of_two() {
    assert_eq!(pow2_u64(0), 1);
    assert_eq!(pow2_u64(1), 2);
    assert_eq!(pow2_u64(10), 1024);
    assert_eq!(pow2_u64(63), 0x8000_0000_0000_0000);
}

#[test]
fn bit_lengths() {
    assert_eq!(bit_length(0), 0);
    assert_eq!(bit_length(1), 1);
    assert_eq!(bit_length(2), 2);
    assert_eq!(bit_length(3), 2);
    assert_eq!(bit_length(255), 8);
    assert_eq!(bit_length(256), 9);
    assert_eq!(bit_length(0x00FF_FFFF), 24);
    assert_eq!(bit_length(u64::MAX), 64);
    for k in 0..64u32 {
        assert_eq!(bit_length(1u64 << k), k + 1);
    }
}

#[test]
fn significands_are_shifted_to_24_bits() {
    assert_eq!(normalize_significand(1), (0x80_0000, 23));
    assert_eq!(normalize_significand(3), (0xC0_0000, 22));
    assert_eq!(normalize_significand(0x80_0000), (0x80_0000, 0));
    assert_eq!(normalize_significand(0xFF_FFFF), (0xFF_FFFF, 0));
    assert_eq!(normalize_significand(0x7F_FFFF), (0xFF_FFFE, 1));
}

#[test]
fn integer_square_roots() {
    assert_eq!(isqrt(0), 0);
    assert_eq!(isqrt(1), 1);
    assert_eq!(isqrt(2), 1);
    assert_eq!(isqrt(3), 1);
    assert_eq!(isqrt(4), 2);
    assert_eq!(isqrt(99), 9);
    assert_eq!(isqrt(100), 10);
    assert_eq!(isqrt(0x3_FFFF_FFFF_FFFF), 0x1FF_FFFF);
    let mut r: u64 = 1;
    while r < 0x200_0000 {
        assert_eq!(isqrt(r * r), r);
        assert_eq!(isqrt(r * r - 1), r - 1);
        assert_eq!(isqrt(r * r + 2 * r), r);
        r = r * 3 + 1;
    }
}

#[test]
fn significand_and_scale_of_a_number() {
    assert_eq!(Scalar::one().unpack(), (0x80_0000, 126));
    assert_eq!(Scalar::zero().unpack(), (0, 0));
    assert_eq!(Scalar::from_bits(0x0000_0001).unpack(), (1, 0));
    assert_eq!(Scalar::from_bits(0x007F_FFFF).unpack(), (0x7F_FFFF, 0));
    assert_eq!(Scalar::from_bits(0x0080_0000).unpack(), (0x80_0000, 0));
    assert_eq!(Scalar::from_bits(0xFF7F_FFFF).unpack(), (0xFF_FFFF, 253));
    assert_eq!(Scalar::from_bits(0x3727_C5AC).unpack(), (0xA7_C5AC, 109));
}

#[test]
fn half_steps_are_rounded_to_even_and_packed() {
    // twice the significand of one, in the binade of one
    assert_eq!(pack(false, 126, 0x100_0000, true).to_bits(), 0x3F80_0000);
    assert_eq!(pack(true, 126, 0x100_0000, true).to_bits(), 0xBF80_0000);
    // a half step on top: down to the even significand if exact, up if not
    assert_eq!(pack(false, 126, 0x100_0001, true).to_bits(), 0x3F80_0000);
    assert_eq!(pack(false, 126, 0x100_0001, false).to_bits(), 0x3F80_0001);
    assert_eq!(pack(false, 126, 0x100_0003, true).to_bits(), 0x3F80_0002);
    assert_eq!(pack(false, 126, 0x100_0002, false).to_bits(), 0x3F80_0001);
    // rounding up may carry into the next binade, and at the top into infinity
    assert_eq!(pack(false, 126, 0x1FF_FFFF, true).to_bits(), 0x4000_0000);
    assert_eq!(pack(false, 253, 0x1FF_FFFE, false).to_bits(), 0x7F7F_FFFF);
    assert_eq!(pack(false, 253, 0x1FF_FFFF, true).to_bits(), 0x7F80_0000);
    assert_eq!(pack(true, 300, 0x100_0000, true).to_bits(), 0xFF80_0000);
    // the lowest binade holds the subnormal numbers
    assert_eq!(pack(false, 0, 0, true).to_bits(), 0);
    assert_eq!(pack(false, 0, 1, true).to_bits(), 0);
    assert_eq!(pack(false, 0, 1, false).to_bits(), 1);
    assert_eq!(pack(false, 0, 3, true).to_bits(), 2);
    assert_eq!(pack(false, 0, 0xFF_FFFF, true).to_bits(), 0x0080_0000);
}
