use lagrange_srs::bits::{bit_reverse, exact_log2, power_of_two};
use lagrange_srs::error::InterpolationError;

#[test]
fn test_bit_reverse() {
    // Check that the bit reverse function is its own inverse
    let n = 1 << 10;
    for i in 0..n {
        let m = bit_reverse(i, 10).unwrap();
        assert_eq!(i, bit_reverse(m, 10).unwrap());
    }

    // Test against a known result
    let expected_result: [usize; 8] = [0, 4, 2, 6, 1, 5, 3, 7];
    for i in 0..8 {
        assert_eq!(expected_result[i], bit_reverse(i, 3).unwrap());
    }
}

#[test]
fn bit_reverse_is_an_involution_for_small_widths() {
    for log_n in 1..=12usize {
        for i in 0..(1usize << log_n) {
            let once = bit_reverse(i, log_n).unwrap();
            assert!(once < (1usize << log_n));
            assert_eq!(bit_reverse(once, log_n).unwrap(), i);
        }
    }
}

#[test]
fn bit_reverse_is_an_involution_at_width_twenty() {
    for i in [0usize, 1, 2, 3, 0x5_5555, 0xA_AAAA, 0xF_FFFE, 0xF_FFFF, 0x8_0000, 0x1_2345] {
        let once = bit_reverse(i, 20).unwrap();
        assert_eq!(bit_reverse(once, 20).unwrap(), i);
    }
    assert_eq!(bit_reverse(1, 20).unwrap(), 0x8_0000);
    assert_eq!(bit_reverse(0x5_5555, 20).unwrap(), 0xA_AAAA);
}

#[test]
fn bit_reverse_known_values() {
    assert_eq!(bit_reverse(0, 0).unwrap(), 0);
    assert_eq!(bit_reverse(1, 1).unwrap(), 1);
    assert_eq!(bit_reverse(1, 2).unwrap(), 2);
    assert_eq!(bit_reverse(0b0011, 4).unwrap(), 0b1100);
    assert_eq!(bit_reverse(0b1_0000_0001, 9).unwrap(), 0b1_0000_0001);
    assert_eq!(bit_reverse(0b0_0000_0001, 9).unwrap(), 0b1_0000_0000);
    assert_eq!(bit_reverse(0x0001, 16).unwrap(), 0x8000);
    assert_eq!(bit_reverse(0x00F0, 16).unwrap(), 0x0F00);
    assert_eq!(bit_reverse(1, 63).unwrap(), 1usize << 62);
}

#[test]
fn bit_reverse_ignores_bits_above_the_width() {
    assert_eq!(bit_reverse(0b1101, 3).unwrap(), 0b101);
    assert_eq!(bit_reverse(0b1000, 3).unwrap(), 0);
    assert_eq!(bit_reverse(usize::MAX, 3).unwrap(), 0b111);
    assert_eq!(bit_reverse(12345, 0).unwrap(), 0);
}

#[test]
fn bit_reverse_never_fails_within_the_index_width() {
    for log_n in 0..64usize {
        let r: Result<usize, InterpolationError> = bit_reverse(usize::MAX, log_n);
        assert!(r.is_ok());
    }
}

#[test]
fn exact_log2_tells_powers_of_two_apart() {
    assert_eq!(exact_log2(0), None);
    assert_eq!(exact_log2(1), Some(0));
    assert_eq!(exact_log2(2), Some(1));
    assert_eq!(exact_log2(3), None);
    assert_eq!(exact_log2(512), Some(9));
    assert_eq!(exact_log2(513), None);
    assert_eq!(exact_log2(1usize << 63), Some(63));
    assert_eq!(exact_log2((1usize << 63) + 1), None);
    assert_eq!(exact_log2(usize::MAX), None);
}

#[test]
fn power_of_two_values() {
    assert_eq!(power_of_two(0), 1);
    assert_eq!(power_of_two(1), 2);
    assert_eq!(power_of_two(10), 1024);
    assert_eq!(power_of_two(63), 1usize << 63);
}
