use field_fft::bits::{bit_reverse_permute, bitreverse, log2_floor};

#[test]
fn log2_floor_rounds_down_to_a_power_of_two() {
    assert_eq!(log2_floor(1), 0);
    assert_eq!(log2_floor(2), 1);
    assert_eq!(log2_floor(3), 1);
    assert_eq!(log2_floor(4), 2);
    assert_eq!(log2_floor(5), 2);
    assert_eq!(log2_floor(7), 2);
    assert_eq!(log2_floor(8), 3);
    assert_eq!(log2_floor(1023), 9);
    assert_eq!(log2_floor(1024), 10);
    assert_eq!(log2_floor(usize::MAX), usize::BITS - 1);
}

#[test]
fn bitreverse_of_two_bits_swaps_one_and_two() {
    assert_eq!(bitreverse(0, 2), 0);
    assert_eq!(bitreverse(1, 2), 2);
    assert_eq!(bitreverse(2, 2), 1);
    assert_eq!(bitreverse(3, 2), 3);
}

#[test]
fn bitreverse_of_no_bits_is_zero() {
    assert_eq!(bitreverse(0, 0), 0);
    assert_eq!(bitreverse(12345, 0), 0);
}

#[test]
fn bitreverse_reads_the_low_bits_only() {
    assert_eq!(bitreverse(0b1_0110, 4), 0b0110);
    assert_eq!(bitreverse(0b0001, 4), 0b1000);
    assert_eq!(bitreverse(0b0011, 3), 0b110);
    assert_eq!(bitreverse(1, 32), 0x8000_0000);
    assert_eq!(bitreverse(0x8000_0000, 32), 1);
    assert_eq!(bitreverse(0xffff_ffff, 32), 0xffff_ffff);
}

#[test]
fn bitreverse_twice_is_the_identity() {
    for bits in 0..11u32 {
        for k in 0..(1u32 << bits) {
            assert_eq!(bitreverse(bitreverse(k, bits), bits), k);
        }
    }
}

#[test]
fn permutation_of_four_swaps_the_middle_entries() {
    let mut a = vec![10u64, 11, 12, 13];
    bit_reverse_permute(&mut a[..], 2);
    assert_eq!(a, vec![10, 12, 11, 13]);
}

#[test]
fn permutation_of_eight() {
    let mut a = vec!['a', 'b', 'c', 'd', 'e', 'f', 'g', 'h'];
    bit_reverse_permute(&mut a[..], 3);
    assert_eq!(a, vec!['a', 'e', 'c', 'g', 'b', 'f', 'd', 'h']);
}

#[test]
fn permutation_of_one_entry_changes_nothing() {
    let mut a = vec![7u8];
    bit_reverse_permute(&mut a[..], 0);
    assert_eq!(a, vec![7]);
}

#[test]
fn permutation_applied_twice_restores_the_order() {
    for log_n in 0..9u32 {
        let start: Vec<u32> = (0..(1u32 << log_n)).map(|v| v * 3 + 1).collect();
        let mut a = start.clone();
        bit_reverse_permute(&mut a[..], log_n);
        bit_reverse_permute(&mut a[..], log_n);
        assert_eq!(a, start);
    }
}
