use minecraft_schematic_utils::packing::{calculate_bits_per_block, pack, unpack};

#[test]
fn bits_per_block_is_the_rounded_up_logarithm() {
    assert_eq!(calculate_bits_per_block(0), 1);
    assert_eq!(calculate_bits_per_block(1), 1);
    assert_eq!(calculate_bits_per_block(2), 1);
    assert_eq!(calculate_bits_per_block(3), 2);
    assert_eq!(calculate_bits_per_block(4), 2);
    assert_eq!(calculate_bits_per_block(5), 3);
    assert_eq!(calculate_bits_per_block(16), 4);
    assert_eq!(calculate_bits_per_block(17), 5);
    assert_eq!(calculate_bits_per_block(256), 8);
    assert_eq!(calculate_bits_per_block(257), 9);
    assert_eq!(calculate_bits_per_block(usize::MAX), usize::BITS as usize);
}

#[test]
fn pack_lays_fields_low_bit_first() {
    assert_eq!(pack(&vec![1, 0, 0, 0, 0, 0, 0, 1], 1), vec![0b10000001]);
    assert_eq!(pack(&vec![1, 2, 3], 4), vec![0x321]);
    assert_eq!(pack(&vec![], 5), Vec::<i64>::new());
    let ones = vec![1usize; 64];
    assert_eq!(pack(&ones, 1), vec![-1i64]);
}

#[test]
fn pack_lets_a_field_straddle_two_words() {
    // 13 fields of 5 bits: the last one starts at bit 60
    let mut values = vec![0usize; 13];
    values[12] = 0b10111;
    let packed = pack(&values, 5);
    assert_eq!(packed.len(), 2);
    assert_eq!(packed[0] as u64, 0b0111u64 << 60);
    assert_eq!(packed[1], 0b1);
    assert_eq!(unpack(&packed, 5, 13), Some(values));
}

#[test]
fn pack_masks_values_to_the_field() {
    assert_eq!(pack(&vec![0xff, 1], 4), vec![0x1f]);
}

#[test]
fn unpack_rejects_a_wrong_number_of_words() {
    assert_eq!(unpack(&[0, 0], 5, 12), None);
    assert_eq!(unpack(&[], 5, 1), None);
    assert_eq!(unpack(&[0], 5, 12), Some(vec![0usize; 12]));
    assert_eq!(unpack(&[], 5, 0), Some(vec![]));
}

#[test]
fn pack_unpack_round_trip_for_many_palette_sizes() {
    let mut seed: u64 = 0x2545_f491_4f6c_dd1d;
    for palette_size in 1usize..=300 {
        let bits = calculate_bits_per_block(palette_size);
        let count = 97 + palette_size % 7;
        let mut values = Vec::with_capacity(count);
        for _ in 0..count {
            seed ^= seed << 13;
            seed ^= seed >> 7;
            seed ^= seed << 17;
            values.push((seed % palette_size as u64) as usize);
        }
        let packed = pack(&values, bits);
        assert_eq!(packed.len(), (count * bits + 63) / 64);
        assert_eq!(unpack(&packed, bits, count), Some(values));
    }
}

#[test]
fn pack_unpack_round_trip_with_full_width_fields() {
    let values = vec![usize::MAX, 0, 12345, usize::MAX - 1];
    let bits = usize::BITS as usize;
    let packed = pack(&values, bits);
    assert_eq!(unpack(&packed, bits, values.len()), Some(values));
}
