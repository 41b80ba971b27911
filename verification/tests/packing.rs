use vc::bits::{bit_to_uchar, uchar_to_bit};

#[test]
fn alternating_row_packs_to_one_byte() {
    let row = [0u8, 1, 0, 1, 0, 1, 0, 1];
    assert_eq!(uchar_to_bit(&row, 8, 1), vec![0b1010_1010]);
}

#[test]
fn zero_samples_set_bits() {
    assert_eq!(uchar_to_bit(&[0u8; 8], 8, 1), vec![0xff]);
    assert_eq!(uchar_to_bit(&[1u8; 8], 8, 1), vec![0x00]);
}

#[test]
fn leftmost_pixel_is_the_highest_bit() {
    assert_eq!(uchar_to_bit(&[0, 1, 1, 1, 1, 1, 1, 1], 8, 1), vec![0x80]);
    assert_eq!(uchar_to_bit(&[1, 1, 1, 1, 1, 1, 1, 0], 8, 1), vec![0x01]);
}

#[test]
fn every_row_starts_a_new_byte() {
    // 3 pixels per row, 2 rows: one byte per row, five padding bits each.
    let unpacked = [0u8, 1, 0, 1, 0, 1];
    assert_eq!(uchar_to_bit(&unpacked, 3, 2), vec![0b1010_0000, 0b0100_0000]);
}

#[test]
fn padding_bits_are_clear() {
    assert_eq!(uchar_to_bit(&[0u8; 9], 9, 1), vec![0xff, 0x80]);
    assert_eq!(uchar_to_bit(&[0u8; 1], 1, 1), vec![0x80]);
}

#[test]
fn wide_rows_take_several_bytes() {
    let mut unpacked = vec![1u8; 20];
    unpacked[0] = 0;
    unpacked[8] = 0;
    unpacked[19] = 0;
    let mut two_rows = unpacked.clone();
    two_rows.extend_from_slice(&[0u8; 20]);
    assert_eq!(uchar_to_bit(&unpacked, 20, 1), vec![0x80, 0x80, 0x10]);
    assert_eq!(uchar_to_bit(&two_rows, 20, 2), vec![0x80, 0x80, 0x10, 0xff, 0xff, 0xf0]);
}

#[test]
fn samples_other_than_zero_clear_the_bit() {
    assert_eq!(uchar_to_bit(&[0, 2, 255, 0, 1, 128, 0, 7], 8, 1), vec![0b1001_0010]);
}

#[test]
fn set_bits_unpack_to_zero() {
    assert_eq!(bit_to_uchar(&[0b1010_1010], 8, 1), vec![0, 1, 0, 1, 0, 1, 0, 1]);
    assert_eq!(bit_to_uchar(&[0xff], 8, 1), vec![0u8; 8]);
    assert_eq!(bit_to_uchar(&[0x00], 8, 1), vec![1u8; 8]);
}

#[test]
fn unpacking_skips_the_padding_of_each_row() {
    assert_eq!(bit_to_uchar(&[0b1011_1111, 0b0101_1111], 3, 2), vec![0, 1, 0, 1, 0, 1]);
}

#[test]
fn unpacking_reads_no_more_rows_than_asked() {
    assert_eq!(bit_to_uchar(&[0x80, 0x00, 0xff], 8, 2).len(), 16);
    assert_eq!(bit_to_uchar(&[0x0f, 0xf0, 0xaa], 12, 1), vec![1, 1, 1, 1, 0, 0, 0, 0, 0, 0, 0, 0]);
}

#[test]
fn unpack_undoes_pack() {
    for width in 1usize..=19 {
        for height in 1usize..=4 {
            let unpacked: Vec<u8> =
                (0..width * height).map(|i| ((i * 7 + i / 3 + width) % 3 == 0) as u8).collect();
            let packed = uchar_to_bit(&unpacked, width, height);
            assert_eq!(packed.len(), (width + 7) / 8 * height);
            assert_eq!(bit_to_uchar(&packed, width, height), unpacked);
        }
    }
}

#[test]
fn pack_undoes_unpack_where_padding_is_clear() {
    let packed = vec![0b1100_1010, 0b0100_0000, 0b0011_0101, 0b1000_0000];
    let unpacked = bit_to_uchar(&packed, 10, 2);
    assert_eq!(unpacked.len(), 20);
    assert_eq!(uchar_to_bit(&unpacked, 10, 2), packed);
}
