use joeboids::bits::{new_buffer_bools, packed_image_data, vec_u8_from_vec_bool};

#[test]
fn buffer_is_dark_and_sized() {
    let buffer = new_buffer_bools(3, 2);
    assert_eq!(buffer.len(), 2);
    for row in buffer.iter() {
        assert_eq!(row, &vec![false, false, false]);
    }
}

#[test]
fn buffer_of_zero_width() {
    let buffer = new_buffer_bools(0, 4);
    assert_eq!(buffer.len(), 4);
    assert!(buffer.iter().all(|row| row.is_empty()));
    assert!(new_buffer_bools(5, 0).is_empty());
}

#[test]
fn packing_pads_the_last_byte() {
    // [t, t, f, f, t, t, f, f, t, t] -> [0b1100_1100, 0b1100_0000]
    let bits = vec![true, true, false, false, true, true, false, false, true, true];
    assert_eq!(vec_u8_from_vec_bool(bits), vec![204, 192]);
}

#[test]
fn packing_whole_bytes() {
    let bits = vec![
        false, false, false, false, false, false, false, true, true, false, false, false, false,
        false, false, false,
    ];
    assert_eq!(vec_u8_from_vec_bool(bits), vec![1, 128]);
}

#[test]
fn packing_nothing() {
    assert_eq!(vec_u8_from_vec_bool(vec![]), Vec::<u8>::new());
}

#[test]
fn packing_keeps_every_bit() {
    let bits: Vec<bool> = (0..21).map(|i| (i * 7 + 3) % 5 < 2).collect();
    let bytes = vec_u8_from_vec_bool(bits.clone());
    assert_eq!(bytes.len(), 3);
    for k in 0..24 {
        let bit = (bytes[k / 8] >> (7 - k % 8)) & 1 == 1;
        assert_eq!(bit, k < bits.len() && bits[k]);
    }
}

#[test]
fn image_data_packs_each_row() {
    let buffer = vec![
        vec![true, false, false, false, false, false, false, false, true],
        vec![false, true, false],
    ];
    assert_eq!(packed_image_data(&buffer), vec![128, 128, 64]);
}
