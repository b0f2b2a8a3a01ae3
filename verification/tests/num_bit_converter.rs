use logic_sim::num_bit_converter::{bit_to_num, num_to_bit};

#[test]
fn conv_conv_eq_id_until256() {
    for i in 0..256 {
        assert_eq!(i, bit_to_num(&num_to_bit::<8>(i)));
    }
}

#[test]
fn bits_are_little_endian() {
    assert_eq!(num_to_bit::<4>(1), [true, false, false, false]);
    assert_eq!(num_to_bit::<4>(10), [false, true, false, true]);
    assert_eq!(bit_to_num(&[false, false, true]), 4);
    assert_eq!(bit_to_num(&[]), 0);
}

#[test]
fn bits_beyond_the_width_are_dropped() {
    assert_eq!(num_to_bit::<3>(13), [true, false, true]);
    assert_eq!(bit_to_num(&num_to_bit::<3>(13)), 5);
}
