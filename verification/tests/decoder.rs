use logic_sim::blocks::Component;
use logic_sim::decoder::BitDecoder;
use logic_sim::num_bit_converter::num_to_bit;

#[test]
fn decoder_test() {
    let decoder = BitDecoder::new(8);
    for i in 0..256 {
        let expected_output = {
            let mut ex = [false; 256];
            ex[i] = true;
            ex
        };
        assert_eq!(decoder.eval(&num_to_bit::<8>(i)), expected_output);
    }
}

#[test]
fn decoder_of_no_bits_has_one_line() {
    let decoder = BitDecoder::new(0);
    assert_eq!(decoder.eval(&[]), [true]);
}

#[test]
fn decoder_of_two_bits() {
    let decoder = BitDecoder::new(2);
    assert_eq!(decoder.eval(&[false, true]), [false, false, true, false]);
    assert_eq!(decoder.eval(&[true, true]), [false, false, false, true]);
}
