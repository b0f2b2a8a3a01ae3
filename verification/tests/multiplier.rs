use logic_sim::blocks::Component;
use logic_sim::multiplier::EightBitMultiplier;
use logic_sim::num_bit_converter::{bit_to_num, num_to_bit};

#[test]
fn eight_bit_multiplier_test() {
    let mul = EightBitMultiplier::new();

    for i in 0..256 {
        for j in 0..256 {
            let input = num_to_bit::<16>((i << 8) + j);
            assert_eq!(bit_to_num(&mul.eval(&input)), i * j);
            assert_eq!(EightBitMultiplier::dummy(i, j), i * j);
        }
    }
}

#[test]
fn multiplier_largest_product() {
    let mul = EightBitMultiplier::new();
    let input = num_to_bit::<16>((255 << 8) + 255);
    assert_eq!(mul.eval(&input), num_to_bit::<16>(65025));
    assert_eq!(EightBitMultiplier::dummy(255 + 256, 255), 65025);
}
