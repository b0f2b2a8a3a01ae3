use logic_sim::blocks::Component;
use logic_sim::calculator::{
    EightBitFullAdder, EightBitSubtractor, FullAdder, HalfAdder, NByteAdder,
};
use logic_sim::num_bit_converter::{bit_to_num, num_to_bit};

#[test]
fn half_adder_test() {
    let adder = HalfAdder::new();
    assert_eq!(adder.eval(&[false, false]), [false, false]);
    assert_eq!(adder.eval(&[true, false]), [true, false]);
    assert_eq!(adder.eval(&[false, true]), [true, false]);
    assert_eq!(adder.eval(&[true, true]), [false, true]);
}

#[test]
fn full_adder_test() {
    let adder = FullAdder::new();
    for i in 0..8 {
        let input = num_to_bit::<3>(i);
        let ans = num_to_bit::<2>(input.iter().map(|&b| b as usize).sum());
        assert_eq!(adder.eval(&input), ans);
    }
}

#[test]
fn eight_bit_adder_test() {
    let adder = EightBitFullAdder::new();
    for i in 0..256 {
        for j in 0..256 {
            let input1 = num_to_bit::<17>(((i << 8) + j) << 1);
            let input2 = num_to_bit::<17>((((i << 8) + j) << 1) + 1);
            assert_eq!(bit_to_num(&adder.eval(&input1)), i + j);
            assert_eq!(bit_to_num(&adder.eval(&input2)), i + j + 1);
        }
    }
}

#[test]
fn nbyte_adder_test() {
    let adder = NByteAdder::new(2);
    for i in 0..256 {
        for j in 0..256 {
            let i = (i << 8) + i;
            let j = (j << 8) + j;
            assert_eq!(
                bit_to_num(&adder.eval(&num_to_bit::<32>((i << 16) + j))),
                (i + j) % (1 << 16)
            );
        }
    }
}

#[test]
fn subtractor_test() {
    let sub = EightBitSubtractor::new();
    for i in 0..256 {
        for j in 0..(i + 1) {
            assert_eq!(sub.eval(&num_to_bit::<16>((j << 8) + i)), num_to_bit::<8>(i - j));
        }
    }
}

#[test]
fn full_adder_carries_and_clears() {
    let adder = FullAdder::new();
    assert_eq!(adder.eval(&[true, true, true]), [true, true]);
    assert_eq!(adder.eval(&[false, false, false]), [false, false]);
}

#[test]
fn eight_bit_adder_overflows_into_the_carry() {
    let adder = EightBitFullAdder::new();
    let mut input = vec![false];
    input.extend_from_slice(&num_to_bit::<8>(255));
    input.extend_from_slice(&num_to_bit::<8>(1));
    let out = adder.eval(&input);
    assert_eq!(out[..8], [false; 8]);
    assert_eq!(out[8], true);
}
