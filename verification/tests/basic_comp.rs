use logic_sim::basic_comp::{And, Branch, Buffer, Constant, Not, Or};
use logic_sim::blocks::Component;
use logic_sim::num_bit_converter::num_to_bit;

#[test]
fn false_test() {
    let f = Constant::new(8, 8, false);
    let t = Constant::new(8, 8, true);
    for i in 0..256 {
        assert_eq!(f.eval(&num_to_bit::<8>(i)), [false; 8]);
        assert_eq!(t.eval(&num_to_bit::<8>(i)), [true; 8]);
    }
}

#[test]
fn and_test() {
    let c = And::new(8);
    for i in 0..255 {
        assert_eq!(c.eval(&num_to_bit::<8>(i)), [false]);
    }
    assert_eq!(c.eval(&[true; 8]), [true]);
}

#[test]
fn or_test() {
    let c = Or::new(8);
    assert_eq!(c.eval(&[false; 8]), [false]);
    for i in 1..256 {
        assert_eq!(c.eval(&num_to_bit::<8>(i)), [true]);
    }
}

#[test]
fn not_test() {
    let c = Not::new();
    assert_eq!(c.eval(&[true]), [false]);
    assert_eq!(c.eval(&[false]), [true]);
}

#[test]
fn buffer_test() {
    let c = Buffer::new();
    assert_eq!(c.eval(&[true]), [true]);
    assert_eq!(c.eval(&[false]), [false]);
}

#[test]
fn branch_test() {
    let c = Branch::new(8);
    assert_eq!(c.eval(&[true]), [true; 8]);
    assert_eq!(c.eval(&[false]), [false; 8]);
}

#[test]
fn nand_test() {
    let c = logic_sim::basic_comp::NAND::new(8);
    for i in 0..255 {
        assert_eq!(c.eval(&num_to_bit::<8>(i)), [true]);
    }
    assert_eq!(c.eval(&[true; 8]), [false]);
}

#[test]
fn xor_test() {
    let c = logic_sim::basic_comp::XOR::new(8);
    assert_eq!(c.eval(&[false; 8]), [false]);
    for i in 1..255 {
        assert_eq!(c.eval(&num_to_bit::<8>(i)), [true]);
    }
    assert_eq!(c.eval(&[true; 8]), [false]);
}
