use logic_sim::blocks::Component;
use logic_sim::comparator::{Comparator, EightBitComparator};
use logic_sim::num_bit_converter::num_to_bit;

#[test]
fn comparator_test() {
    let comp = Comparator::new();
    assert_eq!(comp.eval(&[false, false]), [false, true, false]);
    assert_eq!(comp.eval(&[true, false]), [true, false, false]);
    assert_eq!(comp.eval(&[false, true]), [false, false, true]);
    assert_eq!(comp.eval(&[true, true]), [false, true, false]);
}

#[test]
fn eight_bit_comparator_test() {
    let comp = EightBitComparator::new();
    for i in 0..256 {
        for j in 0..256 {
            let default = 2;
            let input = num_to_bit::<19>((((j << 8) + i) << 3) + default);
            assert_eq!(comp.eval(&input), [i > j, i == j, i < j]);
        }
    }
}

#[test]
fn prior_verdict_of_greater_or_less_stands() {
    let comp = EightBitComparator::new();
    for (first, second) in [(77, 77), (78, 77), (3, 200)] {
        let mut input = vec![true, false, false];
        input.extend_from_slice(&num_to_bit::<8>(first));
        input.extend_from_slice(&num_to_bit::<8>(second));
        assert_eq!(comp.eval(&input), [true, false, false]);
        let mut input = vec![false, false, true];
        input.extend_from_slice(&num_to_bit::<8>(first));
        input.extend_from_slice(&num_to_bit::<8>(second));
        assert_eq!(comp.eval(&input), [false, false, true]);
    }
}

#[test]
fn prior_verdict_of_equal_lets_the_operands_decide() {
    let comp = EightBitComparator::new();
    for (first, second) in [(77usize, 77usize), (78, 77), (3, 200), (128, 127), (1, 2)] {
        let mut input = vec![false, true, false];
        input.extend_from_slice(&num_to_bit::<8>(first));
        input.extend_from_slice(&num_to_bit::<8>(second));
        assert_eq!(
            comp.eval(&input),
            [first > second, first == second, first < second]
        );
    }
}
