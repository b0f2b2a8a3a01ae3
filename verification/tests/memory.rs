use logic_sim::blocks::Component;
use logic_sim::memory::{Memory, MemoryByte, MemoryCell, RSFlipFlop};
use logic_sim::num_bit_converter::num_to_bit;

#[test]
fn rsflipflop_test() {
    let mut ff = RSFlipFlop::new();

    assert_eq!(ff.eval_mut(&[true, false]), [false, true]);
    assert_eq!(ff.eval_mut(&[true, false]), [false, true]);
    assert_eq!(ff.eval_mut(&[false, false]), [false, true]);
    assert_eq!(ff.eval_mut(&[false, true]), [true, false]);
    assert_eq!(ff.eval_mut(&[false, false]), [true, false]);
    assert_eq!(ff.eval_mut(&[false, true]), [true, false]);
    assert_eq!(ff.eval_mut(&[true, false]), [false, true]);
}

#[test]
fn memory_cell_test() {
    let mut cell = MemoryCell::new();
    let mut state = cell.eval_mut(&[true, true, false])[0];
    for i in 0..8 {
        let input = num_to_bit::<3>(i);
        if input[1] {
            state = input[2];
        }
        assert_eq!(cell.eval_mut(&input), [input[0] && state]);
    }
}

#[test]
fn memory_byte_test() {
    let mut byte = MemoryByte::new(8);
    let read_flag = 1;
    let write_flag = 2;
    for i in 0..256 {
        let num = 255 - i;
        assert_eq!(
            byte.eval_mut(&num_to_bit::<10>((num << 2) + write_flag)),
            [false; 8]
        );
        assert_eq!(
            byte.eval_mut(&num_to_bit::<10>(read_flag)),
            num_to_bit::<8>(num)
        );
    }
    for i in 0..256 {
        assert_eq!(
            byte.eval_mut(&num_to_bit::<10>((i << 2) + write_flag + read_flag)),
            num_to_bit::<8>(i)
        );
        assert_eq!(
            byte.eval_mut(&num_to_bit::<10>(read_flag)),
            num_to_bit::<8>(i)
        );
    }
}

#[test]
fn fresh_memory_cell_reads_zero() {
    let mut cell = MemoryCell::new();
    assert_eq!(cell.eval_mut(&[true, false, false]), [false]);
    assert_eq!(cell.eval_mut(&[true, false, true]), [false]);
    assert_eq!(cell.eval_mut(&[true, true, true]), [true]);
    assert_eq!(cell.eval_mut(&[false, false, false]), [false]);
    assert_eq!(cell.eval_mut(&[true, false, false]), [true]);
}

#[test]
fn latch_holds_both_lines_low_until_driven() {
    let mut ff = RSFlipFlop::new();
    assert_eq!(ff.eval_mut(&[false, false]), [false, false]);
    assert_eq!(ff.eval(&[false, false]), [true, true]);
    assert_eq!(ff.eval_mut(&[false, true]), [true, false]);
    assert_eq!(ff.eval(&[false, false]), [true, false]);
}

#[test]
fn memory_test() {
    let mut memory = Memory::new(8, 8);

    for i in 0..256 {
        let read = 1;
        let write = 2;
        let addr = i;
        let num = 255 - i;
        let input = num_to_bit::<18>((num << 10) + (addr << 2) + write + read);
        assert_eq!(memory.eval_mut(&input), num_to_bit::<8>(num));
    }
}

#[test]
fn memory_reads_back_what_was_written() {
    let mut memory = Memory::new(8, 8);
    let read = 1;
    let write = 2;
    for i in 0..128 {
        let input = num_to_bit::<18>((i << 10) + (i << 2) + write);
        assert_eq!(memory.eval_mut(&input), [false; 8]);
    }
    for i in 128..256 {
        let input = num_to_bit::<18>((i << 2) + write);
        assert_eq!(memory.eval_mut(&input), [false; 8]);
    }
    for k in 0..256 {
        let input = num_to_bit::<18>((k << 2) + read);
        let expected = if k < 128 { k } else { 0 };
        assert_eq!(memory.eval_mut(&input), num_to_bit::<8>(expected));
    }
}

#[test]
fn memory_never_written_reads_zero() {
    let mut memory = Memory::new(3, 4);
    let read = 1;
    let write = 2;
    assert_eq!(memory.eval_mut(&num_to_bit::<9>((5 << 2) + read)), [false; 4]);
    assert_eq!(memory.eval_mut(&num_to_bit::<9>((9 << 5) + (5 << 2) + write)), [false; 4]);
    assert_eq!(memory.eval_mut(&num_to_bit::<9>((4 << 2) + read)), [false; 4]);
    assert_eq!(memory.eval_mut(&num_to_bit::<9>((5 << 2) + read)), num_to_bit::<4>(9));
    assert_eq!(memory.eval_mut(&num_to_bit::<9>((3 << 5) + (4 << 2) + write + read)), num_to_bit::<4>(3));
    assert_eq!(memory.eval_mut(&num_to_bit::<9>((5 << 2) + read)), num_to_bit::<4>(9));
    assert_eq!(memory.eval_mut(&num_to_bit::<9>(5 << 2)), [false; 4]);
}

#[test]
fn latch_resets_holds_sets_and_resets() {
    let mut ff = RSFlipFlop::new();
    assert_eq!(ff.eval_mut(&[true, false]), [false, true]);
    assert_eq!(ff.eval_mut(&[false, false]), [false, true]);
    assert_eq!(ff.eval_mut(&[false, true]), [true, false]);
    assert_eq!(ff.eval_mut(&[true, false]), [false, true]);
}

#[test]
fn register_of_no_bits() {
    let mut byte = MemoryByte::new(0);
    assert_eq!(byte.input_width(), 2);
    assert_eq!(byte.output_width(), 0);
    assert_eq!(byte.eval_mut(&[true, true]), Vec::<bool>::new());
}

#[test]
fn memory_of_one_word() {
    let mut memory = Memory::new(0, 2);
    assert_eq!(memory.input_width(), 4);
    assert_eq!(memory.eval_mut(&[true, false, true, true]), [false, false]);
    assert_eq!(memory.eval_mut(&[true, true, true, false]), [true, false]);
    assert_eq!(memory.eval_mut(&[true, false, false, true]), [true, false]);
    assert_eq!(memory.eval(&[false, false, false, false]), [false, false]);
}
