use logic_sim::basic_comp::{And, Branch, Buffer, Constant, Not, Or, NAND, XOR};
use logic_sim::blocks::{
    pow2, Block, Component, ConcatBlocks, ConcatDifferentShapeBlocks, DebugLayer, MergeLayers,
    RecurrentBlock,
};
use logic_sim::calculator::{FullAdder, HalfAdder};
use logic_sim::clock::{Clock, DetectClockWake};
use logic_sim::memory::RSFlipFlop;
use logic_sim::num_bit_converter::num_to_bit;
use logic_sim::wiring::Wiring;

#[test]
fn gates_on_the_empty_input() {
    assert_eq!(And::new(0).eval(&[]), [true]);
    assert_eq!(Or::new(0).eval(&[]), [false]);
    assert_eq!(NAND::new(0).eval(&[]), [false]);
    assert_eq!(XOR::new(0).eval(&[]), [false]);
    assert_eq!(Branch::new(0).eval(&[true]), Vec::<bool>::new());
}

#[test]
fn constant_ignores_its_input() {
    let one = Constant::new(0, 1, true);
    assert_eq!(one.input_width(), 0);
    assert_eq!(one.output_width(), 1);
    assert_eq!(one.eval(&[]), [true]);
    let zeros = Constant::new(3, 2, false);
    assert_eq!(zeros.eval(&[true, true, true]), [false, false]);
}

#[test]
fn xor_of_two_and_of_three() {
    let two = XOR::new(2);
    assert_eq!(two.eval(&[false, false]), [false]);
    assert_eq!(two.eval(&[true, false]), [true]);
    assert_eq!(two.eval(&[false, true]), [true]);
    assert_eq!(two.eval(&[true, true]), [false]);
    let three = XOR::new(3);
    assert_eq!(three.eval(&[true, true, false]), [true]);
    assert_eq!(three.eval(&[true, true, true]), [false]);
}

#[test]
fn serial_feeds_the_first_into_the_second() {
    let nor = MergeLayers::create(Or::new(3).into_block(), Not::new().into_block());
    assert_eq!(nor.input_width(), 3);
    assert_eq!(nor.output_width(), 1);
    assert_eq!(nor.eval(&[false, false, false]), [true]);
    assert_eq!(nor.eval(&[false, true, false]), [false]);
    let fanned = nor.connect_to(Branch::new(2).into_block());
    assert_eq!(fanned.eval(&[false, false, false]), [true, true]);
}

#[test]
fn debug_layers_change_nothing() {
    let plain = MergeLayers::create(Branch::new(3).into_block(), And::new(3).into_block());
    let probed = MergeLayers::debug(Branch::new(3).into_block(), And::new(3).into_block());
    let longer = MergeLayers::create(Buffer::new().into_block(), Branch::new(3).into_block())
        .debug_connect(Or::new(3).into_block());
    for bit in [false, true] {
        assert_eq!(plain.eval(&[bit]), [bit]);
        assert_eq!(probed.eval(&[bit]), [bit]);
        assert_eq!(longer.eval(&[bit]), [bit]);
    }
    let layer = DebugLayer::new(3);
    assert_eq!(layer.input_width(), 3);
    assert_eq!(layer.output_width(), 3);
    assert_eq!(layer.eval(&[true, false, true]), [true, false, true]);
}

#[test]
fn uniform_parallel_slices_in_order() {
    let row = ConcatBlocks::create(
        2,
        1,
        vec![And::new(2).into_block(), Or::new(2).into_block(), XOR::new(2).into_block()],
    );
    assert_eq!(row.input_width(), 6);
    assert_eq!(row.output_width(), 3);
    assert_eq!(row.eval(&[true, false, true, false, true, false]), [false, true, true]);
    assert_eq!(row.eval(&[true, true, false, false, true, true]), [true, false, false]);
    let none = ConcatBlocks::create(2, 1, vec![]);
    assert_eq!(none.eval(&[]), Vec::<bool>::new());
}

#[test]
fn uniform_parallel_from_a_maker() {
    let row = ConcatBlocks::create_from_fn(1, 1, 4, Not::new);
    assert_eq!(row.eval(&[true, false, false, true]), [false, true, true, false]);
    let fans = ConcatBlocks::create_from_fn(1, 3, 2, || Branch::new(3));
    assert_eq!(fans.eval(&[true, false]), [true, true, true, false, false, false]);
}

#[test]
fn shaped_parallel_splits_at_the_first_width() {
    let both = ConcatDifferentShapeBlocks::create(
        And::new(3).into_block(),
        Branch::new(2).into_block(),
    );
    assert_eq!(both.input_width(), 4);
    assert_eq!(both.output_width(), 3);
    assert_eq!(both.eval(&[true, true, true, false]), [true, false, false]);
    assert_eq!(both.eval(&[true, false, true, true]), [false, true, true]);
}

#[test]
fn recurrent_threads_the_state_in_order() {
    let adder = RecurrentBlock::create(
        1,
        2,
        1,
        vec![
            FullAdder::new().into_block(),
            FullAdder::new().into_block(),
            FullAdder::new().into_block(),
        ],
    );
    assert_eq!(adder.input_width(), 7);
    assert_eq!(adder.output_width(), 4);
    // carry 1, then the pairs (1, 1), (0, 1), (1, 0): 1 + 5 + 3 = 9
    assert_eq!(
        adder.eval(&[true, true, true, false, true, true, false]),
        [true, false, false, true]
    );
    let none = RecurrentBlock::create(2, 3, 1, vec![]);
    assert_eq!(none.eval(&[true, false]), [true, false]);
}

#[test]
fn recurrent_from_a_maker() {
    let adder = RecurrentBlock::create_from_fn(1, 2, 1, 2, FullAdder::new);
    // carry 0, then the pairs (1, 1), (1, 0): 3 + 1 = 4
    assert_eq!(adder.eval(&[false, true, true, true, false]), [false, false, true]);
}

fn shifted_edge() -> Block {
    MergeLayers::create(Not::new().into_block(), DetectClockWake::new().into_block()).into_block()
}

#[test]
fn recurrent_steps_its_cells_in_ascending_order() {
    // every cell hands on whether its input rose, so a rise reaches the
    // end of the chain only if each cell is stepped after the one before
    let cell = || {
        ConcatDifferentShapeBlocks::create(
            DetectClockWake::new().into_block(),
            Constant::new(0, 0, false).into_block(),
        )
    };
    let mut chain = RecurrentBlock::create_from_fn(1, 0, 0, 3, cell);
    assert_eq!(chain.eval_mut(&[true]), [false]);
    assert_eq!(chain.eval_mut(&[false]), [false]);
    assert_eq!(chain.eval_mut(&[true]), [true]);
    assert_eq!(chain.eval_mut(&[true]), [false]);
    let mut single = RecurrentBlock::create_from_fn(1, 0, 0, 1, cell);
    assert_eq!(single.eval_mut(&[false]), [false]);
    assert_eq!(single.eval_mut(&[true]), [true]);
}

#[test]
fn serial_steps_the_producer_first() {
    let mut chain = shifted_edge();
    // the detector sees the negated input: falling edges of the input
    assert_eq!(chain.eval_mut(&[false]), [false]);
    assert_eq!(chain.eval_mut(&[true]), [false]);
    assert_eq!(chain.eval_mut(&[false]), [true]);
    assert_eq!(chain.eval(&[true]), [false]);
}

#[test]
fn parallel_steps_every_copy_on_its_own_slice() {
    let mut row = ConcatBlocks::create_from_fn(1, 1, 2, DetectClockWake::new);
    assert_eq!(row.eval_mut(&[false, true]), [false, false]);
    assert_eq!(row.eval_mut(&[true, true]), [true, false]);
    assert_eq!(row.eval_mut(&[true, false]), [false, false]);
    assert_eq!(row.eval_mut(&[false, true]), [false, true]);
    let mut both = ConcatDifferentShapeBlocks::create(
        Clock::new().into_block(),
        DetectClockWake::new().into_block(),
    );
    assert_eq!(both.eval_mut(&[false]), [true, false]);
    assert_eq!(both.eval_mut(&[true]), [false, true]);
}

#[test]
fn every_output_has_the_declared_width() {
    let blocks: Vec<Block> = vec![
        And::new(5).into_block(),
        Branch::new(4).into_block(),
        Constant::new(2, 3, true).into_block(),
        HalfAdder::new().into_block(),
        FullAdder::new().into_block(),
        Wiring::wrapper(3, 5).into_block(),
        Clock::new().into_block(),
        DetectClockWake::new().into_block(),
        RSFlipFlop::new().into_block(),
        shifted_edge(),
        ConcatBlocks::create_from_fn(2, 2, 3, RSFlipFlop::new).into_block(),
    ];
    for mut block in blocks {
        let input = vec![true; block.input_width()];
        assert_eq!(block.eval(&input).len(), block.output_width());
        assert_eq!(block.eval_mut(&input).len(), block.output_width());
        assert_eq!(block.eval_mut(&input).len(), block.output_width());
    }
}

#[test]
fn combinational_blocks_are_pure() {
    let mut adder = FullAdder::new();
    for i in 0..8 {
        let input = num_to_bit::<3>(i);
        let pure = adder.eval(&input);
        assert_eq!(adder.eval_mut(&input), pure);
        assert_eq!(adder.eval_mut(&input), pure);
        assert_eq!(adder.eval(&input), pure);
    }
}

#[test]
fn stateful_blocks_do_not_change_under_pure_evaluation() {
    let clock = Clock::new();
    assert_eq!(clock.eval(&[]), [false]);
    assert_eq!(clock.eval(&[]), [false]);
    let edge = DetectClockWake::new();
    assert_eq!(edge.eval(&[true]), [false]);
}

fn chain_left(a: Block, b: Block, c: Block) -> MergeLayers {
    MergeLayers::create(MergeLayers::create(a, b).into_block(), c)
}

fn chain_right(a: Block, b: Block, c: Block) -> MergeLayers {
    MergeLayers::create(a, MergeLayers::create(b, c).into_block())
}

#[test]
fn serial_composition_associates() {
    let parts = || {
        (
            Branch::new(2).into_block(),
            ConcatBlocks::create(
                1,
                1,
                vec![DetectClockWake::new().into_block(), Not::new().into_block()],
            )
            .into_block(),
            Or::new(2).into_block(),
        )
    };
    let (a, b, c) = parts();
    let mut left = chain_left(a, b, c);
    let (a, b, c) = parts();
    let mut right = chain_right(a, b, c);
    for bit in [true, false, true, true, false, false, true] {
        assert_eq!(left.eval(&[bit]), right.eval(&[bit]));
        assert_eq!(left.eval_mut(&[bit]), right.eval_mut(&[bit]));
    }
}

#[test]
fn powers_of_two() {
    assert_eq!(pow2(0), 1);
    assert_eq!(pow2(1), 2);
    assert_eq!(pow2(8), 256);
    assert_eq!(pow2(16), 65536);
}
