//! Blocks and the combinators that compose them.
//!
//! A block has a declared input width and output width and two evaluation
//! operations: a pure one, and one that may update the state of the latches,
//! clocks and edge detectors it contains.
use crate::basic_comp::{And, Branch, Buffer, Constant, Not, Or};
use crate::circuit::{
    carried, chunk, concat_all, emitted, evals, fed, lemma_parallel_eval, lemma_parallel_step,
    lemma_recurrent_eval, lemma_recurrent_step, outputs_of, parts, Circuit,
};
use crate::clock::{Clock, DetectClockWake};
use crate::laws::{
    lemma_chain_shape, lemma_chunk_bounds, lemma_eval_shape, lemma_stateless_step,
    lemma_step_shape,
};
use crate::memory::RSFlipFlop;
use crate::wiring::Wiring;
use vstd::prelude::*;
use vstd::slice::{slice_subrange, slice_to_vec};

verus! {

/// What every block offers. The view of a block is its mathematical model;
/// all contracts are stated over it.
pub trait Component: View<V = Circuit> + Sized {
    /// Declared input width.
    fn input_width(&self) -> (w: usize)
        requires
            self@.realizable(),
        ensures
            w == self@.input_width(),
    ;

    /// Declared output width.
    fn output_width(&self) -> (w: usize)
        requires
            self@.realizable(),
        ensures
            w == self@.output_width(),
    ;

    /// Pure evaluation: the state of the block is read, never written.
    fn eval(&self, input: &[bool]) -> (out: Vec<bool>)
        requires
            self@.realizable(),
            input@.len() == self@.input_width(),
        ensures
            out@ == self@.eval(input@),
            out@.len() == self@.output_width(),
    ;

    /// State-updating evaluation: sub-blocks are visited in their declared
    /// order and each may update its state. A block with no clock, edge
    /// detector or latch inside is left as it was, and returns what the
    /// pure evaluation returns.
    fn eval_mut(&mut self, input: &[bool]) -> (out: Vec<bool>)
        requires
            old(self)@.realizable(),
            input@.len() == old(self)@.input_width(),
        ensures
            out@ == old(self)@.output(input@),
            final(self)@ == old(self)@.next(input@),
            out@.len() == old(self)@.output_width(),
            final(self)@.realizable(),
            old(self)@.stateless() ==> final(self)@ == old(self)@ && out@ == old(self)@.eval(
                input@,
            ),
    ;

    /// The same block as a value of the one type that combinators accept.
    fn into_block(self) -> (b: Block)
        ensures
            b@ == self@,
    ;
}

/// Any block, behind one type.
pub enum Block {
    Constant(Constant),
    And(And),
    Or(Or),
    Not(Not),
    Buffer(Buffer),
    Branch(Branch),
    Wiring(Wiring),
    DebugLayer(DebugLayer),
    Clock(Clock),
    DetectClockWake(DetectClockWake),
    RSFlipFlop(RSFlipFlop),
    MergeLayers(MergeLayers),
    ConcatBlocks(ConcatBlocks),
    ConcatDifferentShapeBlocks(ConcatDifferentShapeBlocks),
    RecurrentBlock(RecurrentBlock),
}

/// A pass-through layer: a place in a chain where the bus can be observed.
pub struct DebugLayer {
    width: usize,
}

/// Serial composition of two blocks.
pub struct MergeLayers {
    layer1: Box<Block>,
    layer2: Box<Block>,
}

/// Uniform parallel composition: blocks of one shape side by side.
pub struct ConcatBlocks {
    inputs: usize,
    outputs: usize,
    blocks: Vec<Block>,
}

/// Shaped parallel composition: two blocks of any shapes side by side.
pub struct ConcatDifferentShapeBlocks {
    block1: Box<Block>,
    block2: Box<Block>,
}

/// Recurrent unroll: a hidden state threaded through a row of cells.
pub struct RecurrentBlock {
    state: usize,
    inputs: usize,
    outputs: usize,
    blocks: Vec<Block>,
}

/// True iff a call of `f` may return a block whose model is `c`.
pub open spec fn makes<T: Component, F: Fn() -> T>(f: F, c: Circuit) -> bool {
    exists|t: T| #[trigger] f.ensures((), t) && t@ == c
}

/// The models of a row of blocks.
pub open spec fn views(blocks: Seq<Block>) -> Seq<Circuit> {
    Seq::new(blocks.len(), |i: int| blocks[i]@)
}

impl Block {
    /// The mathematical model of the block.
    pub open spec fn model(&self) -> Circuit
        decreases self,
    {
        match self {
            Block::Constant(g) => g@,
            Block::And(g) => g@,
            Block::Or(g) => g@,
            Block::Not(g) => g@,
            Block::Buffer(g) => g@,
            Block::Branch(g) => g@,
            Block::Wiring(g) => g@,
            Block::DebugLayer(g) => g@,
            Block::Clock(g) => g@,
            Block::DetectClockWake(g) => g@,
            Block::RSFlipFlop(g) => g@,
            Block::MergeLayers(g) => g.model(),
            Block::ConcatBlocks(g) => g.model(),
            Block::ConcatDifferentShapeBlocks(g) => g.model(),
            Block::RecurrentBlock(g) => g.model(),
        }
    }
}

impl MergeLayers {
    /// The mathematical model: the first layer followed by the second.
    pub closed spec fn model(&self) -> Circuit
        decreases self,
    {
        Circuit::Serial(Box::new(self.layer1.model()), Box::new(self.layer2.model()))
    }
}

impl ConcatDifferentShapeBlocks {
    /// The mathematical model: the first block beside the second.
    pub closed spec fn model(&self) -> Circuit
        decreases self,
    {
        Circuit::Pair(Box::new(self.block1.model()), Box::new(self.block2.model()))
    }
}

impl ConcatBlocks {
    /// The mathematical model: the models of the blocks side by side.
    pub closed spec fn model(&self) -> Circuit
        decreases self,
    {
        Circuit::Parallel {
            inputs: self.inputs as nat,
            outputs: self.outputs as nat,
            cells: Seq::new(
                self.blocks@.len(),
                |i: int|
                    if 0 <= i < self.blocks@.len() {
                        self.blocks@[i].model()
                    } else {
                        Circuit::Not
                    },
            ),
        }
    }

    proof fn lemma_model(&self)
        ensures
            self.model() == (Circuit::Parallel {
                inputs: self.inputs as nat,
                outputs: self.outputs as nat,
                cells: views(self.blocks@),
            }),
    {
        assert(self.model()->Parallel_cells =~= views(self.blocks@));
    }
}

impl RecurrentBlock {
    /// The mathematical model: the models of the cells in a chain.
    pub closed spec fn model(&self) -> Circuit
        decreases self,
    {
        Circuit::Recurrent {
            state: self.state as nat,
            inputs: self.inputs as nat,
            outputs: self.outputs as nat,
            cells: Seq::new(
                self.blocks@.len(),
                |i: int|
                    if 0 <= i < self.blocks@.len() {
                        self.blocks@[i].model()
                    } else {
                        Circuit::Not
                    },
            ),
        }
    }

    proof fn lemma_model(&self)
        ensures
            self.model() == (Circuit::Recurrent {
                state: self.state as nat,
                inputs: self.inputs as nat,
                outputs: self.outputs as nat,
                cells: views(self.blocks@),
            }),
    {
        assert(self.model()->Recurrent_cells =~= views(self.blocks@));
    }
}

impl View for Block {
    type V = Circuit;

    open spec fn view(&self) -> Circuit {
        self.model()
    }
}

impl View for DebugLayer {
    type V = Circuit;

    closed spec fn view(&self) -> Circuit {
        Circuit::Probe { width: self.width as nat }
    }
}

impl View for MergeLayers {
    type V = Circuit;

    open spec fn view(&self) -> Circuit {
        self.model()
    }
}

impl View for ConcatBlocks {
    type V = Circuit;

    open spec fn view(&self) -> Circuit {
        self.model()
    }
}

impl View for ConcatDifferentShapeBlocks {
    type V = Circuit;

    open spec fn view(&self) -> Circuit {
        self.model()
    }
}

impl View for RecurrentBlock {
    type V = Circuit;

    open spec fn view(&self) -> Circuit {
        self.model()
    }
}

/// Appends a copy of `tail` to `out`.
fn append_slice(out: &mut Vec<bool>, tail: &[bool])
    ensures
        final(out)@ == old(out)@ + tail@,
{
    let mut k: usize = 0;
    while k < tail.len()
        invariant
            k <= tail.len(),
            out@ == old(out)@ + tail@.take(k as int),
        decreases tail.len() - k,
    {
        out.push(tail[k]);
        k += 1;
        assert(out@ =~= old(out)@ + tail@.take(k as int));
    }
    assert(tail@.take(k as int) =~= tail@);
}

impl Component for Block {
    fn input_width(&self) -> (w: usize)
        decreases self,
    {
        match self {
            Block::Constant(g) => g.input_width(),
            Block::And(g) => g.input_width(),
            Block::Or(g) => g.input_width(),
            Block::Not(g) => g.input_width(),
            Block::Buffer(g) => g.input_width(),
            Block::Branch(g) => g.input_width(),
            Block::Wiring(g) => g.input_width(),
            Block::DebugLayer(g) => g.input_width(),
            Block::Clock(g) => g.input_width(),
            Block::DetectClockWake(g) => g.input_width(),
            Block::RSFlipFlop(g) => g.input_width(),
            Block::MergeLayers(g) => g.input_width(),
            Block::ConcatBlocks(g) => g.input_width(),
            Block::ConcatDifferentShapeBlocks(g) => g.input_width(),
            Block::RecurrentBlock(g) => g.input_width(),
        }
    }

    fn output_width(&self) -> (w: usize)
        decreases self,
    {
        match self {
            Block::Constant(g) => g.output_width(),
            Block::And(g) => g.output_width(),
            Block::Or(g) => g.output_width(),
            Block::Not(g) => g.output_width(),
            Block::Buffer(g) => g.output_width(),
            Block::Branch(g) => g.output_width(),
            Block::Wiring(g) => g.output_width(),
            Block::DebugLayer(g) => g.output_width(),
            Block::Clock(g) => g.output_width(),
            Block::DetectClockWake(g) => g.output_width(),
            Block::RSFlipFlop(g) => g.output_width(),
            Block::MergeLayers(g) => g.output_width(),
            Block::ConcatBlocks(g) => g.output_width(),
            Block::ConcatDifferentShapeBlocks(g) => g.output_width(),
            Block::RecurrentBlock(g) => g.output_width(),
        }
    }

    fn eval(&self, input: &[bool]) -> (out: Vec<bool>)
        decreases self,
    {
        match self {
            Block::Constant(g) => g.eval(input),
            Block::And(g) => g.eval(input),
            Block::Or(g) => g.eval(input),
            Block::Not(g) => g.eval(input),
            Block::Buffer(g) => g.eval(input),
            Block::Branch(g) => g.eval(input),
            Block::Wiring(g) => g.eval(input),
            Block::DebugLayer(g) => g.eval(input),
            Block::Clock(g) => g.eval(input),
            Block::DetectClockWake(g) => g.eval(input),
            Block::RSFlipFlop(g) => g.eval(input),
            Block::MergeLayers(g) => g.eval(input),
            Block::ConcatBlocks(g) => g.eval(input),
            Block::ConcatDifferentShapeBlocks(g) => g.eval(input),
            Block::RecurrentBlock(g) => g.eval(input),
        }
    }

    fn eval_mut(&mut self, input: &[bool]) -> (out: Vec<bool>)
        decreases *old(self),
    {
        match self {
            Block::Constant(g) => g.eval_mut(input),
            Block::And(g) => g.eval_mut(input),
            Block::Or(g) => g.eval_mut(input),
            Block::Not(g) => g.eval_mut(input),
            Block::Buffer(g) => g.eval_mut(input),
            Block::Branch(g) => g.eval_mut(input),
            Block::Wiring(g) => g.eval_mut(input),
            Block::DebugLayer(g) => g.eval_mut(input),
            Block::Clock(g) => g.eval_mut(input),
            Block::DetectClockWake(g) => g.eval_mut(input),
            Block::RSFlipFlop(g) => g.eval_mut(input),
            Block::MergeLayers(g) => g.eval_mut(input),
            Block::ConcatBlocks(g) => g.eval_mut(input),
            Block::ConcatDifferentShapeBlocks(g) => g.eval_mut(input),
            Block::RecurrentBlock(g) => g.eval_mut(input),
        }
    }

    fn into_block(self) -> (b: Block) {
        self
    }
}

impl DebugLayer {
    /// A pass-through layer for a bus of `width` wires.
    pub fn new(width: usize) -> (r: Self)
        ensures
            r@ == (Circuit::Probe { width: width as nat }),
            r@.realizable(),
    {
        Self { width }
    }
}

impl Component for DebugLayer {
    fn input_width(&self) -> (w: usize) {
        self.width
    }

    fn output_width(&self) -> (w: usize) {
        self.width
    }

    fn eval(&self, input: &[bool]) -> (out: Vec<bool>) {
        slice_to_vec(input)
    }

    fn eval_mut(&mut self, input: &[bool]) -> (out: Vec<bool>) {
        self.eval(input)
    }

    fn into_block(self) -> (b: Block) {
        Block::DebugLayer(self)
    }
}

impl MergeLayers {
    /// Serial composition: the output of `layer1` feeds `layer2`.
    pub fn create(layer1: Block, layer2: Block) -> (r: Self)
        requires
            layer1@.realizable(),
            layer2@.realizable(),
            layer1@.output_width() == layer2@.input_width(),
        ensures
            r@ == Circuit::Serial(Box::new(layer1@), Box::new(layer2@)),
            r@.realizable(),
    {
        Self { layer1: Box::new(layer1), layer2: Box::new(layer2) }
    }

    /// As `create`, with a pass-through layer between the two.
    pub fn debug(layer1: Block, layer2: Block) -> (r: Self)
        requires
            layer1@.realizable(),
            layer2@.realizable(),
            layer1@.output_width() == layer2@.input_width(),
        ensures
            r@ == Circuit::Serial(
                Box::new(
                    Circuit::Serial(
                        Box::new(layer1@),
                        Box::new(Circuit::Probe { width: layer1@.output_width() }),
                    ),
                ),
                Box::new(layer2@),
            ),
            r@.realizable(),
    {
        let width = layer1.output_width();
        let debug_layer = DebugLayer::new(width).into_block();
        assert(debug_layer@.realizable());
        let probed = MergeLayers::create(layer1, debug_layer);
        assert(probed@.realizable());
        probed.connect_to(layer2)
    }

    /// This chain followed by `next_layer`.
    pub fn connect_to(self, next_layer: Block) -> (r: Self)
        requires
            self@.realizable(),
            next_layer@.realizable(),
            self@.output_width() == next_layer@.input_width(),
        ensures
            r@ == Circuit::Serial(Box::new(self@), Box::new(next_layer@)),
            r@.realizable(),
    {
        MergeLayers::create(Block::MergeLayers(self), next_layer)
    }

    /// As `connect_to`, with a pass-through layer before `next_layer`.
    pub fn debug_connect(self, next_layer: Block) -> (r: Self)
        requires
            self@.realizable(),
            next_layer@.realizable(),
            self@.output_width() == next_layer@.input_width(),
        ensures
            r@ == Circuit::Serial(
                Box::new(
                    Circuit::Serial(
                        Box::new(self@),
                        Box::new(Circuit::Probe { width: self@.output_width() }),
                    ),
                ),
                Box::new(next_layer@),
            ),
            r@.realizable(),
    {
        let width = self.output_width();
        let debug_layer = DebugLayer::new(width).into_block();
        assert(debug_layer@.realizable());
        let probed = self.connect_to(debug_layer);
        assert(probed@.realizable());
        probed.connect_to(next_layer)
    }
}

impl Component for MergeLayers {
    fn input_width(&self) -> (w: usize)
        decreases self,
    {
        self.layer1.input_width()
    }

    fn output_width(&self) -> (w: usize)
        decreases self,
    {
        self.layer2.output_width()
    }

    fn eval(&self, input: &[bool]) -> (out: Vec<bool>)
        decreases self,
    {
        let mid = self.layer1.eval(input);
        self.layer2.eval(mid.as_slice())
    }

    fn eval_mut(&mut self, input: &[bool]) -> (out: Vec<bool>)
        decreases *old(self),
    {
        proof {
            lemma_step_shape(old(self)@, input@, usize::MAX as nat);
        }
        let mid = self.layer1.eval_mut(input);
        self.layer2.eval_mut(mid.as_slice())
    }

    fn into_block(self) -> (b: Block) {
        Block::MergeLayers(self)
    }
}

impl ConcatDifferentShapeBlocks {
    /// Shaped parallel composition: `block1` sees the first wires of the
    /// input, `block2` the rest; the outputs are concatenated in that order.
    pub fn create(block1: Block, block2: Block) -> (r: Self)
        requires
            block1@.realizable(),
            block2@.realizable(),
            block1@.input_width() + block2@.input_width() <= usize::MAX,
            block1@.output_width() + block2@.output_width() <= usize::MAX,
        ensures
            r@ == Circuit::Pair(Box::new(block1@), Box::new(block2@)),
            r@.realizable(),
    {
        Self { block1: Box::new(block1), block2: Box::new(block2) }
    }
}

impl Component for ConcatDifferentShapeBlocks {
    fn input_width(&self) -> (w: usize)
        decreases self,
    {
        self.block1.input_width() + self.block2.input_width()
    }

    fn output_width(&self) -> (w: usize)
        decreases self,
    {
        self.block1.output_width() + self.block2.output_width()
    }

    fn eval(&self, input: &[bool]) -> (out: Vec<bool>)
        decreases self,
    {
        let split = self.block1.input_width();
        let mut out = self.block1.eval(slice_subrange(input, 0, split));
        let mut rest = self.block2.eval(slice_subrange(input, split, input.len()));
        out.append(&mut rest);
        out
    }

    fn eval_mut(&mut self, input: &[bool]) -> (out: Vec<bool>)
        decreases *old(self),
    {
        proof {
            lemma_step_shape(old(self)@, input@, usize::MAX as nat);
        }
        let split = self.block1.input_width();
        let mut out = self.block1.eval_mut(slice_subrange(input, 0, split));
        let mut rest = self.block2.eval_mut(slice_subrange(input, split, input.len()));
        out.append(&mut rest);
        out
    }

    fn into_block(self) -> (b: Block) {
        Block::ConcatDifferentShapeBlocks(self)
    }
}

impl ConcatBlocks {
    /// Uniform parallel composition of `blocks`, each of shape
    /// `inputs → outputs`: block `i` sees slice `i` of the input, and the
    /// outputs are concatenated in the same order.
    pub fn create(inputs: usize, outputs: usize, blocks: Vec<Block>) -> (r: Self)
        requires
            forall|i: int|
                0 <= i < blocks@.len() ==> (#[trigger] blocks@[i])@.realizable()
                    && blocks@[i]@.input_width() == inputs && blocks@[i]@.output_width()
                    == outputs,
            blocks@.len() * inputs <= usize::MAX,
            blocks@.len() * outputs <= usize::MAX,
        ensures
            r@ == (Circuit::Parallel {
                inputs: inputs as nat,
                outputs: outputs as nat,
                cells: views(blocks@),
            }),
            r@.realizable(),
    {
        let r = Self { inputs, outputs, blocks };
        proof {
            r.lemma_model();
            assert forall|i: int| 0 <= i < blocks@.len() implies (#[trigger] views(
                blocks@,
            )[i]).realizable() && views(blocks@)[i].input_width() == inputs && views(
                blocks@,
            )[i].output_width() == outputs by {
                assert(blocks@[i]@.realizable());
            }
        }
        r
    }

    /// Uniform parallel composition of `count` blocks, each made by a call
    /// of `f`.
    pub fn create_from_fn<T: Component, F: Fn() -> T>(
        inputs: usize,
        outputs: usize,
        count: usize,
        f: F,
    ) -> (r: Self)
        requires
            count * inputs <= usize::MAX,
            count * outputs <= usize::MAX,
            f.requires(()),
            forall|t: T| #[trigger]
                f.ensures((), t) ==> t@.realizable() && t@.input_width() == inputs
                    && t@.output_width() == outputs,
        ensures
            r@ matches Circuit::Parallel { inputs: i, outputs: o, cells } && i == inputs && o
                == outputs && cells.len() == count && forall|k: int|
                0 <= k < count ==> makes(f, #[trigger] cells[k]),
            r@.realizable(),
    {
        let blocks = made_by(count, f);
        let r = Self { inputs, outputs, blocks };
        proof {
            r.lemma_model();
            assert forall|k: int| 0 <= k < count implies (#[trigger] views(
                blocks@,
            )[k]).realizable() && views(blocks@)[k].input_width() == inputs && views(
                blocks@,
            )[k].output_width() == outputs by {
                assert(makes(f, views(blocks@)[k]));
            }
        }
        r
    }
}

/// A row of `count` blocks, each made by a call of `f`.
fn made_by<T: Component, F: Fn() -> T>(count: usize, f: F) -> (blocks: Vec<Block>)
    requires
        f.requires(()),
    ensures
        blocks@.len() == count,
        forall|k: int| 0 <= k < count ==> makes(f, #[trigger] views(blocks@)[k]),
{
    let mut blocks: Vec<Block> = Vec::new();
    let mut k: usize = 0;
    while k < count
        invariant
            k <= count,
            blocks@.len() == k,
            f.requires(()),
            forall|j: int| 0 <= j < k ==> makes(f, #[trigger] views(blocks@)[j]),
        decreases count - k,
    {
        let made = f();
        let ghost witness = made;
        let block = made.into_block();
        let ghost before = blocks@;
        blocks.push(block);
        assert forall|j: int| 0 <= j < k + 1 implies makes(f, #[trigger] views(blocks@)[j]) by {
            if j < k {
                assert(views(blocks@)[j] == views(before)[j]);
            } else {
                assert(f.ensures((), witness) && views(blocks@)[j] == witness@);
            }
        }
        k += 1;
    }
    blocks
}

impl Component for ConcatBlocks {
    fn input_width(&self) -> (w: usize) {
        proof {
            self.lemma_model();
        }
        self.blocks.len() * self.inputs
    }

    fn output_width(&self) -> (w: usize) {
        proof {
            self.lemma_model();
        }
        self.blocks.len() * self.outputs
    }

    fn eval(&self, input: &[bool]) -> (out: Vec<bool>)
        decreases self,
    {
        let ghost cells = views(self.blocks@);
        let ghost fs = evals(cells);
        proof {
            self.lemma_model();
            lemma_parallel_eval(self.inputs as nat, self.outputs as nat, cells, input@);
            lemma_eval_shape(self@, input@);
            assert forall|j: int| 0 <= j < self.blocks@.len() implies (
            #[trigger] self.blocks@[j])@.realizable() && self.blocks@[j]@.input_width()
                == self.inputs by {
                assert(cells[j] == self.blocks@[j]@);
            }
        }
        let n = self.blocks.len();
        let total = input.len();
        let mut out: Vec<bool> = Vec::new();
        let mut i: usize = 0;
        let mut off: usize = 0;
        while i < n
            invariant
                i <= n,
                total == input@.len(),
                n == self.blocks@.len(),
                off == i * self.inputs,
                input@.len() == n * self.inputs,
                cells == views(self.blocks@),
                fs == evals(cells),
                forall|j: int|
                    0 <= j < n ==> (#[trigger] self.blocks@[j])@.realizable()
                        && self.blocks@[j]@.input_width() == self.inputs,
                forall|j: int| 0 <= j < n ==> decreases_to!(self => self.blocks@[j]),
                out@ == concat_all(parts(fs, self.inputs as nat, input@), i as nat),
            decreases n - i,
        {
            proof {
                lemma_chunk_bounds(i as int, n as int, self.inputs as nat);
            }
            let piece = slice_subrange(input, off, off + self.inputs);
            assert(piece@ == chunk(input@, i as int, self.inputs as nat));
            assert(decreases_to!(self => self.blocks@[i as int]));
            let mut part = self.blocks[i].eval(piece);
            assert(part@ == parts(fs, self.inputs as nat, input@)[i as int]) by {
                assert(cells[i as int] == self.blocks@[i as int]@);
            }
            out.append(&mut part);
            off = off + self.inputs;
            i += 1;
        }
        out
    }

    fn eval_mut(&mut self, input: &[bool]) -> (out: Vec<bool>)
        decreases *old(self),
    {
        let ghost before = self.blocks@;
        let ghost cells = views(before);
        let ghost fs = outputs_of(cells);
        proof {
            self.lemma_model();
            lemma_parallel_step(self.inputs as nat, self.outputs as nat, cells, input@);
            lemma_step_shape(self@, input@, usize::MAX as nat);
            assert forall|j: int| 0 <= j < before.len() implies (#[trigger] before[j])@.realizable()
                && before[j]@.input_width() == self.inputs by {
                assert(cells[j] == before[j]@);
            }
        }
        let n = self.blocks.len();
        let total = input.len();
        let mut out: Vec<bool> = Vec::new();
        let mut i: usize = 0;
        let mut off: usize = 0;
        while i < n
            invariant
                i <= n,
                total == input@.len(),
                n == self.blocks@.len(),
                n == before.len(),
                self.inputs == old(self).inputs,
                self.outputs == old(self).outputs,
                off == i * self.inputs,
                input@.len() == n * self.inputs,
                cells == views(before),
                fs == outputs_of(cells),
                forall|j: int|
                    0 <= j < n ==> (#[trigger] before[j])@.realizable() && before[j]@.input_width()
                        == self.inputs,
                forall|j: int| i <= j < n ==> self.blocks@[j] == before[j],
                forall|j: int|
                    0 <= j < i ==> (#[trigger] self.blocks@[j])@ == before[j]@.next(
                        chunk(input@, j, self.inputs as nat),
                    ),
                forall|j: int| 0 <= j < n ==> decreases_to!(*old(self) => before[j]),
                out@ == concat_all(parts(fs, self.inputs as nat, input@), i as nat),
            decreases n - i,
        {
            proof {
                lemma_chunk_bounds(i as int, n as int, self.inputs as nat);
            }
            let piece = slice_subrange(input, off, off + self.inputs);
            assert(piece@ == chunk(input@, i as int, self.inputs as nat));
            assert(self.blocks@[i as int] == before[i as int]);
            assert(decreases_to!(*old(self) => before[i as int]));
            let mut part = self.blocks[i].eval_mut(piece);
            assert(part@ == parts(fs, self.inputs as nat, input@)[i as int]) by {
                assert(cells[i as int] == before[i as int]@);
            }
            out.append(&mut part);
            off = off + self.inputs;
            i += 1;
        }
        proof {
            self.lemma_model();
            let after = old(self)@.next(input@)->Parallel_cells;
            assert forall|j: int| 0 <= j < n implies views(self.blocks@)[j] == after[j] by {
                assert(cells[j] == before[j]@);
            }
            assert(views(self.blocks@) =~= after);
            if old(self)@.stateless() {
                lemma_stateless_step(old(self)@, input@);
            }
        }
        out
    }

    fn into_block(self) -> (b: Block) {
        Block::ConcatBlocks(self)
    }
}

impl RecurrentBlock {
    /// Recurrent unroll over `blocks`, each of shape
    /// `state + inputs → outputs + state`: cell `i` is fed the hidden state
    /// that reaches it and slice `i` of the input, and hands on the state it
    /// returns. The output is every cell's output in order, then the state
    /// that leaves the last cell.
    pub fn create(state: usize, inputs: usize, outputs: usize, blocks: Vec<Block>) -> (r: Self)
        requires
            forall|i: int|
                0 <= i < blocks@.len() ==> (#[trigger] blocks@[i])@.realizable()
                    && blocks@[i]@.input_width() == state + inputs && blocks@[i]@.output_width()
                    == outputs + state,
            state + blocks@.len() * inputs <= usize::MAX,
            blocks@.len() * outputs + state <= usize::MAX,
        ensures
            r@ == (Circuit::Recurrent {
                state: state as nat,
                inputs: inputs as nat,
                outputs: outputs as nat,
                cells: views(blocks@),
            }),
            r@.realizable(),
    {
        let r = Self { state, inputs, outputs, blocks };
        proof {
            r.lemma_model();
            assert forall|i: int| 0 <= i < blocks@.len() implies (#[trigger] views(
                blocks@,
            )[i]).realizable() && views(blocks@)[i].input_width() == state + inputs && views(
                blocks@,
            )[i].output_width() == outputs + state by {
                assert(blocks@[i]@.realizable());
            }
        }
        r
    }

    /// Recurrent unroll over `count` cells, each made by a call of `f`.
    pub fn create_from_fn<T: Component, F: Fn() -> T>(
        state: usize,
        inputs: usize,
        outputs: usize,
        count: usize,
        f: F,
    ) -> (r: Self)
        requires
            state + count * inputs <= usize::MAX,
            count * outputs + state <= usize::MAX,
            f.requires(()),
            forall|t: T| #[trigger]
                f.ensures((), t) ==> t@.realizable() && t@.input_width() == state + inputs
                    && t@.output_width() == outputs + state,
        ensures
            r@ matches Circuit::Recurrent { state: s, inputs: i, outputs: o, cells } && s == state
                && i == inputs && o == outputs && cells.len() == count && forall|k: int|
                0 <= k < count ==> makes(f, #[trigger] cells[k]),
            r@.realizable(),
    {
        let blocks = made_by(count, f);
        let r = Self { state, inputs, outputs, blocks };
        proof {
            r.lemma_model();
            assert forall|k: int| 0 <= k < count implies (#[trigger] views(
                blocks@,
            )[k]).realizable() && views(blocks@)[k].input_width() == state + inputs && views(
                blocks@,
            )[k].output_width() == outputs + state by {
                assert(makes(f, views(blocks@)[k]));
            }
        }
        r
    }
}

impl Component for RecurrentBlock {
    fn input_width(&self) -> (w: usize) {
        proof {
            self.lemma_model();
        }
        self.state + self.blocks.len() * self.inputs
    }

    fn output_width(&self) -> (w: usize) {
        proof {
            self.lemma_model();
        }
        self.blocks.len() * self.outputs + self.state
    }

    fn eval(&self, input: &[bool]) -> (out: Vec<bool>)
        decreases self,
    {
        let ghost cells = views(self.blocks@);
        let ghost fs = evals(cells);
        let ghost state = self.state as nat;
        let ghost inputs = self.inputs as nat;
        let ghost outputs = self.outputs as nat;
        proof {
            self.lemma_model();
            lemma_recurrent_eval(state, inputs, outputs, cells, input@);
            lemma_eval_shape(self@, input@);
            assert forall|j: int| 0 <= j < self.blocks@.len() implies (
            #[trigger] self.blocks@[j])@.realizable() && self.blocks@[j]@.input_width() == state
                + inputs && self.blocks@[j]@.output_width() == outputs + state by {
                assert(cells[j] == self.blocks@[j]@);
            }
            assert forall|j: int, v: Seq<bool>|
                0 <= j < fs.len() && v.len() == state + inputs implies (#[trigger] fs[j](v)).len()
                == outputs + state by {
                assert(cells[j] == self.blocks@[j]@);
                lemma_eval_shape(cells[j], v);
            }
        }
        let n = self.blocks.len();
        let head = slice_subrange(input, 0, self.state);
        let xs = slice_subrange(input, self.state, input.len());
        let mut acc = slice_to_vec(head);
        let rest = xs.len();
        let mut out: Vec<bool> = Vec::new();
        let mut i: usize = 0;
        let mut off: usize = 0;
        while i < n
            invariant
                i <= n,
                rest == xs@.len(),
                n == self.blocks@.len(),
                off == i * self.inputs,
                state == self.state,
                inputs == self.inputs,
                outputs == self.outputs,
                head@.len() == state,
                xs@.len() == n * inputs,
                cells == views(self.blocks@),
                fs == evals(cells),
                forall|j: int|
                    0 <= j < n ==> (#[trigger] self.blocks@[j])@.realizable()
                        && self.blocks@[j]@.input_width() == state + inputs
                        && self.blocks@[j]@.output_width() == outputs + state,
                forall|j: int, v: Seq<bool>|
                    0 <= j < fs.len() && v.len() == state + inputs ==> (#[trigger] fs[j](v)).len()
                        == outputs + state,
                forall|j: int| 0 <= j < n ==> decreases_to!(self => self.blocks@[j]),
                acc@ == carried(fs, inputs, outputs, head@, xs@, i as nat),
                out@ == emitted(fs, inputs, outputs, head@, xs@, i as nat),
            decreases n - i,
        {
            proof {
                lemma_chunk_bounds(i as int, n as int, inputs);
                lemma_chain_shape(fs, state, inputs, outputs, head@, xs@, i as nat);
            }
            let mut cell_in = acc;
            append_slice(&mut cell_in, slice_subrange(xs, off, off + self.inputs));
            assert(cell_in@ == carried(fs, inputs, outputs, head@, xs@, i as nat) + chunk(
                xs@,
                i as int,
                inputs,
            ));
            assert(decreases_to!(self => self.blocks@[i as int]));
            let produced = self.blocks[i].eval(cell_in.as_slice());
            assert(produced@ == fs[i as int](cell_in@)) by {
                assert(cells[i as int] == self.blocks@[i as int]@);
            }
            append_slice(&mut out, slice_subrange(produced.as_slice(), 0, self.outputs));
            acc = slice_to_vec(slice_subrange(produced.as_slice(), self.outputs, produced.len()));
            off = off + self.inputs;
            i += 1;
        }
        out.append(&mut acc);
        out
    }

    fn eval_mut(&mut self, input: &[bool]) -> (out: Vec<bool>)
        decreases *old(self),
    {
        let ghost before = self.blocks@;
        let ghost cells = views(before);
        let ghost fs = outputs_of(cells);
        let ghost state = self.state as nat;
        let ghost inputs = self.inputs as nat;
        let ghost outputs = self.outputs as nat;
        proof {
            self.lemma_model();
            lemma_recurrent_step(state, inputs, outputs, cells, input@);
            lemma_step_shape(self@, input@, usize::MAX as nat);
            assert forall|j: int| 0 <= j < before.len() implies (#[trigger] before[j])@.realizable()
                && before[j]@.input_width() == state + inputs && before[j]@.output_width()
                == outputs + state by {
                assert(cells[j] == before[j]@);
            }
            assert forall|j: int, v: Seq<bool>|
                0 <= j < fs.len() && v.len() == state + inputs implies (#[trigger] fs[j](v)).len()
                == outputs + state by {
                assert(cells[j] == before[j]@);
                lemma_step_shape(cells[j], v, usize::MAX as nat);
            }
        }
        let n = self.blocks.len();
        let head = slice_subrange(input, 0, self.state);
        let xs = slice_subrange(input, self.state, input.len());
        let mut acc = slice_to_vec(head);
        let rest = xs.len();
        let mut out: Vec<bool> = Vec::new();
        let mut i: usize = 0;
        let mut off: usize = 0;
        while i < n
            invariant
                i <= n,
                rest == xs@.len(),
                n == self.blocks@.len(),
                n == before.len(),
                self.state == old(self).state,
                self.inputs == old(self).inputs,
                self.outputs == old(self).outputs,
                off == i * self.inputs,
                state == self.state,
                inputs == self.inputs,
                outputs == self.outputs,
                head@ == input@.take(state as int),
                xs@ == input@.skip(state as int),
                head@.len() == state,
                xs@.len() == n * inputs,
                cells == views(before),
                fs == outputs_of(cells),
                forall|j: int|
                    0 <= j < n ==> (#[trigger] before[j])@.realizable() && before[j]@.input_width()
                        == state + inputs && before[j]@.output_width() == outputs + state,
                forall|j: int, v: Seq<bool>|
                    0 <= j < fs.len() && v.len() == state + inputs ==> (#[trigger] fs[j](v)).len()
                        == outputs + state,
                forall|j: int| i <= j < n ==> self.blocks@[j] == before[j],
                forall|j: int|
                    0 <= j < i ==> (#[trigger] self.blocks@[j])@ == before[j]@.next(
                        fed(fs, state, inputs, outputs, input@, j),
                    ),
                forall|j: int| 0 <= j < n ==> decreases_to!(*old(self) => before[j]),
                acc@ == carried(fs, inputs, outputs, head@, xs@, i as nat),
                out@ == emitted(fs, inputs, outputs, head@, xs@, i as nat),
            decreases n - i,
        {
            proof {
                lemma_chunk_bounds(i as int, n as int, inputs);
                lemma_chain_shape(fs, state, inputs, outputs, head@, xs@, i as nat);
            }
            let mut cell_in = acc;
            append_slice(&mut cell_in, slice_subrange(xs, off, off + self.inputs));
            assert(cell_in@ == fed(fs, state, inputs, outputs, input@, i as int));
            assert(self.blocks@[i as int] == before[i as int]);
            assert(decreases_to!(*old(self) => before[i as int]));
            let produced = self.blocks[i].eval_mut(cell_in.as_slice());
            assert(produced@ == fs[i as int](cell_in@)) by {
                assert(cells[i as int] == before[i as int]@);
            }
            append_slice(&mut out, slice_subrange(produced.as_slice(), 0, self.outputs));
            acc = slice_to_vec(slice_subrange(produced.as_slice(), self.outputs, produced.len()));
            off = off + self.inputs;
            i += 1;
        }
        out.append(&mut acc);
        proof {
            self.lemma_model();
            let after = old(self)@.next(input@)->Recurrent_cells;
            assert forall|j: int| 0 <= j < n implies views(self.blocks@)[j] == after[j] by {
                assert(cells[j] == before[j]@);
            }
            assert(views(self.blocks@) =~= after);
            if old(self)@.stateless() {
                lemma_stateless_step(old(self)@, input@);
            }
        }
        out
    }

    fn into_block(self) -> (b: Block) {
        Block::RecurrentBlock(self)
    }
}

/// Two to the power `n`.
pub fn pow2(n: usize) -> (r: usize)
    requires
        vstd::arithmetic::power2::pow2(n as nat) <= usize::MAX,
    ensures
        r == vstd::arithmetic::power2::pow2(n as nat),
{
    let mut r: usize = 1;
    let mut i: usize = 0;
    proof {
        vstd::arithmetic::power2::lemma2_to64();
    }
    while i < n
        invariant
            i <= n,
            r == vstd::arithmetic::power2::pow2(i as nat),
            vstd::arithmetic::power2::pow2(n as nat) <= usize::MAX,
        decreases n - i,
    {
        proof {
            vstd::arithmetic::power2::lemma_pow2_unfold((i + 1) as nat);
            if i + 1 < n {
                vstd::arithmetic::power2::lemma_pow2_strictly_increases((i + 1) as nat, n as nat);
            }
        }
        r = 2 * r;
        i += 1;
    }
    r
}

} // verus!
