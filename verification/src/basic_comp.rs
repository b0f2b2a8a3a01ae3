//! The combinational gates, and the first blocks composed from them.
use crate::blocks::{Block, Component, ConcatBlocks, MergeLayers};
use crate::circuit::{all_true, any_true, chunk, Circuit};
use crate::laws::{combinational, lemma_parallel_bit, lemma_parallel_shape, lemma_serial, serial};
use crate::wiring::Wiring;
use vstd::prelude::*;

verus! {

/// Emits one fixed value on every output wire, whatever it is fed.
#[derive(Debug, Clone, Copy)]
pub struct Constant {
    inputs: usize,
    outputs: usize,
    value: bool,
}

impl View for Constant {
    type V = Circuit;

    closed spec fn view(&self) -> Circuit {
        Circuit::Constant {
            inputs: self.inputs as nat,
            outputs: self.outputs as nat,
            value: self.value,
        }
    }
}

impl Constant {
    /// A block of shape `inputs → outputs` whose every output is `value`.
    pub fn new(inputs: usize, outputs: usize, value: bool) -> (r: Self)
        ensures
            r@ == (Circuit::Constant { inputs: inputs as nat, outputs: outputs as nat, value }),
            r@.realizable(),
    {
        Self { inputs, outputs, value }
    }
}

impl Component for Constant {
    fn input_width(&self) -> (w: usize) {
        self.inputs
    }

    fn output_width(&self) -> (w: usize) {
        self.outputs
    }

    fn eval(&self, input: &[bool]) -> (out: Vec<bool>) {
        let mut out: Vec<bool> = Vec::new();
        let mut j: usize = 0;
        while j < self.outputs
            invariant
                j <= self.outputs,
                out@.len() == j,
                forall|k: int| 0 <= k < j ==> out@[k] == self.value,
            decreases self.outputs - j,
        {
            out.push(self.value);
            j += 1;
        }
        assert(out@ =~= self@.eval(input@));
        out
    }

    fn eval_mut(&mut self, input: &[bool]) -> (out: Vec<bool>) {
        self.eval(input)
    }

    fn into_block(self) -> (b: Block) {
        Block::Constant(self)
    }
}

/// Conjunction of all its inputs; true on the empty input.
#[derive(Debug, Clone, Copy)]
pub struct And {
    inputs: usize,
}

impl View for And {
    type V = Circuit;

    closed spec fn view(&self) -> Circuit {
        Circuit::And { inputs: self.inputs as nat }
    }
}

impl And {
    /// An AND gate with `inputs` inputs.
    pub fn new(inputs: usize) -> (r: Self)
        ensures
            r@ == (Circuit::And { inputs: inputs as nat }),
            r@.realizable(),
    {
        Self { inputs }
    }
}

impl Component for And {
    fn input_width(&self) -> (w: usize) {
        self.inputs
    }

    fn output_width(&self) -> (w: usize) {
        1
    }

    fn eval(&self, input: &[bool]) -> (out: Vec<bool>) {
        let mut acc = true;
        let mut i: usize = 0;
        while i < input.len()
            invariant
                i <= input.len(),
                acc == all_true(input@.take(i as int)),
            decreases input.len() - i,
        {
            proof {
                let shorter = input@.take(i as int);
                let longer = input@.take(i + 1);
                assert(forall|k: int| 0 <= k < i ==> shorter[k] == longer[k]);
                assert(longer[i as int] == input@[i as int]);
                if all_true(longer) {
                    assert forall|k: int| 0 <= k < shorter.len() implies shorter[k] by {
                        assert(longer[k]);
                    }
                }
            }
            acc = acc && input[i];
            i += 1;
        }
        assert(input@.take(i as int) =~= input@);
        let out = vec![acc];
        assert(out@ =~= seq![acc]);
        out
    }

    fn eval_mut(&mut self, input: &[bool]) -> (out: Vec<bool>) {
        self.eval(input)
    }

    fn into_block(self) -> (b: Block) {
        Block::And(self)
    }
}

/// Disjunction of all its inputs; false on the empty input.
#[derive(Debug, Clone, Copy)]
pub struct Or {
    inputs: usize,
}

impl View for Or {
    type V = Circuit;

    closed spec fn view(&self) -> Circuit {
        Circuit::Or { inputs: self.inputs as nat }
    }
}

impl Or {
    /// An OR gate with `inputs` inputs.
    pub fn new(inputs: usize) -> (r: Self)
        ensures
            r@ == (Circuit::Or { inputs: inputs as nat }),
            r@.realizable(),
    {
        Self { inputs }
    }
}

impl Component for Or {
    fn input_width(&self) -> (w: usize) {
        self.inputs
    }

    fn output_width(&self) -> (w: usize) {
        1
    }

    fn eval(&self, input: &[bool]) -> (out: Vec<bool>) {
        let mut acc = false;
        let mut i: usize = 0;
        while i < input.len()
            invariant
                i <= input.len(),
                acc == any_true(input@.take(i as int)),
            decreases input.len() - i,
        {
            proof {
                let shorter = input@.take(i as int);
                let longer = input@.take(i + 1);
                assert(forall|k: int| 0 <= k < i ==> shorter[k] == longer[k]);
                assert(longer[i as int] == input@[i as int]);
                if any_true(shorter) {
                    let k = choose|k: int| 0 <= k < shorter.len() && shorter[k];
                    assert(longer[k]);
                }
                if any_true(longer) && !input@[i as int] {
                    let k = choose|k: int| 0 <= k < longer.len() && longer[k];
                    assert(shorter[k]);
                }
            }
            acc = acc || input[i];
            i += 1;
        }
        assert(input@.take(i as int) =~= input@);
        let out = vec![acc];
        assert(out@ =~= seq![acc]);
        out
    }

    fn eval_mut(&mut self, input: &[bool]) -> (out: Vec<bool>) {
        self.eval(input)
    }

    fn into_block(self) -> (b: Block) {
        Block::Or(self)
    }
}

/// Logical negation of one wire.
#[derive(Debug, Clone, Copy)]
pub struct Not {}

impl View for Not {
    type V = Circuit;

    open spec fn view(&self) -> Circuit {
        Circuit::Not
    }
}

impl Not {
    /// A NOT gate.
    pub fn new() -> (r: Self)
        ensures
            r@ == Circuit::Not,
            r@.realizable(),
    {
        Self {  }
    }
}

impl Component for Not {
    fn input_width(&self) -> (w: usize) {
        1
    }

    fn output_width(&self) -> (w: usize) {
        1
    }

    fn eval(&self, input: &[bool]) -> (out: Vec<bool>) {
        let out = vec![!input[0]];
        assert(out@ =~= seq![!input@[0]]);
        out
    }

    fn eval_mut(&mut self, input: &[bool]) -> (out: Vec<bool>) {
        self.eval(input)
    }

    fn into_block(self) -> (b: Block) {
        Block::Not(self)
    }
}

/// One wire passed through unchanged.
#[derive(Debug, Clone, Copy)]
pub struct Buffer {}

impl View for Buffer {
    type V = Circuit;

    open spec fn view(&self) -> Circuit {
        Circuit::Buffer
    }
}

impl Buffer {
    /// A buffer.
    pub fn new() -> (r: Self)
        ensures
            r@ == Circuit::Buffer,
            r@.realizable(),
    {
        Self {  }
    }
}

impl Component for Buffer {
    fn input_width(&self) -> (w: usize) {
        1
    }

    fn output_width(&self) -> (w: usize) {
        1
    }

    fn eval(&self, input: &[bool]) -> (out: Vec<bool>) {
        let out = vec![input[0]];
        assert(out@ =~= seq![input@[0]]);
        out
    }

    fn eval_mut(&mut self, input: &[bool]) -> (out: Vec<bool>) {
        self.eval(input)
    }

    fn into_block(self) -> (b: Block) {
        Block::Buffer(self)
    }
}

/// One wire fanned out to several.
#[derive(Debug, Clone, Copy)]
pub struct Branch {
    outputs: usize,
}

impl View for Branch {
    type V = Circuit;

    closed spec fn view(&self) -> Circuit {
        Circuit::Branch { outputs: self.outputs as nat }
    }
}

impl Branch {
    /// A fan-out of one wire to `outputs` wires.
    pub fn new(outputs: usize) -> (r: Self)
        ensures
            r@ == (Circuit::Branch { outputs: outputs as nat }),
            r@.realizable(),
    {
        Self { outputs }
    }
}

impl Component for Branch {
    fn input_width(&self) -> (w: usize) {
        1
    }

    fn output_width(&self) -> (w: usize) {
        self.outputs
    }

    fn eval(&self, input: &[bool]) -> (out: Vec<bool>) {
        let bit = input[0];
        let mut out: Vec<bool> = Vec::new();
        let mut j: usize = 0;
        while j < self.outputs
            invariant
                j <= self.outputs,
                out@.len() == j,
                forall|k: int| 0 <= k < j ==> out@[k] == bit,
            decreases self.outputs - j,
        {
            out.push(bit);
            j += 1;
        }
        assert(out@ =~= self@.eval(input@));
        out
    }

    fn eval_mut(&mut self, input: &[bool]) -> (out: Vec<bool>) {
        self.eval(input)
    }

    fn into_block(self) -> (b: Block) {
        Block::Branch(self)
    }
}

/// The model of a NAND gate: an AND gate followed by a NOT gate.
pub open spec fn nand_circuit(inputs: nat) -> Circuit {
    Circuit::Serial(Box::new(Circuit::And { inputs }), Box::new(Circuit::Not))
}

/// A NAND gate is a well-formed combinational block of shape `inputs → 1`
/// that is false exactly when all its inputs are true.
pub proof fn lemma_nand(inputs: nat)
    ensures
        nand_circuit(inputs).wf(),
        nand_circuit(inputs).stateless(),
        nand_circuit(inputs).input_width() == inputs,
        nand_circuit(inputs).output_width() == 1,
        forall|limit: nat| inputs <= limit && 1 <= limit ==> nand_circuit(inputs).bounded(limit),
        forall|x: Seq<bool>| #[trigger] nand_circuit(inputs).eval(x) == seq![!all_true(x)],
{
    reveal_with_fuel(Circuit::wf, 2);
    reveal_with_fuel(Circuit::stateless, 2);
    reveal_with_fuel(Circuit::bounded, 2);
    reveal_with_fuel(Circuit::input_width, 2);
    reveal_with_fuel(Circuit::output_width, 2);
    reveal_with_fuel(Circuit::eval, 2);
    assert forall|x: Seq<bool>| #[trigger] nand_circuit(inputs).eval(x) == seq![!all_true(x)] by {
        assert(seq![all_true(x)][0] == all_true(x));
    }
}

/// Negated conjunction of all its inputs.
pub struct NAND {
    nand: MergeLayers,
}

impl View for NAND {
    type V = Circuit;

    closed spec fn view(&self) -> Circuit {
        self.nand@
    }
}

impl NAND {
    /// A NAND gate with `inputs` inputs.
    pub fn new(inputs: usize) -> (r: Self)
        ensures
            r@ == nand_circuit(inputs as nat),
            r@.realizable(),
            r@.stateless(),
            r@.input_width() == inputs,
            r@.output_width() == 1,
            forall|x: Seq<bool>| #[trigger] r@.eval(x) == seq![!all_true(x)],
    {
        proof {
            lemma_nand(inputs as nat);
        }
        Self { nand: MergeLayers::create(And::new(inputs).into_block(), Not::new().into_block()) }
    }
}

impl Component for NAND {
    fn input_width(&self) -> (w: usize) {
        self.nand.input_width()
    }

    fn output_width(&self) -> (w: usize) {
        self.nand.output_width()
    }

    fn eval(&self, input: &[bool]) -> (out: Vec<bool>) {
        self.nand.eval(input)
    }

    fn eval_mut(&mut self, input: &[bool]) -> (out: Vec<bool>) {
        self.nand.eval_mut(input)
    }

    fn into_block(self) -> (b: Block) {
        self.nand.into_block()
    }
}

/// The table that presents a bus of `inputs` wires twice over.
pub open spec fn twice_table(inputs: nat) -> Seq<int> {
    Seq::new(2 * inputs, |i: int| i % inputs as int)
}

/// The model of an exclusive-or gate: the inputs are presented to an OR gate
/// and to a NAND gate, and the two verdicts are AND-ed.
pub open spec fn xor_circuit(inputs: nat) -> Circuit {
    Circuit::Serial(
        Box::new(
            Circuit::Serial(
                Box::new(Circuit::Wiring { inputs, table: twice_table(inputs) }),
                Box::new(
                    Circuit::Parallel {
                        inputs,
                        outputs: 1,
                        cells: seq![Circuit::Or { inputs }, nand_circuit(inputs)],
                    },
                ),
            ),
        ),
        Box::new(Circuit::And { inputs: 2 }),
    )
}

/// What an exclusive-or gate computes: some input is true and some input is
/// false.
pub open spec fn xor_of(x: Seq<bool>) -> bool {
    any_true(x) && !all_true(x)
}

/// The two gates of an exclusive-or side by side: fed a bus twice over,
/// they return whether some input is true and whether some input is false.
proof fn lemma_xor_gates(inputs: nat)
    ensures
        ({
            let side = Circuit::Parallel {
                inputs,
                outputs: 1,
                cells: seq![Circuit::Or { inputs }, nand_circuit(inputs)],
            };
            &&& side.wf()
            &&& side.stateless()
            &&& side.input_width() == 2 * inputs
            &&& side.output_width() == 2
            &&& forall|limit: nat| 2 * inputs <= limit && 2 <= limit ==> side.bounded(limit)
            &&& forall|x: Seq<bool>|
                x.len() == inputs ==> #[trigger] side.eval(x + x) == seq![
                    any_true(x),
                    !all_true(x),
                ]
        }),
{
    lemma_nand(inputs);
    let cells = seq![Circuit::Or { inputs }, nand_circuit(inputs)];
    let side = Circuit::Parallel { inputs, outputs: 1, cells };
    assert(cells[0] == Circuit::Or { inputs });
    assert(cells[1] == nand_circuit(inputs));
    assert(cells[0].wf() && cells[0].stateless());
    lemma_parallel_shape(inputs, 1, cells);
    assert forall|limit: nat| 2 * inputs <= limit && 2 <= limit implies side.bounded(limit) by {
        assert(cells[0].bounded(limit));
        assert(cells[1].bounded(limit));
    }
    assert forall|x: Seq<bool>| x.len() == inputs implies #[trigger] side.eval(x + x) == seq![
        any_true(x),
        !all_true(x),
    ] by {
        let doubled = x + x;
        lemma_parallel_bit(inputs, 1, cells, doubled, 0, 0);
        lemma_parallel_bit(inputs, 1, cells, doubled, 1, 0);
        assert(chunk(doubled, 0, inputs) =~= x);
        assert(chunk(doubled, 1, inputs) =~= x);
        assert(side.eval(doubled) =~= seq![any_true(x), !all_true(x)]);
    }
}

/// An exclusive-or gate is a well-formed combinational block of shape
/// `inputs → 1` that is true exactly when its inputs are not all equal.
pub proof fn lemma_xor(inputs: nat)
    ensures
        xor_circuit(inputs).wf(),
        xor_circuit(inputs).stateless(),
        xor_circuit(inputs).input_width() == inputs,
        xor_circuit(inputs).output_width() == 1,
        forall|limit: nat| 2 * inputs <= limit && 2 <= limit ==> xor_circuit(inputs).bounded(limit),
        forall|x: Seq<bool>|
            x.len() == inputs ==> #[trigger] xor_circuit(inputs).eval(x) == seq![xor_of(x)],
{
    lemma_xor_gates(inputs);
    let table = twice_table(inputs);
    let fan = Circuit::Wiring { inputs, table };
    let side = Circuit::Parallel {
        inputs,
        outputs: 1,
        cells: seq![Circuit::Or { inputs }, nand_circuit(inputs)],
    };
    let front = Circuit::Serial(Box::new(fan), Box::new(side));
    let last = Circuit::And { inputs: 2 };
    assert(xor_circuit(inputs) == serial(front, last));
    assert forall|j: int| 0 <= j < table.len() implies 0 <= #[trigger] table[j] < inputs by {
        vstd::arithmetic::div_mod::lemma_mod_bound(j, inputs as int);
    }
    assert(combinational(fan, inputs, 2 * inputs));
    lemma_serial(fan, side, inputs, 2 * inputs, 2);
    assert(combinational(last, 2, 1));
    lemma_serial(front, last, inputs, 2, 1);
    assert forall|limit: nat| 2 * inputs <= limit && 2 <= limit implies xor_circuit(
        inputs,
    ).bounded(limit) by {
        assert(fan.bounded(limit));
        assert(side.bounded(limit));
        assert(front.bounded(limit));
        assert(last.bounded(limit));
    }
    assert forall|x: Seq<bool>| x.len() == inputs implies #[trigger] xor_circuit(inputs).eval(x)
        == seq![xor_of(x)] by {
        let doubled = fan.eval(x);
        assert forall|j: int| 0 <= j < 2 * inputs implies doubled[j] == (x + x)[j] by {
            if j < inputs {
                vstd::arithmetic::div_mod::lemma_small_mod(j as nat, inputs);
            } else {
                vstd::arithmetic::div_mod::lemma_fundamental_div_mod_converse(
                    j,
                    inputs as int,
                    1,
                    j - inputs,
                );
            }
        }
        assert(doubled =~= x + x);
        let mid = seq![any_true(x), !all_true(x)];
        assert(side.eval(x + x) == mid);
        assert(front.eval(x) == mid);
        assert(all_true(mid) == xor_of(x)) by {
            assert(mid[0] == any_true(x));
            assert(mid[1] == !all_true(x));
        }
        assert(last.eval(mid) == seq![xor_of(x)]);
    }
}

/// Exclusive or: true iff at least one input is true and at least one is
/// false.
pub struct XOR {
    xor: MergeLayers,
}

impl View for XOR {
    type V = Circuit;

    closed spec fn view(&self) -> Circuit {
        self.xor@
    }
}

impl XOR {
    /// An exclusive-or gate with `inputs` inputs.
    pub fn new(inputs: usize) -> (r: Self)
        requires
            2 * inputs <= usize::MAX,
        ensures
            r@ == xor_circuit(inputs as nat),
            r@.realizable(),
            r@.stateless(),
            r@.input_width() == inputs,
            r@.output_width() == 1,
            forall|x: Seq<bool>| x.len() == inputs ==> #[trigger] r@.eval(x) == seq![xor_of(x)],
    {
        proof {
            lemma_xor(inputs as nat);
            lemma_nand(inputs as nat);
        }
        let mut layer1_table: Vec<usize> = Vec::new();
        let mut i: usize = 0;
        while i < 2 * inputs
            invariant
                i <= 2 * inputs,
                2 * inputs <= usize::MAX,
                layer1_table@.len() == i,
                forall|j: int| 0 <= j < i ==> layer1_table@[j] == twice_table(inputs as nat)[j],
                forall|j: int| 0 <= j < i ==> layer1_table@[j] < inputs,
            decreases 2 * inputs - i,
        {
            layer1_table.push(i % inputs);
            i += 1;
        }
        assert(crate::wiring::indices(layer1_table@) =~= twice_table(inputs as nat));
        let layer1 = Wiring::create(inputs, layer1_table);
        let mut gates: Vec<Block> = Vec::new();
        gates.push(Or::new(inputs).into_block());
        gates.push(NAND::new(inputs).into_block());
        assert(crate::blocks::views(gates@) =~= seq![
            Circuit::Or { inputs: inputs as nat },
            nand_circuit(inputs as nat),
        ]);
        let layer2 = ConcatBlocks::create(inputs, 1, gates);
        let layer3 = And::new(2);
        let xor = MergeLayers::create(layer1.into_block(), layer2.into_block()).connect_to(
            layer3.into_block(),
        );
        Self { xor }
    }
}

impl Component for XOR {
    fn input_width(&self) -> (w: usize) {
        self.xor.input_width()
    }

    fn output_width(&self) -> (w: usize) {
        self.xor.output_width()
    }

    fn eval(&self, input: &[bool]) -> (out: Vec<bool>) {
        self.xor.eval(input)
    }

    fn eval_mut(&mut self, input: &[bool]) -> (out: Vec<bool>) {
        self.xor.eval_mut(input)
    }

    fn into_block(self) -> (b: Block) {
        self.xor.into_block()
    }
}

} // verus!
