//! The mathematical model of a block: a finite tree of gates and combinators,
//! together with the two evaluation functions every block exposes.
//!
//! Everything in this module is specification. The executable blocks of the
//! other modules are related to it through their views.
use vstd::prelude::*;

verus! {

/// A block as a mathematical value.
///
/// Leaves are the primitive gates; inner nodes are the combinators. The three
/// stateful primitives carry their state in the tree, so that a state-updating
/// evaluation is a function from a tree to a tree.
pub enum Circuit {
    /// `inputs → outputs`; ignores its input and emits `value` on every wire.
    Constant { inputs: nat, outputs: nat, value: bool },
    /// `inputs → 1`; conjunction.
    And { inputs: nat },
    /// `inputs → 1`; disjunction.
    Or { inputs: nat },
    /// `1 → 1`; negation.
    Not,
    /// `1 → 1`; identity.
    Buffer,
    /// `1 → outputs`; fan-out.
    Branch { outputs: nat },
    /// `inputs → table.len()`; output `j` reads input `table[j]`.
    Wiring { inputs: nat, table: Seq<int> },
    /// `width → width`; identity on a whole bus.
    Probe { width: nat },
    /// `0 → 1`; toggles on every state-updating evaluation.
    Clock { level: bool },
    /// `1 → 1`; true exactly on a false-to-true transition of its input.
    EdgeDetector { previous: bool },
    /// `2 → 2`; cross-coupled NAND pair with the values last seen on its two
    /// feedback lines.
    Latch { q: bool, q_bar: bool },
    /// Output of the first feeds the second.
    Serial(Box<Circuit>, Box<Circuit>),
    /// Copies of one shape `inputs → outputs` side by side.
    Parallel { inputs: nat, outputs: nat, cells: Seq<Circuit> },
    /// Two blocks of any shapes side by side.
    Pair(Box<Circuit>, Box<Circuit>),
    /// A hidden state of width `state` threaded through the cells in order.
    Recurrent { state: nat, inputs: nat, outputs: nat, cells: Seq<Circuit> },
}

/// The `i`-th contiguous slice of width `w` of `x`.
pub open spec fn chunk(x: Seq<bool>, i: int, w: nat) -> Seq<bool> {
    x.subrange(i * w, i * w + w)
}

/// The concatenation of the first `k` parts, in order.
pub open spec fn concat_all(parts: Seq<Seq<bool>>, k: nat) -> Seq<bool>
    decreases k,
{
    if k == 0 {
        Seq::empty()
    } else {
        concat_all(parts, (k - 1) as nat) + parts[k - 1]
    }
}

/// What each of several blocks of one input width returns on its own
/// slice of `x`.
pub open spec fn parts(
    cells: Seq<spec_fn(Seq<bool>) -> Seq<bool>>,
    inputs: nat,
    x: Seq<bool>,
) -> Seq<Seq<bool>> {
    Seq::new(cells.len(), |i: int| cells[i](chunk(x, i, inputs)))
}

/// Blocks of one input width side by side: block `i` sees slice `i` of `x`,
/// and the results are concatenated in the same order.
pub open spec fn side_by_side(
    cells: Seq<spec_fn(Seq<bool>) -> Seq<bool>>,
    inputs: nat,
    x: Seq<bool>,
) -> Seq<bool> {
    concat_all(parts(cells, inputs, x), cells.len())
}

/// A recurrent chain: the outputs of all cells in order, then the hidden
/// state that leaves the last cell.
pub open spec fn chain(
    cells: Seq<spec_fn(Seq<bool>) -> Seq<bool>>,
    state: nat,
    inputs: nat,
    outputs: nat,
    x: Seq<bool>,
) -> Seq<bool> {
    let h = x.take(state as int);
    let xs = x.skip(state as int);
    emitted(cells, inputs, outputs, h, xs, cells.len()) + carried(
        cells,
        inputs,
        outputs,
        h,
        xs,
        cells.len(),
    )
}

/// What cell `i` of a recurrent chain is fed: the hidden state that reaches
/// it, then its own slice of the input.
pub open spec fn fed(
    cells: Seq<spec_fn(Seq<bool>) -> Seq<bool>>,
    state: nat,
    inputs: nat,
    outputs: nat,
    x: Seq<bool>,
    i: int,
) -> Seq<bool> {
    let h = x.take(state as int);
    let xs = x.skip(state as int);
    carried(cells, inputs, outputs, h, xs, i as nat) + chunk(xs, i, inputs)
}

/// Each block's pure evaluation, as a function.
pub open spec fn evals(cells: Seq<Circuit>) -> Seq<spec_fn(Seq<bool>) -> Seq<bool>>
    decreases cells,
{
    Seq::new(
        cells.len(),
        |i: int|
            |v: Seq<bool>|
                if 0 <= i < cells.len() {
                    cells[i].eval(v)
                } else {
                    v
                },
    )
}

/// Each block's state-updating output, as a function.
pub open spec fn outputs_of(cells: Seq<Circuit>) -> Seq<spec_fn(Seq<bool>) -> Seq<bool>>
    decreases cells,
{
    Seq::new(
        cells.len(),
        |i: int|
            |v: Seq<bool>|
                if 0 <= i < cells.len() {
                    cells[i].step(v).1
                } else {
                    v
                },
    )
}

/// True iff every element of `x` is true.
pub open spec fn all_true(x: Seq<bool>) -> bool {
    forall|i: int| 0 <= i < x.len() ==> x[i]
}

/// True iff some element of `x` is true.
pub open spec fn any_true(x: Seq<bool>) -> bool {
    exists|i: int| 0 <= i < x.len() && x[i]
}

/// What a wiring table does to a bus: output `j` is input `table[j]`.
pub open spec fn route(table: Seq<int>, x: Seq<bool>) -> Seq<bool> {
    Seq::new(table.len(), |j: int| x[table[j]])
}

/// Negated conjunction of two bits.
pub open spec fn nand(a: bool, b: bool) -> bool {
    !(a && b)
}

/// One combinational pass over the cross-coupled pair: both lines are
/// recomputed from the values the lines had before the pass.
pub open spec fn latch_pass(reset: bool, set: bool, lines: (bool, bool)) -> (bool, bool) {
    (nand(!set, lines.1), nand(!reset, lines.0))
}

/// The lines after `n` passes with the inputs held.
pub open spec fn latch_passes(reset: bool, set: bool, lines: (bool, bool), n: nat) -> (bool, bool)
    decreases n,
{
    if n == 0 {
        lines
    } else {
        latch_pass(reset, set, latch_passes(reset, set, lines, (n - 1) as nat))
    }
}

/// The lines after the eight passes of one state-updating evaluation.
pub open spec fn latch_settle(reset: bool, set: bool, lines: (bool, bool)) -> (bool, bool) {
    latch_passes(reset, set, lines, 8)
}

/// The hidden state that leaves the first `k` cells of a recurrent chain.
///
/// `cells[i]` maps `(state, slice i of xs)` to `(output i, next state)`.
pub open spec fn carried(
    cells: Seq<spec_fn(Seq<bool>) -> Seq<bool>>,
    inputs: nat,
    outputs: nat,
    h: Seq<bool>,
    xs: Seq<bool>,
    k: nat,
) -> Seq<bool>
    decreases k,
{
    if k == 0 {
        h
    } else {
        let before = carried(cells, inputs, outputs, h, xs, (k - 1) as nat);
        let produced = cells[k - 1](before + chunk(xs, k - 1, inputs));
        produced.skip(outputs as int)
    }
}

/// The outputs of the first `k` cells of a recurrent chain, concatenated.
pub open spec fn emitted(
    cells: Seq<spec_fn(Seq<bool>) -> Seq<bool>>,
    inputs: nat,
    outputs: nat,
    h: Seq<bool>,
    xs: Seq<bool>,
    k: nat,
) -> Seq<bool>
    decreases k,
{
    if k == 0 {
        Seq::empty()
    } else {
        let before = carried(cells, inputs, outputs, h, xs, (k - 1) as nat);
        let produced = cells[k - 1](before + chunk(xs, k - 1, inputs));
        emitted(cells, inputs, outputs, h, xs, (k - 1) as nat) + produced.take(outputs as int)
    }
}

impl Circuit {
    /// Declared input width.
    pub open spec fn input_width(self) -> nat
        decreases self,
    {
        match self {
            Circuit::Constant { inputs, .. } => inputs,
            Circuit::And { inputs } => inputs,
            Circuit::Or { inputs } => inputs,
            Circuit::Not => 1,
            Circuit::Buffer => 1,
            Circuit::Branch { .. } => 1,
            Circuit::Wiring { inputs, .. } => inputs,
            Circuit::Probe { width } => width,
            Circuit::Clock { .. } => 0,
            Circuit::EdgeDetector { .. } => 1,
            Circuit::Latch { .. } => 2,
            Circuit::Serial(a, _) => a.input_width(),
            Circuit::Parallel { inputs, cells, .. } => cells.len() * inputs,
            Circuit::Pair(a, b) => a.input_width() + b.input_width(),
            Circuit::Recurrent { state, inputs, cells, .. } => state + cells.len() * inputs,
        }
    }

    /// Declared output width.
    pub open spec fn output_width(self) -> nat
        decreases self,
    {
        match self {
            Circuit::Constant { outputs, .. } => outputs,
            Circuit::And { .. } => 1,
            Circuit::Or { .. } => 1,
            Circuit::Not => 1,
            Circuit::Buffer => 1,
            Circuit::Branch { outputs } => outputs,
            Circuit::Wiring { table, .. } => table.len(),
            Circuit::Probe { width } => width,
            Circuit::Clock { .. } => 1,
            Circuit::EdgeDetector { .. } => 1,
            Circuit::Latch { .. } => 2,
            Circuit::Serial(_, b) => b.output_width(),
            Circuit::Parallel { outputs, cells, .. } => cells.len() * outputs,
            Circuit::Pair(a, b) => a.output_width() + b.output_width(),
            Circuit::Recurrent { state, outputs, cells, .. } => cells.len() * outputs + state,
        }
    }

    /// Width compatibility everywhere in the tree.
    pub open spec fn wf(self) -> bool
        decreases self,
    {
        match self {
            Circuit::Wiring { inputs, table } => forall|j: int|
                0 <= j < table.len() ==> 0 <= #[trigger] table[j] < inputs,
            Circuit::Serial(a, b) => a.wf() && b.wf() && a.output_width() == b.input_width(),
            Circuit::Parallel { inputs, outputs, cells } => forall|i: int|
                0 <= i < cells.len() ==> (#[trigger] cells[i]).wf() && cells[i].input_width()
                    == inputs && cells[i].output_width() == outputs,
            Circuit::Pair(a, b) => a.wf() && b.wf(),
            Circuit::Recurrent { state, inputs, outputs, cells } => forall|i: int|
                0 <= i < cells.len() ==> (#[trigger] cells[i]).wf() && cells[i].input_width()
                    == state + inputs && cells[i].output_width() == outputs + state,
            _ => true,
        }
    }

    /// Every width that occurs in the tree is at most `limit`.
    pub open spec fn bounded(self, limit: nat) -> bool
        decreases self,
    {
        &&& self.input_width() <= limit
        &&& self.output_width() <= limit
        &&& match self {
            Circuit::Serial(a, b) => a.bounded(limit) && b.bounded(limit),
            Circuit::Parallel { cells, .. } => forall|i: int|
                0 <= i < cells.len() ==> (#[trigger] cells[i]).bounded(limit),
            Circuit::Pair(a, b) => a.bounded(limit) && b.bounded(limit),
            Circuit::Recurrent { cells, .. } => forall|i: int|
                0 <= i < cells.len() ==> (#[trigger] cells[i]).bounded(limit),
            _ => true,
        }
    }

    /// No clock, edge detector or latch anywhere in the tree.
    pub open spec fn stateless(self) -> bool
        decreases self,
    {
        match self {
            Circuit::Clock { .. } => false,
            Circuit::EdgeDetector { .. } => false,
            Circuit::Latch { .. } => false,
            Circuit::Serial(a, b) => a.stateless() && b.stateless(),
            Circuit::Parallel { cells, .. } => forall|i: int|
                0 <= i < cells.len() ==> (#[trigger] cells[i]).stateless(),
            Circuit::Pair(a, b) => a.stateless() && b.stateless(),
            Circuit::Recurrent { cells, .. } => forall|i: int|
                0 <= i < cells.len() ==> (#[trigger] cells[i]).stateless(),
            _ => true,
        }
    }

    /// Pure evaluation: the output for input `x`, with the state left alone.
    pub open spec fn eval(self, x: Seq<bool>) -> Seq<bool>
        decreases self,
    {
        match self {
            Circuit::Constant { outputs, value, .. } => Seq::new(outputs, |j: int| value),
            Circuit::And { .. } => seq![all_true(x)],
            Circuit::Or { .. } => seq![any_true(x)],
            Circuit::Not => seq![!x[0]],
            Circuit::Buffer => seq![x[0]],
            Circuit::Branch { outputs } => Seq::new(outputs, |j: int| x[0]),
            Circuit::Wiring { table, .. } => route(table, x),
            Circuit::Probe { .. } => x,
            Circuit::Clock { .. } => seq![false],
            Circuit::EdgeDetector { .. } => seq![false],
            Circuit::Latch { q, q_bar } => {
                let lines = latch_pass(x[0], x[1], (q, q_bar));
                seq![lines.0, lines.1]
            },
            Circuit::Serial(a, b) => b.eval(a.eval(x)),
            Circuit::Parallel { inputs, cells, .. } => side_by_side(evals(cells), inputs, x),
            Circuit::Pair(a, b) => {
                let split = a.input_width() as int;
                a.eval(x.take(split)) + b.eval(x.skip(split))
            },
            Circuit::Recurrent { state, inputs, outputs, cells } => chain(
                evals(cells),
                state,
                inputs,
                outputs,
                x,
            ),
        }
    }

    /// State-updating evaluation: the block after the evaluation, and the
    /// output. Children are visited in their declared order.
    pub open spec fn step(self, x: Seq<bool>) -> (Circuit, Seq<bool>)
        decreases self,
    {
        match self {
            Circuit::Clock { level } => (Circuit::Clock { level: !level }, seq![!level]),
            Circuit::EdgeDetector { previous } => (
                Circuit::EdgeDetector { previous: x[0] },
                seq![!previous && x[0]],
            ),
            Circuit::Latch { q, q_bar } => {
                let lines = latch_settle(x[0], x[1], (q, q_bar));
                (Circuit::Latch { q: lines.0, q_bar: lines.1 }, seq![lines.0, lines.1])
            },
            Circuit::Serial(a, b) => {
                let first = a.step(x);
                let second = b.step(first.1);
                (Circuit::Serial(Box::new(first.0), Box::new(second.0)), second.1)
            },
            Circuit::Parallel { inputs, outputs, cells } => (
                Circuit::Parallel {
                    inputs,
                    outputs,
                    cells: Seq::new(
                        cells.len(),
                        |i: int|
                            if 0 <= i < cells.len() {
                                cells[i].step(chunk(x, i, inputs)).0
                            } else {
                                Circuit::Not
                            },
                    ),
                },
                side_by_side(outputs_of(cells), inputs, x),
            ),
            Circuit::Pair(a, b) => {
                let split = a.input_width() as int;
                let first = a.step(x.take(split));
                let second = b.step(x.skip(split));
                (Circuit::Pair(Box::new(first.0), Box::new(second.0)), first.1 + second.1)
            },
            Circuit::Recurrent { state, inputs, outputs, cells } => {
                let fs = outputs_of(cells);
                (
                    Circuit::Recurrent {
                        state,
                        inputs,
                        outputs,
                        cells: Seq::new(
                            cells.len(),
                            |i: int|
                                if 0 <= i < cells.len() {
                                    cells[i].step(fed(fs, state, inputs, outputs, x, i)).0
                                } else {
                                    Circuit::Not
                                },
                        ),
                    },
                    chain(fs, state, inputs, outputs, x),
                )
            },
            _ => (self, self.eval(x)),
        }
    }

    /// Well-formed, with every width small enough for a machine word.
    pub open spec fn realizable(self) -> bool {
        self.wf() && self.bounded(usize::MAX as nat)
    }

    /// The block that a state-updating evaluation on `x` leaves behind.
    pub open spec fn next(self, x: Seq<bool>) -> Circuit {
        self.step(x).0
    }

    /// The output of a state-updating evaluation on `x`.
    pub open spec fn output(self, x: Seq<bool>) -> Seq<bool> {
        self.step(x).1
    }
}

/// Uniform parallel, unfolded: block `i` evaluates slice `i`.
pub proof fn lemma_parallel_eval(inputs: nat, outputs: nat, cells: Seq<Circuit>, x: Seq<bool>)
    ensures
        (Circuit::Parallel { inputs, outputs, cells }).eval(x) == side_by_side(
            evals(cells),
            inputs,
            x,
        ),
{
}

/// Uniform parallel, unfolded for the state-updating evaluation: block `i`
/// steps on slice `i`, independently of the others.
pub proof fn lemma_parallel_step(inputs: nat, outputs: nat, cells: Seq<Circuit>, x: Seq<bool>)
    ensures
        ({
            let c = Circuit::Parallel { inputs, outputs, cells };
            &&& c.output(x) == side_by_side(outputs_of(cells), inputs, x)
            &&& c.next(x) matches Circuit::Parallel { inputs: i2, outputs: o2, cells: after }
            &&& i2 == inputs
            &&& o2 == outputs
            &&& after.len() == cells.len()
            &&& forall|i: int|
                0 <= i < cells.len() ==> #[trigger] after[i] == cells[i].next(chunk(x, i, inputs))
        }),
{
}

/// Recurrent unroll, unfolded.
pub proof fn lemma_recurrent_eval(
    state: nat,
    inputs: nat,
    outputs: nat,
    cells: Seq<Circuit>,
    x: Seq<bool>,
)
    ensures
        (Circuit::Recurrent { state, inputs, outputs, cells }).eval(x) == chain(
            evals(cells),
            state,
            inputs,
            outputs,
            x,
        ),
{
}

/// Recurrent unroll, unfolded for the state-updating evaluation: cell `i`
/// steps on what the cells before it handed on.
pub proof fn lemma_recurrent_step(
    state: nat,
    inputs: nat,
    outputs: nat,
    cells: Seq<Circuit>,
    x: Seq<bool>,
)
    ensures
        ({
            let c = Circuit::Recurrent { state, inputs, outputs, cells };
            let fs = outputs_of(cells);
            &&& c.output(x) == chain(fs, state, inputs, outputs, x)
            &&& c.next(x) matches Circuit::Recurrent {
                state: s2,
                inputs: i2,
                outputs: o2,
                cells: after,
            }
            &&& s2 == state
            &&& i2 == inputs
            &&& o2 == outputs
            &&& after.len() == cells.len()
            &&& forall|i: int|
                0 <= i < cells.len() ==> #[trigger] after[i] == cells[i].next(
                    fed(fs, state, inputs, outputs, x, i),
                )
        }),
{
}

} // verus!
