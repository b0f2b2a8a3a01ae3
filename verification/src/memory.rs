//! Storage: the set-reset latch, and the memories composed from it.
use crate::basic_comp::{And, Buffer, Not};
use crate::blocks::{
    views, Block, Component, ConcatBlocks, ConcatDifferentShapeBlocks, MergeLayers,
};
use crate::calculator::lemma_two_bits;
use crate::circuit::{chunk, latch_pass, latch_passes, latch_settle, nand, Circuit};
use crate::comparator::{and_pairs, lemma_and_pairs};
use crate::blocks::makes;
use crate::circuit::lemma_parallel_step;
use crate::laws::{
    combinational, lemma_combinational_step, lemma_pair_step, lemma_parallel_bit,
    lemma_parallel_shape, lemma_parallel_step_bit, lemma_serial, lemma_serial_step, pair, serial,
    shaped,
};
use crate::basic_comp::Or;
use crate::decoder::{decoder_circuit, lemma_decoder, BitDecoder};
use crate::laws::{bitwise, copies, lemma_buffers_and_inverters, lemma_pair, lemma_row, row};
use crate::ram::{
    blank_rows, byte_row, bytes, collect, enable_table, front, lemma_bytes, lemma_collect_shape,
    lemma_enable_pairs, lemma_memory, lemma_prepare, lemma_select, lemma_spread_wf,
    memory_circuit, memory_fits, rows_of, select, spread_table, steps_as_memory,
};
use crate::wiring::{indices, unzip_table, wire, Wiring};
use vstd::arithmetic::power2::{lemma_pow2_pos, pow2};
use vstd::prelude::*;

verus! {

/// A set-reset latch of two cross-coupled NAND gates.
///
/// Inputs are `(reset, set)`, outputs `(Q, not Q)`. The latch remembers the
/// values last seen on its two feedback lines. A state-updating evaluation
/// runs eight passes over the pair with the inputs held and returns the
/// lines as they then stand; a pure evaluation returns what a single pass
/// would put on the lines.
pub struct RSFlipFlop {
    nand1_to_nand2_line_state: bool,
    nand2_to_nand1_line_state: bool,
}

impl View for RSFlipFlop {
    type V = Circuit;

    closed spec fn view(&self) -> Circuit {
        Circuit::Latch { q: self.nand1_to_nand2_line_state, q_bar: self.nand2_to_nand1_line_state }
    }
}

impl RSFlipFlop {
    /// A latch with both feedback lines low.
    pub fn new() -> (r: Self)
        ensures
            r@ == (Circuit::Latch { q: false, q_bar: false }),
            r@.realizable(),
    {
        Self { nand1_to_nand2_line_state: false, nand2_to_nand1_line_state: false }
    }

    /// One pass over the pair: both gates read the lines as they were.
    fn pass(reset: bool, set: bool, lines: (bool, bool)) -> (r: (bool, bool))
        ensures
            r == latch_pass(reset, set, lines),
    {
        (!(!set && lines.1), !(!reset && lines.0))
    }
}

impl Component for RSFlipFlop {
    fn input_width(&self) -> (w: usize) {
        2
    }

    fn output_width(&self) -> (w: usize) {
        2
    }

    fn eval(&self, input: &[bool]) -> (out: Vec<bool>) {
        let lines = Self::pass(
            input[0],
            input[1],
            (self.nand1_to_nand2_line_state, self.nand2_to_nand1_line_state),
        );
        let out = vec![lines.0, lines.1];
        assert(out@ =~= seq![lines.0, lines.1]);
        out
    }

    fn eval_mut(&mut self, input: &[bool]) -> (out: Vec<bool>) {
        let ghost start = (self.nand1_to_nand2_line_state, self.nand2_to_nand1_line_state);
        let mut passes: usize = 0;
        while passes < 8
            invariant
                passes <= 8,
                input@.len() == 2,
                (self.nand1_to_nand2_line_state, self.nand2_to_nand1_line_state) == latch_passes(
                    input@[0],
                    input@[1],
                    start,
                    passes as nat,
                ),
            decreases 8 - passes,
        {
            let lines = Self::pass(
                input[0],
                input[1],
                (self.nand1_to_nand2_line_state, self.nand2_to_nand1_line_state),
            );
            self.nand1_to_nand2_line_state = lines.0;
            self.nand2_to_nand1_line_state = lines.1;
            passes += 1;
        }
        let out = vec![self.nand1_to_nand2_line_state, self.nand2_to_nand1_line_state];
        assert(out@ =~= seq![self.nand1_to_nand2_line_state, self.nand2_to_nand1_line_state]);
        out
    }

    fn into_block(self) -> (b: Block) {
        Block::RSFlipFlop(self)
    }
}

/// Eight passes in closed form: reset clears, set sets, neither holds, and
/// both together raise both lines.
pub proof fn lemma_latch_settle(reset: bool, set: bool, lines: (bool, bool))
    ensures
        latch_settle(reset, set, lines) == if reset && set {
            (true, true)
        } else if reset {
            (false, true)
        } else if set {
            (true, false)
        } else {
            lines
        },
{
    reveal_with_fuel(latch_passes, 9);
}

/// The lines of a latch after a memory cell has stepped: a write puts the
/// data on the Q line, and anything else leaves the lines as they were.
pub open spec fn written(lines: (bool, bool), write: bool, data: bool) -> (bool, bool) {
    if write {
        (data, !data)
    } else {
        lines
    }
}

/// Four wires, the second negated.
pub open spec fn negate_second_wire() -> Circuit {
    Circuit::Parallel {
        inputs: 1,
        outputs: 1,
        cells: seq![Circuit::Buffer, Circuit::Not, Circuit::Buffer, Circuit::Buffer],
    }
}

/// Negating the second of four wires is combinational, of shape `4 → 4`.
pub proof fn lemma_negate_second_wire()
    ensures
        combinational(negate_second_wire(), 4, 4),
        forall|limit: nat| 4 <= limit ==> negate_second_wire().bounded(limit),
        forall|x: Seq<bool>|
            x.len() == 4 ==> #[trigger] negate_second_wire().eval(x) == seq![
                x[0],
                !x[1],
                x[2],
                x[3],
            ],
{
    let cells = seq![Circuit::Buffer, Circuit::Not, Circuit::Buffer, Circuit::Buffer];
    assert(cells[0] == Circuit::Buffer && cells[1] == Circuit::Not && cells[2] == Circuit::Buffer
        && cells[3] == Circuit::Buffer);
    assert(combinational(Circuit::Buffer, 1, 1));
    assert(combinational(Circuit::Not, 1, 1));
    lemma_parallel_shape(1, 1, cells);
    assert forall|limit: nat| 4 <= limit implies negate_second_wire().bounded(limit) by {
        assert(Circuit::Buffer.bounded(limit));
        assert(Circuit::Not.bounded(limit));
    }
    assert forall|x: Seq<bool>| x.len() == 4 implies #[trigger] negate_second_wire().eval(x)
        == seq![x[0], !x[1], x[2], x[3]] by {
        lemma_parallel_bit(1, 1, cells, x, 0, 0);
        lemma_parallel_bit(1, 1, cells, x, 1, 0);
        lemma_parallel_bit(1, 1, cells, x, 2, 0);
        lemma_parallel_bit(1, 1, cells, x, 3, 0);
        assert(chunk(x, 0, 1) =~= seq![x[0]]);
        assert(chunk(x, 1, 1) =~= seq![x[1]]);
        assert(chunk(x, 2, 1) =~= seq![x[2]]);
        assert(chunk(x, 3, 1) =~= seq![x[3]]);
        assert(negate_second_wire().eval(x) =~= seq![x[0], !x[1], x[2], x[3]]);
    }
}

/// What drives the latch of a memory cell: from `(write, data)` to
/// `(reset, set)`.
pub open spec fn drive() -> Circuit {
    serial(serial(wire(2, seq![0, 1, 0, 1]), negate_second_wire()), and_pairs())
}

/// The drive is combinational, of shape `2 → 2`: a write of zero resets,
/// a write of one sets.
pub proof fn lemma_drive()
    ensures
        combinational(drive(), 2, 2),
        forall|limit: nat| 4 <= limit ==> drive().bounded(limit),
        forall|x: Seq<bool>|
            x.len() == 2 ==> #[trigger] drive().eval(x) == seq![x[0] && !x[1], x[0] && x[1]],
{
    lemma_negate_second_wire();
    lemma_and_pairs();
    let fan = wire(2, seq![0, 1, 0, 1]);
    let front = serial(fan, negate_second_wire());
    assert(combinational(fan, 2, 4));
    lemma_serial(fan, negate_second_wire(), 2, 4, 4);
    lemma_serial(front, and_pairs(), 2, 4, 2);
    assert forall|limit: nat| 4 <= limit implies drive().bounded(limit) by {
        assert(fan.bounded(limit));
        assert(front.bounded(limit));
    }
    assert forall|x: Seq<bool>| x.len() == 2 implies #[trigger] drive().eval(x) == seq![
        x[0] && !x[1],
        x[0] && x[1],
    ] by {
        let y1 = fan.eval(x);
        assert(y1 =~= seq![x[0], x[1], x[0], x[1]]);
        let y2 = negate_second_wire().eval(y1);
        let y3 = and_pairs().eval(y2);
        assert(y3 =~= seq![x[0] && !x[1], x[0] && x[1]]);
    }
}

/// The storing part of a memory cell with the given latch lines: the drive,
/// the latch, and the Q line picked out.
pub open spec fn store(lines: (bool, bool)) -> Circuit {
    serial(
        serial(drive(), Circuit::Latch { q: lines.0, q_bar: lines.1 }),
        wire(2, seq![0]),
    )
}

/// The storing part of a memory cell is well-formed, of shape `2 → 1`. A
/// step on `(write, data)` leaves the lines as `written` says and returns
/// the Q line as it then stands.
pub proof fn lemma_store(lines: (bool, bool))
    ensures
        shaped(store(lines), 2, 1),
        forall|limit: nat| 4 <= limit ==> store(lines).bounded(limit),
        forall|x: Seq<bool>|
            x.len() == 2 ==> #[trigger] store(lines).step(x) == (
                store(written(lines, x[0], x[1])),
                seq![written(lines, x[0], x[1]).0],
            ),
        forall|x: Seq<bool>|
            x.len() == 2 ==> #[trigger] store(lines).eval(x) == seq![
                nand(!(x[0] && x[1]), lines.1),
            ],
{
    lemma_drive();
    let latch = Circuit::Latch { q: lines.0, q_bar: lines.1 };
    let pick = wire(2, seq![0]);
    let front = serial(drive(), latch);
    assert(shaped(latch, 2, 2));
    assert(combinational(pick, 2, 1));
    lemma_serial_step(drive(), latch, 2, 2, 2);
    lemma_serial_step(front, pick, 2, 2, 1);
    assert forall|limit: nat| 4 <= limit implies store(lines).bounded(limit) by {
        assert(latch.bounded(limit));
        assert(pick.bounded(limit));
        assert(front.bounded(limit));
    }
    assert forall|x: Seq<bool>| x.len() == 2 implies #[trigger] store(lines).step(x) == (
        store(written(lines, x[0], x[1])),
        seq![written(lines, x[0], x[1]).0],
    ) by {
        lemma_combinational_step(drive(), 2, 2, x);
        let driven = drive().eval(x);
        let reset = x[0] && !x[1];
        let set = x[0] && x[1];
        assert(driven[0] == reset && driven[1] == set);
        lemma_latch_settle(reset, set, lines);
        let after = written(lines, x[0], x[1]);
        assert(latch_settle(reset, set, lines) == after);
        assert(latch.step(driven) == (
            Circuit::Latch { q: after.0, q_bar: after.1 },
            seq![after.0, after.1],
        ));
        let shown = seq![after.0, after.1];
        lemma_combinational_step(pick, 2, 1, shown);
        assert(pick.eval(shown) =~= seq![after.0]);
    }
    assert forall|x: Seq<bool>| x.len() == 2 implies #[trigger] store(lines).eval(x) == seq![
        nand(!(x[0] && x[1]), lines.1),
    ] by {
        let driven = drive().eval(x);
        let shown = latch.eval(driven);
        assert(shown.len() == 2);
        assert(pick.eval(shown) =~= seq![shown[0]]);
        assert(front.eval(x) == shown);
        assert(store(lines).eval(x) == pick.eval(front.eval(x)));
    }
}

/// The model of a one-bit memory cell whose latch lines stand at `lines`.
pub open spec fn memory_cell_circuit(lines: (bool, bool)) -> Circuit {
    serial(pair(Circuit::Buffer, store(lines)), Circuit::And { inputs: 2 })
}

/// A memory cell is well-formed, of shape `3 → 1`. A step on
/// `(read, write, data)` stores `data` if `write` is set, and returns the
/// stored bit, as it stands after that, if `read` is set.
pub proof fn lemma_memory_cell(lines: (bool, bool))
    ensures
        shaped(memory_cell_circuit(lines), 3, 1),
        forall|limit: nat| 4 <= limit ==> memory_cell_circuit(lines).bounded(limit),
        forall|x: Seq<bool>|
            x.len() == 3 ==> #[trigger] memory_cell_circuit(lines).step(x) == (
                memory_cell_circuit(written(lines, x[1], x[2])),
                seq![x[0] && written(lines, x[1], x[2]).0],
            ),
{
    lemma_store(lines);
    let one = Circuit::Buffer;
    let gate = Circuit::And { inputs: 2 };
    let front = pair(one, store(lines));
    assert(combinational(one, 1, 1));
    assert(combinational(gate, 2, 1));
    lemma_pair_step(one, store(lines), 1, 1, 2, 1);
    lemma_serial_step(front, gate, 3, 2, 1);
    assert forall|limit: nat| 4 <= limit implies memory_cell_circuit(lines).bounded(limit) by {
        assert(one.bounded(limit));
        assert(gate.bounded(limit));
        assert(front.bounded(limit));
    }
    assert forall|x: Seq<bool>| x.len() == 3 implies #[trigger] memory_cell_circuit(lines).step(x)
        == (
        memory_cell_circuit(written(lines, x[1], x[2])),
        seq![x[0] && written(lines, x[1], x[2]).0],
    ) by {
        let after = written(lines, x[1], x[2]);
        let head = x.take(1);
        let rest = x.skip(1);
        assert(rest[0] == x[1] && rest[1] == x[2]);
        lemma_combinational_step(one, 1, 1, head);
        assert(one.eval(head) =~= seq![x[0]]);
        assert(store(lines).step(rest) == (store(after), seq![after.0]));
        let mid = seq![x[0]] + seq![after.0];
        assert(front.step(x) == (pair(one, store(after)), mid));
        assert(mid =~= seq![x[0], after.0]);
        lemma_combinational_step(gate, 2, 1, mid);
        lemma_two_bits(mid);
        assert(gate.eval(mid) =~= seq![x[0] && after.0]);
    }
}

/// One bit of memory.
pub struct MemoryCell {
    cell: MergeLayers,
}

impl View for MemoryCell {
    type V = Circuit;

    closed spec fn view(&self) -> Circuit {
        self.cell@
    }
}

impl MemoryCell {
    /// A memory cell that holds zero: inputs `(read, write, data)`, output
    /// the stored bit if `read` is set and false otherwise.
    pub fn new() -> (r: Self)
        ensures
            r@ == memory_cell_circuit((false, false)),
            r@.realizable(),
            shaped(r@, 3, 1),
            forall|x: Seq<bool>|
                x.len() == 3 ==> #[trigger] r@.step(x) == (
                    memory_cell_circuit(written((false, false), x[1], x[2])),
                    seq![x[0] && written((false, false), x[1], x[2]).0],
                ),
    {
        proof {
            lemma_memory_cell((false, false));
            lemma_store((false, false));
            lemma_drive();
            lemma_negate_second_wire();
            lemma_and_pairs();
        }
        let cell = {
            let mut table: Vec<usize> = Vec::new();
            table.push(0);
            table.push(1);
            table.push(0);
            table.push(1);
            assert(indices(table@) =~= seq![0int, 1, 0, 1]);
            let layer1 = Wiring::create(2, table);
            let mut gates: Vec<Block> = Vec::new();
            gates.push(Buffer::new().into_block());
            gates.push(Not::new().into_block());
            gates.push(Buffer::new().into_block());
            gates.push(Buffer::new().into_block());
            assert(views(gates@) =~= seq![
                Circuit::Buffer,
                Circuit::Not,
                Circuit::Buffer,
                Circuit::Buffer,
            ]);
            let layer2 = ConcatBlocks::create(1, 1, gates);
            let layer3 = ConcatBlocks::create_from_fn(2, 1, 2, || -> (g: And)
                ensures
                    g@ == (Circuit::And { inputs: 2 }),
                { And::new(2) });
            proof {
                let cells = layer3@->Parallel_cells;
                assert(cells =~= crate::laws::copies(2, Circuit::And { inputs: 2 }));
                assert(layer3@ == and_pairs());
                assert(combinational(layer1@, 2, 4));
                lemma_serial(layer1@, negate_second_wire(), 2, 4, 4);
            }
            let ff = RSFlipFlop::new();
            let mut pick: Vec<usize> = Vec::new();
            pick.push(0);
            assert(indices(pick@) =~= seq![0int]);
            let pick_only_q = Wiring::create(2, pick);
            let front = MergeLayers::create(layer1.into_block(), layer2.into_block());
            let driven = front.connect_to(layer3.into_block());
            assert(driven@ == drive());
            let latched = driven.connect_to(ff.into_block());
            proof {
                assert(shaped(Circuit::Latch { q: false, q_bar: false }, 2, 2));
                lemma_serial_step(drive(), Circuit::Latch { q: false, q_bar: false }, 2, 2, 2);
            }
            latched.connect_to(pick_only_q.into_block())
        };
        assert(cell@ == store((false, false)));
        let read_select = And::new(2);
        let cell = ConcatDifferentShapeBlocks::create(Buffer::new().into_block(), cell.into_block());
        proof {
            assert(combinational(Circuit::Buffer, 1, 1));
            lemma_pair_step(Circuit::Buffer, store((false, false)), 1, 1, 2, 1);
        }
        let cell = MergeLayers::create(cell.into_block(), read_select.into_block());
        Self { cell }
    }
}

impl Component for MemoryCell {
    fn input_width(&self) -> (w: usize) {
        self.cell.input_width()
    }

    fn output_width(&self) -> (w: usize) {
        self.cell.output_width()
    }

    fn eval(&self, input: &[bool]) -> (out: Vec<bool>) {
        self.cell.eval(input)
    }

    fn eval_mut(&mut self, input: &[bool]) -> (out: Vec<bool>) {
        self.cell.eval_mut(input)
    }

    fn into_block(self) -> (b: Block) {
        self.cell.into_block()
    }
}

/// The table that hands the read and write lines of a register to each of
/// its cells, together with that cell's data bit.
pub open spec fn byte_table(n: nat) -> Seq<int> {
    Seq::new(3 * n, |i: int| if i % 3 == 2 { i / 3 + 2 } else { i % 3 })
}

/// A row of memory cells whose latch lines stand at `lines`.
pub open spec fn cell_row(lines: Seq<(bool, bool)>) -> Seq<Circuit> {
    Seq::new(lines.len(), |i: int| memory_cell_circuit(lines[i]))
}

/// The model of a register whose cells' latch lines stand at `lines`.
pub open spec fn memory_byte_circuit(lines: Seq<(bool, bool)>) -> Circuit {
    serial(
        wire(lines.len() + 2, byte_table(lines.len())),
        Circuit::Parallel { inputs: 3, outputs: 1, cells: cell_row(lines) },
    )
}

/// The word that a register holds: the Q line of each cell.
pub open spec fn word(lines: Seq<(bool, bool)>) -> Seq<bool> {
    Seq::new(lines.len(), |i: int| lines[i].0)
}

/// The lines of a register after a step: a write puts the data on every
/// cell, and anything else leaves the lines as they were.
pub open spec fn written_word(lines: Seq<(bool, bool)>, write: bool, data: Seq<bool>) -> Seq<
    (bool, bool),
> {
    Seq::new(lines.len(), |i: int| written(lines[i], write, data[i]))
}

/// `bits` if `enable` is set, and all zeros otherwise.
pub open spec fn gated(enable: bool, bits: Seq<bool>) -> Seq<bool> {
    Seq::new(bits.len(), |i: int| enable && bits[i])
}

/// All latch lines low: `n` cells that hold zero.
pub open spec fn blank(n: nat) -> Seq<(bool, bool)> {
    Seq::new(n, |i: int| (false, false))
}

/// The cells of a register, fed what its wiring lays out, step each on the
/// read line, the write line and its own data bit.
pub proof fn lemma_cell_row(lines: Seq<(bool, bool)>, y: Seq<bool>, read: bool, write: bool, data: Seq<bool>)
    requires
        data.len() == lines.len(),
        y.len() == 3 * lines.len(),
        forall|i: int|
            0 <= i < lines.len() ==> y[3 * i] == read && y[3 * i + 1] == write && y[3 * i + 2]
                == data[i],
    ensures
        shaped(
            Circuit::Parallel { inputs: 3, outputs: 1, cells: cell_row(lines) },
            3 * lines.len(),
            lines.len(),
        ),
        (Circuit::Parallel { inputs: 3, outputs: 1, cells: cell_row(lines) }).step(y) == (
            Circuit::Parallel {
                inputs: 3,
                outputs: 1,
                cells: cell_row(written_word(lines, write, data)),
            },
            gated(read, word(written_word(lines, write, data))),
        ),
{
    let n = lines.len();
    let cells = cell_row(lines);
    let row = Circuit::Parallel { inputs: 3, outputs: 1, cells };
    assert forall|i: int| 0 <= i < cells.len() implies (#[trigger] cells[i]).wf()
        && cells[i].input_width() == 3 && cells[i].output_width() == 1 by {
        lemma_memory_cell(lines[i]);
    }
    lemma_parallel_shape(3, 1, cells);
    assert(n * 3 == 3 * n && n * 1 == n) by (nonlinear_arith);
    lemma_parallel_step(3, 1, cells, y);
    let after = row.next(y)->Parallel_cells;
    let out = row.output(y);
    let lines2 = written_word(lines, write, data);
    assert forall|i: int| 0 <= i < n implies after[i] == cell_row(lines2)[i] && out[i] == gated(
        read,
        word(lines2),
    )[i] by {
        lemma_parallel_step_bit(3, 1, cells, y, i, 0);
        assert(i * 1 + 0 == i && i * 3 == 3 * i) by (nonlinear_arith);
        let fed = chunk(y, i, 3);
        assert(fed =~= seq![read, write, data[i]]);
        lemma_memory_cell(lines[i]);
        assert(cells[i].step(fed) == (
            memory_cell_circuit(written(lines[i], write, data[i])),
            seq![read && written(lines[i], write, data[i]).0],
        ));
    }
    if n > 0 {
        lemma_parallel_step_bit(3, 1, cells, y, 0, 0);
    } else {
        crate::laws::lemma_step_shape(row, y, 0);
    }
    assert(after =~= cell_row(lines2));
    assert(out =~= gated(read, word(lines2)));
}

/// A register is well-formed, of shape `n + 2 → n`. A step on
/// `(read, write, data)` stores `data` if `write` is set, and returns the
/// stored word, as it stands after that, if `read` is set.
pub proof fn lemma_memory_byte(lines: Seq<(bool, bool)>)
    ensures
        shaped(memory_byte_circuit(lines), lines.len() + 2, lines.len()),
        forall|limit: nat|
            4 <= limit && 3 * lines.len() <= limit && lines.len() + 2 <= limit
                ==> memory_byte_circuit(lines).bounded(limit),
        forall|x: Seq<bool>|
            x.len() == lines.len() + 2 ==> #[trigger] memory_byte_circuit(lines).step(x) == (
                memory_byte_circuit(written_word(lines, x[1], x.skip(2))),
                gated(x[0], word(written_word(lines, x[1], x.skip(2)))),
            ),
{
    let n = lines.len();
    let fan = wire(n + 2, byte_table(n));
    let cells = cell_row(lines);
    let row = Circuit::Parallel { inputs: 3, outputs: 1, cells };
    assert(combinational(fan, n + 2, 3 * n));
    lemma_cell_row(
        lines,
        Seq::new(3 * n, |i: int| false),
        false,
        false,
        Seq::new(n, |i: int| false),
    );
    lemma_serial_step(fan, row, n + 2, 3 * n, n);
    assert forall|limit: nat|
        4 <= limit && 3 * n <= limit && n + 2 <= limit implies memory_byte_circuit(lines).bounded(
        limit,
    ) by {
        assert(fan.bounded(limit));
        assert forall|i: int| 0 <= i < cells.len() implies (#[trigger] cells[i]).bounded(limit) by {
            lemma_memory_cell(lines[i]);
        }
        assert(row.bounded(limit));
    }
    assert forall|x: Seq<bool>| x.len() == n + 2 implies #[trigger] memory_byte_circuit(lines).step(
        x,
    ) == (
        memory_byte_circuit(written_word(lines, x[1], x.skip(2))),
        gated(x[0], word(written_word(lines, x[1], x.skip(2)))),
    ) by {
        lemma_combinational_step(fan, n + 2, 3 * n, x);
        let y = fan.eval(x);
        let data = x.skip(2);
        assert forall|i: int| 0 <= i < n implies y[3 * i] == x[0] && y[3 * i + 1] == x[1] && y[3
            * i + 2] == data[i] by {
            assert(byte_table(n)[3 * i] == 0);
            assert(byte_table(n)[3 * i + 1] == 1);
            assert(byte_table(n)[3 * i + 2] == i + 2);
        }
        lemma_cell_row(lines, y, x[0], x[1], data);
        assert(written_word(lines, x[1], data).len() == n);
    }
}

/// A register of `n` bits.
pub struct MemoryByte {
    byte: MergeLayers,
}

impl View for MemoryByte {
    type V = Circuit;

    closed spec fn view(&self) -> Circuit {
        self.byte@
    }
}

impl MemoryByte {
    /// A register of `n` bits that holds zero: the input is the read line,
    /// the write line and `n` data bits; the output is the stored word if
    /// the read line is set, and all zeros otherwise.
    pub fn new(n: usize) -> (r: Self)
        requires
            3 * n <= usize::MAX,
            n + 2 <= usize::MAX,
        ensures
            r@ == memory_byte_circuit(blank(n as nat)),
            r@.realizable(),
            shaped(r@, n as nat + 2, n as nat),
            forall|x: Seq<bool>|
                x.len() == n + 2 ==> #[trigger] r@.step(x) == (
                    memory_byte_circuit(written_word(blank(n as nat), x[1], x.skip(2))),
                    gated(x[0], word(written_word(blank(n as nat), x[1], x.skip(2)))),
                ),
    {
        proof {
            lemma_memory_byte(blank(n as nat));
            lemma_memory_cell((false, false));
        }
        let mut layer1_table: Vec<usize> = Vec::new();
        let mut i: usize = 0;
        while i < 3 * n
            invariant
                i <= 3 * n,
                3 * n <= usize::MAX,
                n + 2 <= usize::MAX,
                layer1_table@.len() == i,
                forall|q: int| 0 <= q < i ==> layer1_table@[q] == byte_table(n as nat)[q],
                forall|q: int| 0 <= q < i ==> layer1_table@[q] < n + 2,
            decreases 3 * n - i,
        {
            layer1_table.push(
                if i % 3 == 2 {
                    i / 3 + 2
                } else {
                    i % 3
                },
            );
            i += 1;
        }
        assert(indices(layer1_table@) =~= byte_table(n as nat));
        let layer1 = Wiring::create(n + 2, layer1_table);
        let cells = ConcatBlocks::create_from_fn(3, 1, n, MemoryCell::new);
        proof {
            let made = cells@->Parallel_cells;
            assert forall|k: int| 0 <= k < n implies made[k] == memory_cell_circuit(
                (false, false),
            ) by {
                assert(makes(MemoryCell::new, made[k]));
            }
            assert(made =~= cell_row(blank(n as nat)));
            assert(blank(n as nat).len() == n);
        }
        let byte = MergeLayers::create(layer1.into_block(), cells.into_block());
        Self { byte }
    }
}

impl Component for MemoryByte {
    fn input_width(&self) -> (w: usize) {
        self.byte.input_width()
    }

    fn output_width(&self) -> (w: usize) {
        self.byte.output_width()
    }

    fn eval(&self, input: &[bool]) -> (out: Vec<bool>) {
        self.byte.eval(input)
    }

    fn eval_mut(&mut self, input: &[bool]) -> (out: Vec<bool>) {
        self.byte.eval_mut(input)
    }

    fn into_block(self) -> (b: Block) {
        self.byte.into_block()
    }
}

/// A random-access memory of `2^address` words of `bit` bits each.
///
/// The input is the read line, the write line, the address and the data,
/// numbers least significant bit first. A state-updating evaluation stores
/// the data at the address if the write line is set, and returns the word
/// at the address, as it then stands, if the read line is set, and zeros
/// otherwise.
pub struct Memory {
    memory: MergeLayers,
}

impl View for Memory {
    type V = Circuit;

    closed spec fn view(&self) -> Circuit {
        self.memory@
    }
}

impl Memory {
    /// A memory in which every word is zero.
    pub fn new(address: usize, bit: usize) -> (r: Self)
        requires
            bit > 0,
            memory_fits(address as nat, bit as nat, usize::MAX as nat),
        ensures
            r@ == memory_circuit(
                address as nat,
                bit as nat,
                blank_rows(address as nat, bit as nat),
            ),
            r@.realizable(),
            shaped(r@, address as nat + bit as nat + 2, bit as nat),
            forall|x: Seq<bool>|
                x.len() == address + bit + 2 ==> #[trigger] steps_as_memory(
                    address as nat,
                    bit as nat,
                    blank_rows(address as nat, bit as nat),
                    x,
                ),
    {
        let ghost a = address as nat;
        let ghost b = bit as nat;
        let ghost fresh = blank_rows(a, b);
        proof {
            lemma_pow2_pos(a);
            assert(rows_of(fresh, b));
            lemma_memory(a, b, fresh);
            lemma_prepare(a, b);
            lemma_select(a);
            lemma_decoder(a);
            lemma_collect_shape(pow2(a), b);
            lemma_spread_wf(pow2(a), b);
            lemma_enable_pairs(pow2(a), false, false, 0);
            lemma_buffers_and_inverters(2);
            lemma_buffers_and_inverters(b);
        }
        let rows = crate::blocks::pow2(address);
        proof {
            assert((2 * rows) * 2 == 4 * rows && (2 * rows) * 1 == 2 * rows) by (nonlinear_arith);
            assert(rows * (bit + 2) == (bit + 2) * rows && rows * bit <= (bit + 2) * rows && bit
                * rows == rows * bit && bit * 1 == bit) by (nonlinear_arith);
            assert(2 * rows + bit <= (bit + 2) * rows) by (nonlinear_arith)
                requires
                    rows >= 1,
            ;
            assert(rows <= rows * bit) by (nonlinear_arith)
                requires
                    bit >= 1,
            ;
        }
        let select_block = Self::selection(address, rows);
        let values = ConcatBlocks::create_from_fn(1, 1, bit, Buffer::new);
        proof {
            let kept = values@->Parallel_cells;
            assert forall|k: int| 0 <= k < bit implies kept[k] == Circuit::Buffer by {
                assert(makes(Buffer::new, kept[k]));
            }
            assert(kept =~= copies(b, Circuit::Buffer));
        }
        let layer1 = ConcatDifferentShapeBlocks::create(
            select_block.into_block(),
            values.into_block(),
        );
        assert(layer1@ == front(a, b));
        let layer2 = Self::spreading(rows, bit);
        let stores = ConcatBlocks::create_from_fn(bit + 2, bit, rows, || -> (g: MemoryByte)
            requires
                3 * bit <= usize::MAX,
                bit + 2 <= usize::MAX,
            ensures
                g@ == memory_byte_circuit(blank(bit as nat)),
                g@.realizable(),
                g@.input_width() == bit + 2,
                g@.output_width() == bit,
            {
                proof {
                    lemma_memory_byte(blank(bit as nat));
                }
                MemoryByte::new(bit)
            });
        proof {
            let made = stores@->Parallel_cells;
            assert(made =~= byte_row(fresh));
            assert(stores@ == bytes(fresh, b));
        }
        let layer3 = Wiring::unzip(bit * rows, bit);
        let layer4 = ConcatBlocks::create_from_fn(rows, 1, bit, || -> (g: Or)
            ensures
                g@ == (Circuit::Or { inputs: rows as nat }),
            { Or::new(rows) });
        proof {
            let cells = layer4@->Parallel_cells;
            assert(cells =~= copies(b, Circuit::Or { inputs: rows as nat }));
            assert(layer4@ == row(b, rows as nat, 1, Circuit::Or { inputs: rows as nat }));
            assert(combinational(Circuit::Or { inputs: rows as nat }, rows as nat, 1));
            lemma_row(b, rows as nat, 1, Circuit::Or { inputs: rows as nat });
            assert(layer3@ == wire(b * pow2(a), unzip_table(b * pow2(a), b)));
        }
        let gather = MergeLayers::create(layer3.into_block(), layer4.into_block());
        assert(gather@ == collect(pow2(a), b));
        let prepare = MergeLayers::create(layer1.into_block(), layer2.into_block());
        proof {
            let idle = Seq::new(pow2(a) * (b + 2), |q: int| false);
            assert forall|k: int| 0 <= k < fresh.len() implies #[trigger] chunk(idle, k, b + 2)
                == crate::ram::command(
                false && k == 0,
                false && k == 0,
                Seq::new(b, |i: int| false),
            ) by {
                crate::laws::lemma_chunk_bounds(k, pow2(a) as int, b + 2);
                assert(chunk(idle, k, b + 2) =~= crate::ram::command(
                    false,
                    false,
                    Seq::new(b, |i: int| false),
                ));
            }
            lemma_bytes(fresh, b, idle, false, false, 0, Seq::new(b, |i: int| false));
            lemma_serial_step(prepare@, bytes(fresh, b), a + b + 2, pow2(a) * (b + 2), pow2(a) * b);
        }
        let holding = prepare.connect_to(stores.into_block());
        let memory = holding.connect_to(gather.into_block());
        Self { memory }
    }

    /// The part that turns the read line, the write line and the address
    /// into the enables of every row.
    fn selection(address: usize, rows: usize) -> (r: MergeLayers)
        requires
            rows == pow2(address as nat),
            4 * rows <= usize::MAX,
            2 * address <= usize::MAX,
            address * pow2(address as nat) <= usize::MAX,
            2 + address <= usize::MAX,
        ensures
            r@ == select(address as nat),
            r@.realizable(),
    {
        let ghost a = address as nat;
        proof {
            lemma_pow2_pos(a);
            lemma_select(a);
            lemma_decoder(a);
            lemma_enable_pairs(pow2(a), false, false, 0);
            lemma_buffers_and_inverters(2);
            assert((2 * rows) * 2 == 4 * rows && (2 * rows) * 1 == 2 * rows) by (nonlinear_arith);
        }
        let decoder = BitDecoder::new(address);
        let read_write = ConcatBlocks::create_from_fn(1, 1, 2, Buffer::new);
        proof {
            let kept = read_write@->Parallel_cells;
            assert forall|k: int| 0 <= k < 2 implies kept[k] == Circuit::Buffer by {
                assert(makes(Buffer::new, kept[k]));
            }
            assert(kept =~= copies(2, Circuit::Buffer));
            lemma_pair(bitwise(2, Circuit::Buffer), decoder_circuit(a), 2, 2, a, pow2(a));
        }
        let layer1 = ConcatDifferentShapeBlocks::create(
            read_write.into_block(),
            decoder.into_block(),
        );
        let mut layer2_table: Vec<usize> = Vec::new();
        let mut i: usize = 0;
        while i < 4 * rows
            invariant
                i <= 4 * rows,
                4 * rows <= usize::MAX,
                layer2_table@.len() == i,
                forall|q: int| 0 <= q < i ==> layer2_table@[q] == enable_table(rows as nat)[q],
                forall|q: int| 0 <= q < i ==> layer2_table@[q] < 2 + rows,
            decreases 4 * rows - i,
        {
            layer2_table.push(
                if i % 4 == 0 {
                    0
                } else if i % 4 == 2 {
                    1
                } else {
                    i / 4 + 2
                },
            );
            i += 1;
        }
        assert(indices(layer2_table@) =~= enable_table(rows as nat));
        let layer2 = Wiring::create(2 + rows, layer2_table);
        let layer3 = ConcatBlocks::create_from_fn(2, 1, 2 * rows, || -> (g: And)
            ensures
                g@ == (Circuit::And { inputs: 2 }),
            { And::new(2) });
        proof {
            let cells = layer3@->Parallel_cells;
            assert(cells =~= copies(2 * pow2(a), Circuit::And { inputs: 2 }));
            assert(combinational(Circuit::And { inputs: 2 }, 2, 1));
            lemma_row(2 * pow2(a), 2, 1, Circuit::And { inputs: 2 });
            assert(combinational(layer2@, 2 + pow2(a), 4 * pow2(a)));
            lemma_serial(layer1@, layer2@, 2 + a, 2 + pow2(a), 4 * pow2(a));
        }
        let paired = MergeLayers::create(layer1.into_block(), layer2.into_block());
        paired.connect_to(layer3.into_block())
    }

    /// The wiring that hands every row its two enables and the data.
    fn spreading(rows: usize, bit: usize) -> (r: Wiring)
        requires
            rows >= 1,
            bit + 2 <= usize::MAX,
            (bit + 2) * rows <= usize::MAX,
        ensures
            r@ == wire(2 * rows as nat + bit as nat, spread_table(rows as nat, bit as nat)),
    {
        let width = bit + 2;
        proof {
            assert(2 * rows + bit <= (bit + 2) * rows) by (nonlinear_arith)
                requires
                    rows >= 1,
            ;
            lemma_spread_wf(rows as nat, bit as nat);
        }
        let total = width * rows;
        let mut table: Vec<usize> = Vec::new();
        let mut i: usize = 0;
        while i < total
            invariant
                i <= total,
                width == bit + 2,
                total == (bit + 2) * rows,
                2 * rows + bit <= usize::MAX,
                table@.len() == i,
                forall|q: int|
                    0 <= q < i ==> table@[q] == spread_table(rows as nat, bit as nat)[q],
                forall|q: int| 0 <= q < i ==> table@[q] < 2 * rows + bit,
                forall|q: int|
                    0 <= q < total ==> 0 <= #[trigger] spread_table(rows as nat, bit as nat)[q]
                        < 2 * rows + bit,
            decreases total - i,
        {
            let p = i % width;
            proof {
                let want = spread_table(rows as nat, bit as nat)[i as int];
                assert(0 <= want < 2 * rows + bit);
                if p < 2 {
                    assert(want == 2 * (i as int / width as int) + p);
                }
            }
            table.push(
                if p < 2 {
                    2 * (i / width) + p
                } else {
                    2 * rows + (p - 2)
                },
            );
            i += 1;
        }
        assert(indices(table@) =~= spread_table(rows as nat, bit as nat));
        Wiring::create(2 * rows + bit, table)
    }
}

impl Component for Memory {
    fn input_width(&self) -> (w: usize) {
        self.memory.input_width()
    }

    fn output_width(&self) -> (w: usize) {
        self.memory.output_width()
    }

    fn eval(&self, input: &[bool]) -> (out: Vec<bool>) {
        self.memory.eval(input)
    }

    fn eval_mut(&mut self, input: &[bool]) -> (out: Vec<bool>) {
        self.memory.eval_mut(input)
    }

    fn into_block(self) -> (b: Block) {
        self.memory.into_block()
    }
}

} // verus!
