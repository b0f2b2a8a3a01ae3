//! Comparison of bits and of eight-bit numbers.
use crate::basic_comp::{And, Branch, Buffer, Not, Or};
use crate::blocks::{
    makes, views, Block, Component, ConcatBlocks, ConcatDifferentShapeBlocks, MergeLayers,
};
use crate::calculator::lemma_two_bits;
use crate::blocks::RecurrentBlock;
use crate::carry_chain::span;
use crate::circuit::{carried, chunk, emitted, evals, lemma_recurrent_eval, route, Circuit};
use crate::laws::{
    bitwise, combinational, copies, lemma_buffers_and_inverters, lemma_chain_shape,
    lemma_chunk_len, lemma_pair, lemma_parallel_bit, lemma_parallel_shape, lemma_recurrent_shape,
    lemma_row, lemma_row_bit, lemma_serial, pair, row, serial,
};
use crate::num_bit_converter::{
    bit, bits_of, lemma_value_of_bits, lemma_value_of_concat, lemma_value_of_single, value_of,
};
use crate::wiring::{indices, wire, Wiring};
use vstd::prelude::*;

verus! {

/// Each of two wires fanned out to two.
pub open spec fn fan_pairs() -> Circuit {
    row(2, 1, 2, Circuit::Branch { outputs: 2 })
}

/// Four wires, the two in the middle negated.
pub open spec fn negate_inner() -> Circuit {
    Circuit::Parallel {
        inputs: 1,
        outputs: 1,
        cells: seq![Circuit::Buffer, Circuit::Not, Circuit::Not, Circuit::Buffer],
    }
}

/// Two AND gates of two inputs each.
pub open spec fn and_pairs() -> Circuit {
    row(2, 2, 1, Circuit::And { inputs: 2 })
}

/// Three wires, the middle one replaced by the NOR of the outer two, which
/// arrive doubled.
pub open spec fn neither() -> Circuit {
    pair(
        pair(Circuit::Buffer, serial(Circuit::Or { inputs: 2 }, Circuit::Not)),
        Circuit::Buffer,
    )
}

/// The model of the one-bit comparator.
pub open spec fn comparator_circuit() -> Circuit {
    serial(
        serial(
            serial(
                serial(serial(fan_pairs(), negate_inner()), wire(4, seq![0, 2, 1, 3])),
                and_pairs(),
            ),
            fan_pairs(),
        ),
        neither(),
    )
}

/// Greater, equal, less: the verdict on two bits.
pub open spec fn compare_bits(a: bool, b: bool) -> Seq<bool> {
    seq![a && !b, a == b, !a && b]
}

/// Fanning out two wires in pairs is combinational, of shape `2 → 4`, and
/// returns each input twice.
pub proof fn lemma_fan_pairs()
    ensures
        combinational(fan_pairs(), 2, 4),
        forall|limit: nat| 4 <= limit ==> fan_pairs().bounded(limit),
        forall|x: Seq<bool>|
            x.len() == 2 ==> #[trigger] fan_pairs().eval(x) == seq![x[0], x[0], x[1], x[1]],
{
    let cell = Circuit::Branch { outputs: 2 };
    assert(combinational(cell, 1, 2));
    lemma_row(2, 1, 2, cell);
    assert forall|limit: nat| 4 <= limit implies fan_pairs().bounded(limit) by {
        assert(cell.bounded(limit));
    }
    assert forall|x: Seq<bool>| x.len() == 2 implies #[trigger] fan_pairs().eval(x) == seq![
        x[0],
        x[0],
        x[1],
        x[1],
    ] by {
        lemma_row_bit(2, 1, 2, cell, x, 0, 0);
        lemma_row_bit(2, 1, 2, cell, x, 0, 1);
        lemma_row_bit(2, 1, 2, cell, x, 1, 0);
        lemma_row_bit(2, 1, 2, cell, x, 1, 1);
        assert(chunk(x, 0, 1) =~= seq![x[0]]);
        assert(chunk(x, 1, 1) =~= seq![x[1]]);
        assert(fan_pairs().eval(x) =~= seq![x[0], x[0], x[1], x[1]]);
    }
}

/// Negating the inner two of four wires is combinational, of shape `4 → 4`.
pub proof fn lemma_negate_inner()
    ensures
        combinational(negate_inner(), 4, 4),
        forall|limit: nat| 4 <= limit ==> negate_inner().bounded(limit),
        forall|x: Seq<bool>|
            x.len() == 4 ==> #[trigger] negate_inner().eval(x) == seq![x[0], !x[1], !x[2], x[3]],
{
    let cells = seq![Circuit::Buffer, Circuit::Not, Circuit::Not, Circuit::Buffer];
    assert(cells[0] == Circuit::Buffer && cells[1] == Circuit::Not && cells[2] == Circuit::Not
        && cells[3] == Circuit::Buffer);
    assert(combinational(Circuit::Buffer, 1, 1));
    assert(combinational(Circuit::Not, 1, 1));
    lemma_parallel_shape(1, 1, cells);
    assert forall|limit: nat| 4 <= limit implies negate_inner().bounded(limit) by {
        assert(Circuit::Buffer.bounded(limit));
        assert(Circuit::Not.bounded(limit));
    }
    assert forall|x: Seq<bool>| x.len() == 4 implies #[trigger] negate_inner().eval(x) == seq![
        x[0],
        !x[1],
        !x[2],
        x[3],
    ] by {
        lemma_parallel_bit(1, 1, cells, x, 0, 0);
        lemma_parallel_bit(1, 1, cells, x, 1, 0);
        lemma_parallel_bit(1, 1, cells, x, 2, 0);
        lemma_parallel_bit(1, 1, cells, x, 3, 0);
        assert(chunk(x, 0, 1) =~= seq![x[0]]);
        assert(chunk(x, 1, 1) =~= seq![x[1]]);
        assert(chunk(x, 2, 1) =~= seq![x[2]]);
        assert(chunk(x, 3, 1) =~= seq![x[3]]);
        assert(negate_inner().eval(x) =~= seq![x[0], !x[1], !x[2], x[3]]);
    }
}

/// Two AND gates side by side are combinational, of shape `4 → 2`.
pub proof fn lemma_and_pairs()
    ensures
        combinational(and_pairs(), 4, 2),
        forall|limit: nat| 4 <= limit ==> and_pairs().bounded(limit),
        forall|x: Seq<bool>|
            x.len() == 4 ==> #[trigger] and_pairs().eval(x) == seq![x[0] && x[1], x[2] && x[3]],
{
    let cell = Circuit::And { inputs: 2 };
    assert(combinational(cell, 2, 1));
    lemma_row(2, 2, 1, cell);
    assert forall|limit: nat| 4 <= limit implies and_pairs().bounded(limit) by {
        assert(cell.bounded(limit));
    }
    assert forall|x: Seq<bool>| x.len() == 4 implies #[trigger] and_pairs().eval(x) == seq![
        x[0] && x[1],
        x[2] && x[3],
    ] by {
        lemma_row_bit(2, 2, 1, cell, x, 0, 0);
        lemma_row_bit(2, 2, 1, cell, x, 1, 0);
        assert(chunk(x, 0, 2) =~= seq![x[0], x[1]]);
        assert(chunk(x, 1, 2) =~= seq![x[2], x[3]]);
        lemma_two_bits(seq![x[0], x[1]]);
        lemma_two_bits(seq![x[2], x[3]]);
        assert(and_pairs().eval(x) =~= seq![x[0] && x[1], x[2] && x[3]]);
    }
}

/// The last layer of the comparator is combinational, of shape `4 → 3`, and
/// puts the NOR of its two inner wires between its two outer wires.
pub proof fn lemma_neither()
    ensures
        combinational(neither(), 4, 3),
        forall|limit: nat| 4 <= limit ==> neither().bounded(limit),
        forall|x: Seq<bool>|
            x.len() == 4 ==> #[trigger] neither().eval(x) == seq![x[0], !(x[1] || x[2]), x[3]],
{
    let wire1 = Circuit::Buffer;
    let either = Circuit::Or { inputs: 2 };
    let nor = serial(either, Circuit::Not);
    let left = pair(wire1, nor);
    assert(combinational(wire1, 1, 1));
    assert(combinational(either, 2, 1));
    assert(combinational(Circuit::Not, 1, 1));
    lemma_serial(either, Circuit::Not, 2, 1, 1);
    lemma_pair(wire1, nor, 1, 1, 2, 1);
    lemma_pair(left, wire1, 3, 2, 1, 1);
    assert forall|limit: nat| 4 <= limit implies neither().bounded(limit) by {
        assert(wire1.bounded(limit));
        assert(either.bounded(limit));
        assert(Circuit::Not.bounded(limit));
        assert(nor.bounded(limit));
        assert(left.bounded(limit));
    }
    assert forall|x: Seq<bool>| x.len() == 4 implies #[trigger] neither().eval(x) == seq![
        x[0],
        !(x[1] || x[2]),
        x[3],
    ] by {
        let head = x.take(3);
        let inner = head.skip(1);
        assert(inner =~= seq![x[1], x[2]]);
        lemma_two_bits(inner);
        assert(either.eval(inner) =~= seq![x[1] || x[2]]);
        assert(nor.eval(inner) =~= seq![!(x[1] || x[2])]);
        assert(wire1.eval(head.take(1)) =~= seq![x[0]]);
        assert(left.eval(head) =~= seq![x[0], !(x[1] || x[2])]);
        assert(wire1.eval(x.skip(3)) =~= seq![x[3]]);
        assert(neither().eval(x) =~= seq![x[0], !(x[1] || x[2]), x[3]]);
    }
}

/// The one-bit comparator is a well-formed combinational block of shape
/// `2 → 3` that returns whether the first bit is greater than, equal to, or
/// less than the second.
pub proof fn lemma_comparator()
    ensures
        combinational(comparator_circuit(), 2, 3),
        forall|limit: nat| 4 <= limit ==> comparator_circuit().bounded(limit),
        forall|x: Seq<bool>|
            x.len() == 2 ==> #[trigger] comparator_circuit().eval(x) == compare_bits(x[0], x[1]),
{
    lemma_fan_pairs();
    lemma_negate_inner();
    lemma_and_pairs();
    lemma_neither();
    let cross = wire(4, seq![0, 2, 1, 3]);
    assert(combinational(cross, 4, 4));
    let s1 = serial(fan_pairs(), negate_inner());
    let s2 = serial(s1, cross);
    let s3 = serial(s2, and_pairs());
    let s4 = serial(s3, fan_pairs());
    lemma_serial(fan_pairs(), negate_inner(), 2, 4, 4);
    lemma_serial(s1, cross, 2, 4, 4);
    lemma_serial(s2, and_pairs(), 2, 4, 2);
    lemma_serial(s3, fan_pairs(), 2, 2, 4);
    lemma_serial(s4, neither(), 2, 4, 3);
    assert forall|limit: nat| 4 <= limit implies comparator_circuit().bounded(limit) by {
        assert(cross.bounded(limit));
        assert(s1.bounded(limit));
        assert(s2.bounded(limit));
        assert(s3.bounded(limit));
        assert(s4.bounded(limit));
    }
    assert forall|x: Seq<bool>| x.len() == 2 implies #[trigger] comparator_circuit().eval(x)
        == compare_bits(x[0], x[1]) by {
        let a = x[0];
        let b = x[1];
        let l1 = fan_pairs().eval(x);
        let l2 = negate_inner().eval(l1);
        let l3 = cross.eval(l2);
        assert(l3 =~= seq![a, !b, !a, b]);
        let l4 = and_pairs().eval(l3);
        let l5 = fan_pairs().eval(l4);
        let l6 = neither().eval(l5);
        assert(l6 =~= compare_bits(a, b));
        assert(comparator_circuit().eval(x) == l6);
    }
}

/// Compares two bits.
pub struct Comparator {
    comp: MergeLayers,
}

impl View for Comparator {
    type V = Circuit;

    closed spec fn view(&self) -> Circuit {
        self.comp@
    }
}

impl Comparator {
    /// A one-bit comparator: inputs `(a, b)`, outputs
    /// `(a > b, a == b, a < b)`.
    pub fn new() -> (r: Self)
        ensures
            r@ == comparator_circuit(),
            r@.realizable(),
            combinational(r@, 2, 3),
            forall|x: Seq<bool>|
                x.len() == 2 ==> #[trigger] r@.eval(x) == compare_bits(x[0], x[1]),
    {
        proof {
            lemma_comparator();
            lemma_fan_pairs();
            lemma_negate_inner();
            lemma_and_pairs();
            lemma_neither();
        }
        let layer1 = Self::branches();
        let mut gates: Vec<Block> = Vec::new();
        gates.push(Buffer::new().into_block());
        gates.push(Not::new().into_block());
        gates.push(Not::new().into_block());
        gates.push(Buffer::new().into_block());
        assert(views(gates@) =~= seq![
            Circuit::Buffer,
            Circuit::Not,
            Circuit::Not,
            Circuit::Buffer,
        ]);
        let layer2 = ConcatBlocks::create(1, 1, gates);
        let mut table: Vec<usize> = Vec::new();
        table.push(0);
        table.push(2);
        table.push(1);
        table.push(3);
        assert(indices(table@) =~= seq![0int, 2, 1, 3]);
        let layer3 = Wiring::create(4, table);
        let layer4 = ConcatBlocks::create_from_fn(2, 1, 2, || -> (g: And)
            ensures
                g@ == (Circuit::And { inputs: 2 }),
            { And::new(2) });
        proof {
            let cells = layer4@->Parallel_cells;
            assert(cells =~= copies(2, Circuit::And { inputs: 2 }));
        }
        let layer5 = Self::branches();
        let nor = MergeLayers::create(Or::new(2).into_block(), Not::new().into_block());
        proof {
            let either = Circuit::Or { inputs: 2 };
            assert(combinational(either, 2, 1));
            assert(combinational(Circuit::Not, 1, 1));
            assert(combinational(Circuit::Buffer, 1, 1));
            lemma_serial(either, Circuit::Not, 2, 1, 1);
            lemma_pair(Circuit::Buffer, serial(either, Circuit::Not), 1, 1, 2, 1);
        }
        let x_eq = ConcatDifferentShapeBlocks::create(Buffer::new().into_block(), nor.into_block());
        let layer6 = ConcatDifferentShapeBlocks::create(
            x_eq.into_block(),
            Buffer::new().into_block(),
        );
        let comp = MergeLayers::create(layer1.into_block(), layer2.into_block()).connect_to(
            layer3.into_block(),
        ).connect_to(layer4.into_block()).connect_to(layer5.into_block()).connect_to(
            layer6.into_block(),
        );
        Self { comp }
    }

    /// Two fan-outs of one wire to two, side by side.
    fn branches() -> (r: ConcatBlocks)
        ensures
            r@ == fan_pairs(),
            r@.realizable(),
    {
        let r = ConcatBlocks::create_from_fn(1, 2, 2, || -> (g: Branch)
            ensures
                g@ == (Circuit::Branch { outputs: 2 }),
            { Branch::new(2) });
        proof {
            let cells = r@->Parallel_cells;
            assert(cells =~= copies(2, Circuit::Branch { outputs: 2 }));
        }
        r
    }
}

impl Component for Comparator {
    fn input_width(&self) -> (w: usize) {
        self.comp.input_width()
    }

    fn output_width(&self) -> (w: usize) {
        self.comp.output_width()
    }

    fn eval(&self, input: &[bool]) -> (out: Vec<bool>) {
        self.comp.eval(input)
    }

    fn eval_mut(&mut self, input: &[bool]) -> (out: Vec<bool>) {
        self.comp.eval_mut(input)
    }

    fn into_block(self) -> (b: Block) {
        self.comp.into_block()
    }
}

/// Four wires to three: the first wire AND-ed with each of the others.
pub open spec fn keep_if_equal() -> Circuit {
    serial(wire(4, seq![0, 1, 0, 2, 0, 3]), row(3, 2, 1, Circuit::And { inputs: 2 }))
}

/// Gating three wires by a fourth is combinational, of shape `4 → 3`.
pub proof fn lemma_keep_if_equal()
    ensures
        combinational(keep_if_equal(), 4, 3),
        forall|limit: nat| 6 <= limit ==> keep_if_equal().bounded(limit),
        forall|x: Seq<bool>|
            x.len() == 4 ==> #[trigger] keep_if_equal().eval(x) == seq![
                x[0] && x[1],
                x[0] && x[2],
                x[0] && x[3],
            ],
{
    let fan = wire(4, seq![0, 1, 0, 2, 0, 3]);
    let cell = Circuit::And { inputs: 2 };
    let gates = row(3, 2, 1, cell);
    assert(combinational(fan, 4, 6));
    assert(combinational(cell, 2, 1));
    lemma_row(3, 2, 1, cell);
    lemma_serial(fan, gates, 4, 6, 3);
    assert forall|limit: nat| 6 <= limit implies keep_if_equal().bounded(limit) by {
        assert(fan.bounded(limit));
        assert(cell.bounded(limit));
        assert(gates.bounded(limit));
    }
    assert forall|x: Seq<bool>| x.len() == 4 implies #[trigger] keep_if_equal().eval(x) == seq![
        x[0] && x[1],
        x[0] && x[2],
        x[0] && x[3],
    ] by {
        let y = fan.eval(x);
        assert(y =~= seq![x[0], x[1], x[0], x[2], x[0], x[3]]);
        lemma_row_bit(3, 2, 1, cell, y, 0, 0);
        lemma_row_bit(3, 2, 1, cell, y, 1, 0);
        lemma_row_bit(3, 2, 1, cell, y, 2, 0);
        assert(chunk(y, 0, 2) =~= seq![x[0], x[1]]);
        assert(chunk(y, 1, 2) =~= seq![x[0], x[2]]);
        assert(chunk(y, 2, 2) =~= seq![x[0], x[3]]);
        lemma_two_bits(seq![x[0], x[1]]);
        lemma_two_bits(seq![x[0], x[2]]);
        lemma_two_bits(seq![x[0], x[3]]);
        assert(gates.eval(y) =~= seq![x[0] && x[1], x[0] && x[2], x[0] && x[3]]);
    }
}

/// Six wires to five: the second wire gates the third, fourth and fifth.
pub open spec fn gate_previous() -> Circuit {
    pair(pair(Circuit::Buffer, keep_if_equal()), Circuit::Buffer)
}

/// Gating the previous verdict is combinational, of shape `6 → 5`.
pub proof fn lemma_gate_previous()
    ensures
        combinational(gate_previous(), 6, 5),
        forall|limit: nat| 6 <= limit ==> gate_previous().bounded(limit),
        forall|x: Seq<bool>|
            x.len() == 6 ==> #[trigger] gate_previous().eval(x) == seq![
                x[0],
                x[1] && x[2],
                x[1] && x[3],
                x[1] && x[4],
                x[5],
            ],
{
    lemma_keep_if_equal();
    let one = Circuit::Buffer;
    let left = pair(one, keep_if_equal());
    assert(combinational(one, 1, 1));
    lemma_pair(one, keep_if_equal(), 1, 1, 4, 3);
    lemma_pair(left, one, 5, 4, 1, 1);
    assert forall|limit: nat| 6 <= limit implies gate_previous().bounded(limit) by {
        assert(one.bounded(limit));
        assert(left.bounded(limit));
    }
    assert forall|x: Seq<bool>| x.len() == 6 implies #[trigger] gate_previous().eval(x) == seq![
        x[0],
        x[1] && x[2],
        x[1] && x[3],
        x[1] && x[4],
        x[5],
    ] by {
        let head = x.take(5);
        let inner = head.skip(1);
        assert(inner =~= seq![x[1], x[2], x[3], x[4]]);
        assert(one.eval(head.take(1)) =~= seq![x[0]]);
        assert(left.eval(head) =~= seq![x[0], x[1] && x[2], x[1] && x[3], x[1] && x[4]]);
        assert(one.eval(x.skip(5)) =~= seq![x[5]]);
        assert(gate_previous().eval(x) =~= seq![
            x[0],
            x[1] && x[2],
            x[1] && x[3],
            x[1] && x[4],
            x[5],
        ]);
    }
}

/// Five wires to three: the OR of the first two, the third, and the OR of
/// the last two.
pub open spec fn merge_verdicts() -> Circuit {
    pair(pair(Circuit::Or { inputs: 2 }, Circuit::Buffer), Circuit::Or { inputs: 2 })
}

/// Merging the verdicts is combinational, of shape `5 → 3`.
pub proof fn lemma_merge_verdicts()
    ensures
        combinational(merge_verdicts(), 5, 3),
        forall|limit: nat| 6 <= limit ==> merge_verdicts().bounded(limit),
        forall|x: Seq<bool>|
            x.len() == 5 ==> #[trigger] merge_verdicts().eval(x) == seq![
                x[0] || x[1],
                x[2],
                x[3] || x[4],
            ],
{
    let either = Circuit::Or { inputs: 2 };
    let one = Circuit::Buffer;
    let left = pair(either, one);
    assert(combinational(one, 1, 1));
    assert(combinational(either, 2, 1));
    lemma_pair(either, one, 2, 1, 1, 1);
    lemma_pair(left, either, 3, 2, 2, 1);
    assert forall|limit: nat| 6 <= limit implies merge_verdicts().bounded(limit) by {
        assert(one.bounded(limit));
        assert(either.bounded(limit));
        assert(left.bounded(limit));
    }
    assert forall|x: Seq<bool>| x.len() == 5 implies #[trigger] merge_verdicts().eval(x) == seq![
        x[0] || x[1],
        x[2],
        x[3] || x[4],
    ] by {
        let head = x.take(3);
        let first = head.take(2);
        let last = x.skip(3);
        assert(first =~= seq![x[0], x[1]]);
        assert(last =~= seq![x[3], x[4]]);
        lemma_two_bits(first);
        lemma_two_bits(last);
        assert(either.eval(first) =~= seq![x[0] || x[1]]);
        assert(either.eval(last) =~= seq![x[3] || x[4]]);
        assert(one.eval(head.skip(2)) =~= seq![x[2]]);
        assert(left.eval(head) =~= seq![x[0] || x[1], x[2]]);
        assert(merge_verdicts().eval(x) =~= seq![x[0] || x[1], x[2], x[3] || x[4]]);
    }
}

/// The model of one cell of the magnitude comparator: the verdict so far
/// and one more pair of bits go in, the verdict with those bits comes out.
pub open spec fn verdict_cell() -> Circuit {
    serial(
        serial(
            serial(
                pair(bitwise(3, Circuit::Buffer), comparator_circuit()),
                wire(6, seq![0, 1, 3, 4, 5, 2]),
            ),
            gate_previous(),
        ),
        merge_verdicts(),
    )
}

/// The verdict with one more pair of bits: where the verdict so far is
/// "equal", the new bits decide; a verdict of "greater" or "less" stands.
pub open spec fn next_verdict(v: Seq<bool>) -> Seq<bool> {
    seq![
        v[0] || (v[1] && v[3] && !v[4]),
        v[1] && v[3] == v[4],
        (v[1] && !v[3] && v[4]) || v[2],
    ]
}

/// A comparator cell is a well-formed combinational block of shape `5 → 3`
/// that returns the verdict with one more pair of bits.
pub proof fn lemma_verdict_cell()
    ensures
        combinational(verdict_cell(), 5, 3),
        forall|limit: nat| 6 <= limit ==> verdict_cell().bounded(limit),
        forall|v: Seq<bool>| v.len() == 5 ==> #[trigger] verdict_cell().eval(v) == next_verdict(v),
{
    lemma_buffers_and_inverters(3);
    lemma_comparator();
    lemma_gate_previous();
    lemma_merge_verdicts();
    let keep = bitwise(3, Circuit::Buffer);
    let l1 = pair(keep, comparator_circuit());
    let l2 = wire(6, seq![0, 1, 3, 4, 5, 2]);
    let s1 = serial(l1, l2);
    let s2 = serial(s1, gate_previous());
    lemma_pair(keep, comparator_circuit(), 3, 3, 2, 3);
    assert(combinational(l2, 6, 6));
    lemma_serial(l1, l2, 5, 6, 6);
    lemma_serial(s1, gate_previous(), 5, 6, 5);
    lemma_serial(s2, merge_verdicts(), 5, 5, 3);
    assert forall|limit: nat| 6 <= limit implies verdict_cell().bounded(limit) by {
        assert(keep.bounded(limit));
        assert(l1.bounded(limit));
        assert(l2.bounded(limit));
        assert(s1.bounded(limit));
        assert(s2.bounded(limit));
    }
    assert forall|v: Seq<bool>| v.len() == 5 implies #[trigger] verdict_cell().eval(v)
        == next_verdict(v) by {
        let bits = v.skip(3);
        assert(comparator_circuit().eval(bits) == compare_bits(bits[0], bits[1]));
        assert(keep.eval(v.take(3)) == v.take(3));
        let y1 = l1.eval(v);
        assert(y1 =~= seq![v[0], v[1], v[2], v[3] && !v[4], v[3] == v[4], !v[3] && v[4]]);
        let y2 = l2.eval(y1);
        assert(y2 =~= seq![y1[0], y1[1], y1[3], y1[4], y1[5], y1[2]]);
        let y3 = gate_previous().eval(y2);
        let y4 = merge_verdicts().eval(y3);
        assert(y4 =~= next_verdict(v));
        assert(verdict_cell().eval(v) == y4);
    }
}

/// The verdict on two numbers that follows a prior verdict `seed`: where
/// the prior verdict is "equal", the numbers decide; a prior verdict of
/// "greater" or "less" stands.
pub open spec fn verdict(a: nat, b: nat, seed: Seq<bool>) -> Seq<bool> {
    seq![seed[0] || (seed[1] && a > b), seed[1] && a == b, (seed[1] && a < b) || seed[2]]
}

/// A row of comparator cells compares bit by bit, most significant pair
/// first: the verdict that leaves the first `k` cells is the verdict on the
/// top `k` bits of both operands.
pub proof fn lemma_verdict_chain(
    cells: Seq<spec_fn(Seq<bool>) -> Seq<bool>>,
    a: Seq<bool>,
    b: Seq<bool>,
    h: Seq<bool>,
    xs: Seq<bool>,
    k: nat,
)
    requires
        cells.len() == 8,
        k <= 8,
        a.len() == 8,
        b.len() == 8,
        h.len() == 3,
        xs.len() == 16,
        forall|i: int, v: Seq<bool>|
            0 <= i < 8 && v.len() == 5 ==> #[trigger] cells[i](v) == next_verdict(v),
        forall|j: int| 0 <= j < 8 ==> #[trigger] chunk(xs, j, 2) == seq![a[7 - j], b[7 - j]],
    ensures
        emitted(cells, 2, 0, h, xs, k).len() == 0,
        carried(cells, 2, 0, h, xs, k) == verdict(
            value_of(a.skip(8 - k)),
            value_of(b.skip(8 - k)),
            h,
        ),
    decreases k,
{
    assert forall|i: int, v: Seq<bool>|
        0 <= i < cells.len() && v.len() == 3 + 2 implies (#[trigger] cells[i](v)).len() == 0
        + 3 by {
        assert(cells[i](v) == next_verdict(v));
    }
    lemma_chain_shape(cells, 3, 2, 0, h, xs, k);
    assert(k * 0 == 0) by (nonlinear_arith);
    if k == 0 {
        assert(a.skip(8) =~= Seq::<bool>::empty());
        assert(b.skip(8) =~= Seq::<bool>::empty());
        assert(carried(cells, 2, 0, h, xs, 0) =~= verdict(0, 0, h));
    } else {
        let j = (k - 1) as nat;
        lemma_verdict_chain(cells, a, b, h, xs, j);
        let before = carried(cells, 2, 0, h, xs, j);
        let piece = chunk(xs, j as int, 2);
        assert(piece == seq![a[7 - j], b[7 - j]]);
        let fed = before + piece;
        let produced = cells[j as int](fed);
        assert(produced == next_verdict(fed));
        assert(produced.skip(0) =~= produced);
        let top_a = value_of(a.skip(8 - j));
        let top_b = value_of(b.skip(8 - j));
        assert(a.skip(8 - k) =~= seq![a[7 - j]] + a.skip(8 - j));
        assert(b.skip(8 - k) =~= seq![b[7 - j]] + b.skip(8 - j));
        lemma_value_of_concat(seq![a[7 - j]], a.skip(8 - j));
        lemma_value_of_concat(seq![b[7 - j]], b.skip(8 - j));
        lemma_value_of_single(a[7 - j]);
        lemma_value_of_single(b[7 - j]);
        vstd::arithmetic::power2::lemma2_to64();
        assert(value_of(a.skip(8 - k)) == bit(a[7 - j]) + 2 * top_a);
        assert(value_of(b.skip(8 - k)) == bit(b[7 - j]) + 2 * top_b);
        assert(fed[0] == before[0] && fed[1] == before[1] && fed[2] == before[2] && fed[3]
            == a[7 - j] && fed[4] == b[7 - j]);
        assert(produced =~= verdict(value_of(a.skip(8 - k)), value_of(b.skip(8 - k)), h));
    }
}

/// The table that lays two eight-bit operands out pair by pair, the most
/// significant pair first.
pub open spec fn pairs_from_the_top() -> Seq<int> {
    Seq::new(16, |i: int| (i % 2) * 8 + 7 - i / 2)
}

/// The wiring in front of the magnitude comparator: the seed is passed on,
/// and the two operands are laid out pair by pair, the most significant
/// pair first.
pub open spec fn seeded_interleave() -> Circuit {
    pair(bitwise(3, Circuit::Buffer), wire(16, pairs_from_the_top()))
}

/// Eight comparator cells in a row, the verdict handed from each to the
/// next.
pub open spec fn verdict_row() -> Circuit {
    Circuit::Recurrent { state: 3, inputs: 2, outputs: 0, cells: copies(8, verdict_cell()) }
}

/// The model of the eight-bit magnitude comparator.
pub open spec fn eight_bit_comparator_circuit() -> Circuit {
    serial(seeded_interleave(), verdict_row())
}

/// The row of comparator cells is a combinational block of shape `19 → 3`.
pub proof fn lemma_verdict_row()
    ensures
        combinational(verdict_row(), 19, 3),
        forall|limit: nat| 19 <= limit ==> verdict_row().bounded(limit),
{
    lemma_verdict_cell();
    let cells = copies(8, verdict_cell());
    lemma_recurrent_shape(3, 2, 0, cells);
    assert forall|limit: nat| 19 <= limit implies verdict_row().bounded(limit) by {
        assert forall|i: int| 0 <= i < cells.len() implies (#[trigger] cells[i]).bounded(limit) by {
        }
    }
}

/// The row of comparator cells, fed a prior verdict and the pairs of bits
/// of two operands from the top down, returns the verdict on the operands
/// that follows the prior verdict.
pub proof fn lemma_verdict_row_eval(y: Seq<bool>, a: Seq<bool>, b: Seq<bool>)
    requires
        y.len() == 19,
        a.len() == 8,
        b.len() == 8,
        y.skip(3) == route(pairs_from_the_top(), a + b),
    ensures
        verdict_row().eval(y) == verdict(value_of(a), value_of(b), y.take(3)),
{
    lemma_verdict_cell();
    let cell = verdict_cell();
    let cells = copies(8, cell);
    let fs = evals(cells);
    assert forall|i: int, v: Seq<bool>| 0 <= i < fs.len() && v.len() == 5 implies #[trigger] fs[i](
        v,
    ) == next_verdict(v) by {
        assert(fs[i](v) == cell.eval(v));
    }
    lemma_recurrent_eval(3, 2, 0, cells, y);
    let h = y.take(3);
    let xs = y.skip(3);
    assert forall|j: int| 0 <= j < 8 implies #[trigger] chunk(xs, j, 2) == seq![
        a[7 - j],
        b[7 - j],
    ] by {
        assert(pairs_from_the_top()[2 * j] == 7 - j);
        assert(pairs_from_the_top()[2 * j + 1] == 15 - j);
        assert(chunk(xs, j, 2) =~= seq![a[7 - j], b[7 - j]]);
    }
    lemma_verdict_chain(fs, a, b, h, xs, 8);
    let out = emitted(fs, 2, 0, h, xs, 8);
    let last = carried(fs, 2, 0, h, xs, 8);
    assert(out + last =~= last);
    assert(a.skip(0) =~= a);
    assert(b.skip(0) =~= b);
}

/// The magnitude comparator is a well-formed combinational block of shape
/// `19 → 3`: fed a prior verdict of three bits and two eight-bit operands,
/// it returns whether the first is greater than, equal to, or less than the
/// second if the prior verdict is "equal", and the prior verdict if it is
/// "greater" or "less".
pub proof fn lemma_eight_bit_comparator()
    ensures
        combinational(eight_bit_comparator_circuit(), 19, 3),
        forall|limit: nat| 19 <= limit ==> eight_bit_comparator_circuit().bounded(limit),
        forall|x: Seq<bool>|
            x.len() == 19 ==> #[trigger] eight_bit_comparator_circuit().eval(x) == verdict(
                value_of(span(x, 3, 8)),
                value_of(span(x, 11, 8)),
                x.take(3),
            ),
{
    lemma_verdict_row();
    lemma_buffers_and_inverters(3);
    let keep = bitwise(3, Circuit::Buffer);
    let lay = wire(16, pairs_from_the_top());
    let front = seeded_interleave();
    assert(combinational(lay, 16, 16));
    lemma_pair(keep, lay, 3, 3, 16, 16);
    lemma_serial(front, verdict_row(), 19, 19, 3);
    assert forall|limit: nat| 19 <= limit implies eight_bit_comparator_circuit().bounded(
        limit,
    ) by {
        assert(keep.bounded(limit));
        assert(lay.bounded(limit));
        assert(front.bounded(limit));
    }
    assert forall|x: Seq<bool>| x.len() == 19 implies #[trigger] eight_bit_comparator_circuit().eval(
        x,
    ) == verdict(value_of(span(x, 3, 8)), value_of(span(x, 11, 8)), x.take(3)) by {
        let rest = x.skip(3);
        let a = span(x, 3, 8);
        let b = span(x, 11, 8);
        let y = front.eval(x);
        assert(rest =~= a + b);
        assert(y.take(3) =~= x.take(3));
        assert(y.skip(3) =~= route(pairs_from_the_top(), a + b));
        lemma_verdict_row_eval(y, a, b);
    }
}

/// Comparator correctness: for `a` and `b` below 256 and the seed
/// `(false, true, false)`, the comparator returns `(a > b, a == b, a < b)`,
/// of which exactly one is true.
pub proof fn lemma_eight_bit_comparison(a: nat, b: nat)
    requires
        a < 256,
        b < 256,
    ensures
        eight_bit_comparator_circuit().eval(
            seq![false, true, false] + bits_of(a, 8) + bits_of(b, 8),
        ) == seq![a > b, a == b, a < b],
        (a > b && a != b && !(a < b)) || (!(a > b) && a == b && !(a < b)) || (!(a > b) && a != b
            && a < b),
{
    lemma_eight_bit_comparator();
    let x = seq![false, true, false] + bits_of(a, 8) + bits_of(b, 8);
    assert(x.len() == 19);
    assert(span(x, 3, 8) =~= bits_of(a, 8));
    assert(span(x, 11, 8) =~= bits_of(b, 8));
    assert(x.take(3) =~= seq![false, true, false]);
    lemma_value_of_bits(a, 8);
    lemma_value_of_bits(b, 8);
    vstd::arithmetic::power2::lemma2_to64();
    vstd::arithmetic::div_mod::lemma_small_mod(a, 256);
    vstd::arithmetic::div_mod::lemma_small_mod(b, 256);
    assert(verdict(a, b, seq![false, true, false]) =~= seq![a > b, a == b, a < b]);
}

/// Compares two eight-bit numbers.
pub struct EightBitComparator {
    comp: MergeLayers,
}

impl View for EightBitComparator {
    type V = Circuit;

    closed spec fn view(&self) -> Circuit {
        self.comp@
    }
}

impl EightBitComparator {
    /// An eight-bit magnitude comparator: the input is a prior verdict of
    /// three bits, then the first operand, then the second, each least
    /// significant bit first. Where the prior verdict is "equal", that is
    /// `(false, true, false)`, the output is `(a > b, a == b, a < b)`; a
    /// prior verdict of "greater" or "less" is returned as it is.
    pub fn new() -> (r: Self)
        ensures
            r@ == eight_bit_comparator_circuit(),
            r@.realizable(),
            combinational(r@, 19, 3),
            forall|x: Seq<bool>|
                x.len() == 19 ==> #[trigger] r@.eval(x) == verdict(
                    value_of(span(x, 3, 8)),
                    value_of(span(x, 11, 8)),
                    x.take(3),
                ),
    {
        proof {
            lemma_eight_bit_comparator();
            lemma_verdict_row();
            lemma_verdict_cell();
            lemma_buffers_and_inverters(3);
        }
        let comp_core = RecurrentBlock::create_from_fn(3, 2, 0, 8, Self::make_comp);
        proof {
            let cells = comp_core@->Recurrent_cells;
            assert forall|k: int| 0 <= k < 8 implies cells[k] == verdict_cell() by {
                assert(makes(Self::make_comp, cells[k]));
            }
            assert(cells =~= copies(8, verdict_cell()));
        }
        let mut table: Vec<usize> = Vec::new();
        let mut i: usize = 0;
        while i < 16
            invariant
                i <= 16,
                table@.len() == i,
                forall|q: int| 0 <= q < i ==> table@[q] == pairs_from_the_top()[q],
                forall|q: int| 0 <= q < i ==> table@[q] < 16,
            decreases 16 - i,
        {
            table.push((i % 2) * 8 + 7 - i / 2);
            i += 1;
        }
        assert(indices(table@) =~= pairs_from_the_top());
        let zip_data = Wiring::create(16, table);
        let prev_input = Self::buffers();
        let layer1 = ConcatDifferentShapeBlocks::create(
            prev_input.into_block(),
            zip_data.into_block(),
        );
        let comp = MergeLayers::create(layer1.into_block(), comp_core.into_block());
        Self { comp }
    }

    /// Three buffers side by side.
    fn buffers() -> (r: ConcatBlocks)
        ensures
            r@ == bitwise(3, Circuit::Buffer),
            r@.realizable(),
    {
        let r = ConcatBlocks::create_from_fn(1, 1, 3, Buffer::new);
        proof {
            let cells = r@->Parallel_cells;
            assert forall|k: int| 0 <= k < 3 implies cells[k] == Circuit::Buffer by {
                assert(makes(Buffer::new, cells[k]));
            }
            assert(cells =~= copies(3, Circuit::Buffer));
        }
        r
    }

    /// One cell of the comparator.
    fn make_comp() -> (r: MergeLayers)
        ensures
            r@ == verdict_cell(),
            r@.realizable(),
            r@.input_width() == 5,
            r@.output_width() == 3,
    {
        proof {
            lemma_verdict_cell();
            lemma_keep_if_equal();
            lemma_gate_previous();
            lemma_merge_verdicts();
            lemma_comparator();
            lemma_buffers_and_inverters(3);
            lemma_row(3, 2, 1, Circuit::And { inputs: 2 });
            assert(combinational(Circuit::Buffer, 1, 1));
            assert(combinational(Circuit::Or { inputs: 2 }, 2, 1));
            lemma_pair(Circuit::Buffer, keep_if_equal(), 1, 1, 4, 3);
            lemma_pair(Circuit::Or { inputs: 2 }, Circuit::Buffer, 2, 1, 1, 1);
        }
        let if_eq = {
            let mut table: Vec<usize> = Vec::new();
            table.push(0);
            table.push(1);
            table.push(0);
            table.push(2);
            table.push(0);
            table.push(3);
            assert(indices(table@) =~= seq![0int, 1, 0, 2, 0, 3]);
            let layer1 = Wiring::create(4, table);
            let layer2 = ConcatBlocks::create_from_fn(2, 1, 3, || -> (g: And)
                ensures
                    g@ == (Circuit::And { inputs: 2 }),
                { And::new(2) });
            proof {
                let cells = layer2@->Parallel_cells;
                assert(cells =~= copies(3, Circuit::And { inputs: 2 }));
            }
            MergeLayers::create(layer1.into_block(), layer2.into_block())
        };
        let cur_bit_comp = Comparator::new();
        let recur_bit = Self::buffers();
        let layer1 = ConcatDifferentShapeBlocks::create(
            recur_bit.into_block(),
            cur_bit_comp.into_block(),
        );
        let mut table: Vec<usize> = Vec::new();
        table.push(0);
        table.push(1);
        table.push(3);
        table.push(4);
        table.push(5);
        table.push(2);
        assert(indices(table@) =~= seq![0int, 1, 3, 4, 5, 2]);
        let layer2 = Wiring::create(6, table);
        let layer3 = ConcatDifferentShapeBlocks::create(
            Buffer::new().into_block(),
            if_eq.into_block(),
        );
        let layer3 = ConcatDifferentShapeBlocks::create(
            layer3.into_block(),
            Buffer::new().into_block(),
        );
        let layer4 = ConcatDifferentShapeBlocks::create(
            Or::new(2).into_block(),
            Buffer::new().into_block(),
        );
        let layer4 = ConcatDifferentShapeBlocks::create(
            layer4.into_block(),
            Or::new(2).into_block(),
        );
        assert(layer3@ == gate_previous());
        assert(layer4@ == merge_verdicts());
        proof {
            lemma_pair(bitwise(3, Circuit::Buffer), comparator_circuit(), 3, 3, 2, 3);
            assert(layer1@ == pair(bitwise(3, Circuit::Buffer), comparator_circuit()));
            assert(layer2@ == wire(6, seq![0, 1, 3, 4, 5, 2]));
            assert(combinational(layer2@, 6, 6));
            lemma_serial(layer1@, layer2@, 5, 6, 6);
        }
        let front = MergeLayers::create(layer1.into_block(), layer2.into_block());
        let gated = front.connect_to(layer3.into_block());
        assert(gated@.output_width() == 5);
        gated.connect_to(layer4.into_block())
    }
}

impl Component for EightBitComparator {
    fn input_width(&self) -> (w: usize) {
        self.comp.input_width()
    }

    fn output_width(&self) -> (w: usize) {
        self.comp.output_width()
    }

    fn eval(&self, input: &[bool]) -> (out: Vec<bool>) {
        self.comp.eval(input)
    }

    fn eval_mut(&mut self, input: &[bool]) -> (out: Vec<bool>) {
        self.comp.eval_mut(input)
    }

    fn into_block(self) -> (b: Block) {
        self.comp.into_block()
    }
}

} // verus!
