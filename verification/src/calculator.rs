//! Arithmetic built from gates: adders, a subtractor, comparators and a
//! multiplier.
use crate::basic_comp::{lemma_xor, xor_circuit, xor_of, And, Buffer, Or, XOR};
use crate::blocks::{
    views, Block, Component, ConcatBlocks, ConcatDifferentShapeBlocks, MergeLayers,
};
use crate::circuit::{all_true, any_true, chunk, route, Circuit};
use crate::laws::{
    combinational, lemma_pair, lemma_parallel_bit, lemma_parallel_shape, lemma_serial, pair,
    serial,
};
use crate::blocks::RecurrentBlock;
use crate::carry_chain::{
    adder_row, adds, eval_of, lemma_adder_row, lemma_bit_interleave, lemma_operand_index, operand,
    span,
};
use crate::basic_comp::Not;
use crate::laws::{bitwise, complement, copies, lemma_buffers_and_inverters};
use crate::num_bit_converter::lemma_value_of_negation;
use crate::num_bit_converter::{
    bit, bits_of, lemma_bits_of_value, lemma_value_of_bits, lemma_value_of_bound,
    lemma_value_of_concat, lemma_value_of_single, value_of,
};
use vstd::arithmetic::power2::pow2;
use crate::basic_comp::Constant;
use crate::wiring::{
    indices, wire, wrapper_table, zip_table, zip_with_chunk_table, Wiring,
};
use vstd::prelude::*;

verus! {

/// The model of a half adder: both inputs are presented to an exclusive-or
/// gate and to an AND gate.
pub open spec fn half_adder_circuit() -> Circuit {
    serial(
        Circuit::Wiring { inputs: 2, table: seq![0, 1, 0, 1] },
        Circuit::Parallel {
            inputs: 2,
            outputs: 1,
            cells: seq![xor_circuit(2), Circuit::And { inputs: 2 }],
        },
    )
}

/// Sum and carry of two bits.
pub open spec fn half_sum(x: Seq<bool>) -> Seq<bool> {
    seq![x[0] != x[1], x[0] && x[1]]
}

/// The two gates of a half adder side by side: fed two bits twice over,
/// they return the sum bit and the carry bit.
proof fn lemma_half_adder_gates()
    ensures
        ({
            let side = Circuit::Parallel {
                inputs: 2,
                outputs: 1,
                cells: seq![xor_circuit(2), Circuit::And { inputs: 2 }],
            };
            &&& combinational(side, 4, 2)
            &&& forall|limit: nat| 4 <= limit ==> side.bounded(limit)
            &&& forall|x: Seq<bool>| x.len() == 2 ==> #[trigger] side.eval(x + x) == half_sum(x)
        }),
{
    lemma_xor(2);
    let cells = seq![xor_circuit(2), Circuit::And { inputs: 2 }];
    let side = Circuit::Parallel { inputs: 2, outputs: 1, cells };
    assert(cells[0] == xor_circuit(2));
    assert(cells[1] == Circuit::And { inputs: 2 });
    assert(combinational(cells[1], 2, 1));
    lemma_parallel_shape(2, 1, cells);
    assert forall|limit: nat| 4 <= limit implies side.bounded(limit) by {
        assert(cells[0].bounded(limit));
        assert(cells[1].bounded(limit));
    }
    assert forall|x: Seq<bool>| x.len() == 2 implies #[trigger] side.eval(x + x) == half_sum(
        x,
    ) by {
        let doubled = x + x;
        lemma_parallel_bit(2, 1, cells, doubled, 0, 0);
        lemma_parallel_bit(2, 1, cells, doubled, 1, 0);
        assert(chunk(doubled, 0, 2) =~= x);
        assert(chunk(doubled, 1, 2) =~= x);
        lemma_two_bits(x);
        assert(side.eval(doubled) =~= half_sum(x));
    }
}

/// A half adder is a well-formed combinational block of shape `2 → 2` that
/// returns the sum bit and the carry bit of its two inputs.
pub proof fn lemma_half_adder()
    ensures
        combinational(half_adder_circuit(), 2, 2),
        forall|limit: nat| 4 <= limit ==> half_adder_circuit().bounded(limit),
        forall|x: Seq<bool>|
            x.len() == 2 ==> #[trigger] half_adder_circuit().eval(x) == half_sum(x),
{
    lemma_half_adder_gates();
    let table = seq![0int, 1, 0, 1];
    let fan = Circuit::Wiring { inputs: 2, table };
    let side = Circuit::Parallel {
        inputs: 2,
        outputs: 1,
        cells: seq![xor_circuit(2), Circuit::And { inputs: 2 }],
    };
    assert(combinational(fan, 2, 4));
    lemma_serial(fan, side, 2, 4, 2);
    assert forall|limit: nat| 4 <= limit implies half_adder_circuit().bounded(limit) by {
        assert(fan.bounded(limit));
    }
    assert forall|x: Seq<bool>| x.len() == 2 implies #[trigger] half_adder_circuit().eval(x)
        == half_sum(x) by {
        assert(fan.eval(x) =~= x + x);
    }
}

/// On two bits, "some true and some false" is inequality, and "all true" is
/// conjunction.
pub proof fn lemma_two_bits(x: Seq<bool>)
    requires
        x.len() == 2,
    ensures
        xor_of(x) == (x[0] != x[1]),
        all_true(x) == (x[0] && x[1]),
        any_true(x) == (x[0] || x[1]),
{
    if x[0] {
        assert(0 <= 0 < x.len() && x[0]);
    }
    if x[1] {
        assert(0 <= 1 < x.len() && x[1]);
    }
}

/// Adds two bits.
pub struct HalfAdder {
    adder: MergeLayers,
}

impl View for HalfAdder {
    type V = Circuit;

    closed spec fn view(&self) -> Circuit {
        self.adder@
    }
}

impl HalfAdder {
    /// A half adder: inputs `(a, b)`, outputs `(sum, carry)`.
    pub fn new() -> (r: Self)
        ensures
            r@ == half_adder_circuit(),
            r@.realizable(),
            combinational(r@, 2, 2),
            forall|x: Seq<bool>| x.len() == 2 ==> #[trigger] r@.eval(x) == half_sum(x),
    {
        proof {
            lemma_half_adder();
            lemma_xor(2);
        }
        let mut table: Vec<usize> = Vec::new();
        table.push(0);
        table.push(1);
        table.push(0);
        table.push(1);
        assert(indices(table@) =~= seq![0int, 1, 0, 1]);
        let layer1 = Wiring::create(2, table);
        let mut gates: Vec<Block> = Vec::new();
        gates.push(XOR::new(2).into_block());
        gates.push(And::new(2).into_block());
        assert(views(gates@) =~= seq![xor_circuit(2), Circuit::And { inputs: 2 }]);
        let layer2 = ConcatBlocks::create(2, 1, gates);
        let adder = MergeLayers::create(layer1.into_block(), layer2.into_block());
        Self { adder }
    }
}

impl Component for HalfAdder {
    fn input_width(&self) -> (w: usize) {
        self.adder.input_width()
    }

    fn output_width(&self) -> (w: usize) {
        self.adder.output_width()
    }

    fn eval(&self, input: &[bool]) -> (out: Vec<bool>) {
        self.adder.eval(input)
    }

    fn eval_mut(&mut self, input: &[bool]) -> (out: Vec<bool>) {
        self.adder.eval_mut(input)
    }

    fn into_block(self) -> (b: Block) {
        self.adder.into_block()
    }
}

/// The model of a full adder: two half adders, and an OR gate over their
/// carries.
pub open spec fn full_adder_circuit() -> Circuit {
    serial(
        serial(
            pair(Circuit::Buffer, half_adder_circuit()),
            pair(half_adder_circuit(), Circuit::Buffer),
        ),
        pair(Circuit::Buffer, Circuit::Or { inputs: 2 }),
    )
}

/// Sum and carry of three bits.
pub open spec fn full_sum(x: Seq<bool>) -> Seq<bool> {
    seq![(x[0] != x[1]) != x[2], (x[0] && x[1]) || (x[0] && x[2]) || (x[1] && x[2])]
}

/// A full adder is a well-formed combinational block of shape `3 → 2` that
/// returns the sum bit and the carry bit of its three inputs.
pub proof fn lemma_full_adder()
    ensures
        combinational(full_adder_circuit(), 3, 2),
        forall|limit: nat| 4 <= limit ==> full_adder_circuit().bounded(limit),
        forall|x: Seq<bool>|
            x.len() == 3 ==> #[trigger] full_adder_circuit().eval(x) == full_sum(x),
{
    lemma_half_adder();
    let half = half_adder_circuit();
    let wire = Circuit::Buffer;
    let gate = Circuit::Or { inputs: 2 };
    let layer1 = pair(wire, half);
    let layer2 = pair(half, wire);
    let layer3 = pair(wire, gate);
    let front = serial(layer1, layer2);
    assert(combinational(wire, 1, 1));
    assert(combinational(gate, 2, 1));
    lemma_pair(wire, half, 1, 1, 2, 2);
    lemma_pair(half, wire, 2, 2, 1, 1);
    lemma_pair(wire, gate, 1, 1, 2, 1);
    lemma_serial(layer1, layer2, 3, 3, 3);
    lemma_serial(front, layer3, 3, 3, 2);
    assert forall|limit: nat| 4 <= limit implies full_adder_circuit().bounded(limit) by {
        assert(wire.bounded(limit));
        assert(gate.bounded(limit));
        assert(half.bounded(limit));
        assert(layer1.bounded(limit));
        assert(layer2.bounded(limit));
        assert(layer3.bounded(limit));
        assert(front.bounded(limit));
    }
    assert forall|x: Seq<bool>| x.len() == 3 implies #[trigger] full_adder_circuit().eval(x)
        == full_sum(x) by {
        let first = x.skip(1);
        assert(half.eval(first) == half_sum(first));
        assert(wire.eval(x.take(1)) =~= seq![x[0]]);
        let l1 = layer1.eval(x);
        assert(l1 =~= seq![x[0], x[1] != x[2], x[1] && x[2]]);
        let second = l1.take(2);
        assert(half.eval(second) == half_sum(second));
        assert(wire.eval(l1.skip(2)) =~= seq![l1[2]]);
        let l2 = layer2.eval(l1);
        assert(l2 =~= seq![l1[0] != l1[1], l1[0] && l1[1], l1[2]]);
        let carries = l2.skip(1);
        lemma_two_bits(carries);
        assert(wire.eval(l2.take(1)) =~= seq![l2[0]]);
        assert(gate.eval(carries) =~= seq![l2[1] || l2[2]]);
        let l3 = layer3.eval(l2);
        assert(l3 =~= seq![l2[0], l2[1] || l2[2]]);
        assert(l3 =~= full_sum(x));
    }
}

/// Adds three bits.
pub struct FullAdder {
    adder: MergeLayers,
}

impl View for FullAdder {
    type V = Circuit;

    closed spec fn view(&self) -> Circuit {
        self.adder@
    }
}

impl FullAdder {
    /// A full adder: three input bits, outputs `(sum, carry)`.
    pub fn new() -> (r: Self)
        ensures
            r@ == full_adder_circuit(),
            r@.realizable(),
            combinational(r@, 3, 2),
            forall|x: Seq<bool>| x.len() == 3 ==> #[trigger] r@.eval(x) == full_sum(x),
    {
        proof {
            lemma_full_adder();
        }
        let layer1 = ConcatDifferentShapeBlocks::create(
            Buffer::new().into_block(),
            HalfAdder::new().into_block(),
        );
        let layer2 = ConcatDifferentShapeBlocks::create(
            HalfAdder::new().into_block(),
            Buffer::new().into_block(),
        );
        let layer3 = ConcatDifferentShapeBlocks::create(
            Buffer::new().into_block(),
            Or::new(2).into_block(),
        );
        let adder = MergeLayers::create(layer1.into_block(), layer2.into_block()).connect_to(
            layer3.into_block(),
        );
        Self { adder }
    }
}

impl Component for FullAdder {
    fn input_width(&self) -> (w: usize) {
        self.adder.input_width()
    }

    fn output_width(&self) -> (w: usize) {
        self.adder.output_width()
    }

    fn eval(&self, input: &[bool]) -> (out: Vec<bool>) {
        self.adder.eval(input)
    }

    fn eval_mut(&mut self, input: &[bool]) -> (out: Vec<bool>) {
        self.adder.eval_mut(input)
    }

    fn into_block(self) -> (b: Block) {
        self.adder.into_block()
    }
}

/// Two bits spell the first plus twice the second.
pub proof fn lemma_value_of_two(low: bool, high: bool)
    ensures
        value_of(seq![low, high]) == bit(low) + 2 * bit(high),
{
    lemma_value_of_single(low);
    lemma_value_of_single(high);
    crate::num_bit_converter::lemma_value_of_concat(seq![low], seq![high]);
    assert(seq![low] + seq![high] =~= seq![low, high]);
    vstd::arithmetic::power2::lemma2_to64();
}

/// The sum bit plus twice the carry bit of three bits is their number.
pub proof fn lemma_full_sum_value(v: Seq<bool>)
    requires
        v.len() == 3,
    ensures
        full_sum(v).len() == 2,
        value_of(full_sum(v)) == bit(v[0]) + bit(v[1]) + bit(v[2]),
{
    let out = full_sum(v);
    lemma_value_of_two(out[0], out[1]);
    assert(out =~= seq![out[0], out[1]]);
}

/// A full adder adds one-bit numbers.
pub proof fn lemma_full_adder_adds()
    ensures
        adds(eval_of(full_adder_circuit()), 1),
{
    lemma_full_adder();
    assert forall|v: Seq<bool>| v.len() == 1 + 2 * 1 implies (#[trigger] eval_of(
        full_adder_circuit(),
    )(v)).len() == 1 + 1 && value_of(eval_of(full_adder_circuit())(v)) == bit(v[0]) + value_of(
        span(v, 1, 1),
    ) + value_of(span(v, 1 + 1, 1)) by {
        assert(eval_of(full_adder_circuit())(v) == full_sum(v));
        lemma_full_sum_value(v);
        assert(span(v, 1, 1) =~= seq![v[1]]);
        assert(span(v, 2, 1) =~= seq![v[2]]);
        lemma_value_of_single(v[1]);
        lemma_value_of_single(v[2]);
    }
}

/// The wiring in front of the eight-bit adder: the carry is passed on, and
/// the two operands are interleaved bit by bit.
pub open spec fn operand_interleave() -> Circuit {
    pair(Circuit::Buffer, wire(16, zip_table(16, 2)))
}

/// The model of the eight-bit ripple-carry adder: the operands are
/// interleaved, then a carry runs through eight full adders.
pub open spec fn eight_bit_full_adder_circuit() -> Circuit {
    serial(operand_interleave(), adder_row(8, 1, full_adder_circuit()))
}

/// The interleaving wiring is a combinational block of shape `17 → 17` that
/// keeps the carry in front and lays the two operands out bit by bit.
pub proof fn lemma_operand_interleave()
    ensures
        combinational(operand_interleave(), 17, 17),
        forall|limit: nat| 17 <= limit ==> operand_interleave().bounded(limit),
        forall|x: Seq<bool>|
            x.len() == 17 ==> {
                let y = #[trigger] operand_interleave().eval(x);
                &&& y.len() == 17
                &&& y[0] == x[0]
                &&& operand(y.skip(1), 1, 0, 8, 8) == span(x, 1, 8)
                &&& operand(y.skip(1), 1, 1, 8, 8) == span(x, 9, 8)
            },
{
    let table = zip_table(16, 2);
    let zip = wire(16, table);
    assert(combinational(Circuit::Buffer, 1, 1));
    assert(combinational(zip, 16, 16));
    lemma_pair(Circuit::Buffer, zip, 1, 1, 16, 16);
    assert forall|limit: nat| 17 <= limit implies operand_interleave().bounded(limit) by {
        assert(Circuit::Buffer.bounded(limit));
        assert(zip.bounded(limit));
    }
    assert forall|x: Seq<bool>| x.len() == 17 implies {
        let y = #[trigger] operand_interleave().eval(x);
        &&& y.len() == 17
        &&& y[0] == x[0]
        &&& operand(y.skip(1), 1, 0, 8, 8) == span(x, 1, 8)
        &&& operand(y.skip(1), 1, 1, 8, 8) == span(x, 9, 8)
    } by {
        let y = operand_interleave().eval(x);
        let rest = x.skip(1);
        assert(Circuit::Buffer.eval(x.take(1)) =~= seq![x[0]]);
        assert(y.skip(1) =~= zip.eval(rest));
        lemma_bit_interleave(rest);
        assert(span(rest, 0, 8) =~= span(x, 1, 8));
        assert(span(rest, 8, 8) =~= span(x, 9, 8));
    }
}

/// The eight-bit adder is a well-formed combinational block of shape
/// `17 → 9` that adds eight-bit numbers: fed a carry and two operands, it
/// returns nine bits that spell their sum.
pub proof fn lemma_eight_bit_full_adder()
    ensures
        combinational(eight_bit_full_adder_circuit(), 17, 9),
        forall|limit: nat| 17 <= limit ==> eight_bit_full_adder_circuit().bounded(limit),
        adds(eval_of(eight_bit_full_adder_circuit()), 8),
{
    lemma_full_adder();
    lemma_full_adder_adds();
    lemma_operand_interleave();
    let cell = full_adder_circuit();
    let row = adder_row(8, 1, cell);
    let front = operand_interleave();
    lemma_adder_row(8, 1, cell);
    lemma_serial(front, row, 17, 17, 9);
    assert forall|limit: nat| 17 <= limit implies eight_bit_full_adder_circuit().bounded(
        limit,
    ) by {
        assert(cell.bounded(limit));
        assert(row.bounded(limit));
        assert(front.bounded(limit));
    }
    assert forall|v: Seq<bool>| v.len() == 17 implies (#[trigger] eval_of(
        eight_bit_full_adder_circuit(),
    )(v)).len() == 9 && value_of(eval_of(eight_bit_full_adder_circuit())(v)) == bit(v[0])
        + value_of(span(v, 1, 8)) + value_of(span(v, 9, 8)) by {
        let y = front.eval(v);
        assert(eight_bit_full_adder_circuit().eval(v) == row.eval(y));
    }
}

/// Adder correctness, eight bits: for `a` and `b` below 256 and a carry `c`,
/// the adder fed `c`, `a`, `b` returns `a + b + c` in nine bits.
pub proof fn lemma_eight_bit_sum(c: bool, a: nat, b: nat)
    requires
        a < 256,
        b < 256,
    ensures
        eight_bit_full_adder_circuit().eval(seq![c] + bits_of(a, 8) + bits_of(b, 8)) == bits_of(
            a + b + bit(c),
            9,
        ),
{
    lemma_eight_bit_full_adder();
    let x = seq![c] + bits_of(a, 8) + bits_of(b, 8);
    let out = eval_of(eight_bit_full_adder_circuit())(x);
    assert(x.len() == 17);
    assert(span(x, 1, 8) =~= bits_of(a, 8));
    assert(span(x, 9, 8) =~= bits_of(b, 8));
    lemma_value_of_bits(a, 8);
    lemma_value_of_bits(b, 8);
    vstd::arithmetic::power2::lemma2_to64();
    vstd::arithmetic::div_mod::lemma_small_mod(a, 256);
    vstd::arithmetic::div_mod::lemma_small_mod(b, 256);
    assert(value_of(out) == a + b + bit(c));
    lemma_bits_of_value(out);
}

/// Adds two eight-bit numbers and a carry.
pub struct EightBitFullAdder {
    adder: MergeLayers,
}

impl View for EightBitFullAdder {
    type V = Circuit;

    closed spec fn view(&self) -> Circuit {
        self.adder@
    }
}

impl EightBitFullAdder {
    /// An eight-bit ripple-carry adder: the input is the carry, then the
    /// first operand, then the second, each least significant bit first;
    /// the output is the eight sum bits and then the carry out.
    pub fn new() -> (r: Self)
        ensures
            r@ == eight_bit_full_adder_circuit(),
            r@.realizable(),
            combinational(r@, 17, 9),
            adds(eval_of(r@), 8),
    {
        proof {
            lemma_eight_bit_full_adder();
            lemma_operand_interleave();
            lemma_full_adder();
        }
        let layer1 = Wiring::zip(16, 2);
        let layer1 = ConcatDifferentShapeBlocks::create(
            Buffer::new().into_block(),
            layer1.into_block(),
        );
        let eight_bit_adder = RecurrentBlock::create_from_fn(1, 2, 1, 8, FullAdder::new);
        proof {
            let cells = eight_bit_adder@->Recurrent_cells;
            assert forall|k: int| 0 <= k < 8 implies cells[k] == full_adder_circuit() by {
                assert(crate::blocks::makes(FullAdder::new, cells[k]));
            }
            assert(cells =~= copies(8, full_adder_circuit()));
        }
        let adder = MergeLayers::create(layer1.into_block(), eight_bit_adder.into_block());
        Self { adder }
    }
}

impl Component for EightBitFullAdder {
    fn input_width(&self) -> (w: usize) {
        self.adder.input_width()
    }

    fn output_width(&self) -> (w: usize) {
        self.adder.output_width()
    }

    fn eval(&self, input: &[bool]) -> (out: Vec<bool>) {
        self.adder.eval(input)
    }

    fn eval_mut(&mut self, input: &[bool]) -> (out: Vec<bool>) {
        self.adder.eval_mut(input)
    }

    fn into_block(self) -> (b: Block) {
        self.adder.into_block()
    }
}

/// The wiring in front of the byte-wise adder: a carry of zero, and the two
/// operands interleaved byte by byte.
pub open spec fn byte_interleave(n: nat) -> Circuit {
    pair(
        Circuit::Constant { inputs: 0, outputs: 1, value: false },
        wire(16 * n, zip_with_chunk_table(16 * n, 8)),
    )
}

/// The model of the adder of `n`-byte numbers: the operands are interleaved
/// byte by byte, a carry runs through `n` eight-bit adders, and the last
/// carry is dropped.
pub open spec fn n_byte_adder_circuit(n: nat) -> Circuit {
    serial(
        serial(byte_interleave(n), adder_row(n, 8, eight_bit_full_adder_circuit())),
        wire(8 * n + 1, wrapper_table(8 * n + 1, 8 * n)),
    )
}

/// The entries of the byte-wise interleave: byte `i` of the first operand
/// goes to bits `16i ..`, byte `i` of the second to bits `16i + 8 ..`.
pub proof fn lemma_byte_interleave_entry(n: nat, i: int, r: int)
    requires
        0 <= i < n,
        0 <= r < 8,
    ensures
        zip_with_chunk_table(16 * n, 8)[16 * i + r] == 8 * i + r,
        zip_with_chunk_table(16 * n, 8)[16 * i + 8 + r] == 8 * i + r + 8 * n,
{
    let q = 16 * i + r;
    assert(q / 16 == i && q % 16 == r && q % 8 == r);
    let p = 16 * i + 8 + r;
    assert(p / 16 == i && p % 16 == 8 + r && p % 8 == r);
    assert((16 * n) as int / 2 == 8 * n);
}

/// What the byte-wise interleave lays out is, limb by limb, the two halves
/// of what it is fed.
pub proof fn lemma_byte_interleave_operands(n: nat, x: Seq<bool>)
    requires
        x.len() == 16 * n,
    ensures
        operand(route(zip_with_chunk_table(16 * n, 8), x), 8, 0, n, n) == span(x, 0, 8 * n),
        operand(route(zip_with_chunk_table(16 * n, 8), x), 8, 1, n, n) == span(x, 8 * n, 8 * n),
{
    let table = zip_with_chunk_table(16 * n, 8);
    let xs = route(table, x);
    assert(xs.len() == n * (2 * 8)) by (nonlinear_arith)
        requires
            xs.len() == 16 * n,
    ;
    let first = operand(xs, 8, 0, n, n);
    let second = operand(xs, 8, 1, n, n);
    assert(n * 8 == 8 * n) by (nonlinear_arith);
    if n > 0 {
        lemma_operand_index(xs, 8, 0, n, 0, 0);
        lemma_operand_index(xs, 8, 1, n, 0, 0);
    } else {
        assert(first.len() == 0);
        assert(second.len() == 0);
    }
    assert forall|j: int| 0 <= j < 8 * n implies first[j] == span(x, 0, 8 * n)[j] by {
        let i = j / 8;
        let r = j % 8;
        lemma_operand_index(xs, 8, 0, n, i, r);
        lemma_byte_interleave_entry(n, i, r);
        assert(i * 8 + r == j && i * (2 * 8) + 0 * 8 + r == 16 * i + r) by (nonlinear_arith)
            requires
                i == j / 8,
                r == j % 8,
        ;
        assert(xs[16 * i + r] == x[table[16 * i + r]]);
    }
    assert forall|j: int| 0 <= j < 8 * n implies second[j] == span(x, 8 * n, 8 * n)[j] by {
        let i = j / 8;
        let r = j % 8;
        lemma_operand_index(xs, 8, 1, n, i, r);
        lemma_byte_interleave_entry(n, i, r);
        assert(i * 8 + r == j && i * (2 * 8) + 1 * 8 + r == 16 * i + 8 + r) by (nonlinear_arith)
            requires
                i == j / 8,
                r == j % 8,
        ;
        assert(xs[16 * i + 8 + r] == x[table[16 * i + 8 + r]]);
    }
    assert(first =~= span(x, 0, 8 * n));
    assert(second =~= span(x, 8 * n, 8 * n));
}

/// The byte-wise interleaving is a combinational block of shape
/// `16n → 1 + 16n` that puts a zero carry in front and lays the two
/// operands out byte by byte.
pub proof fn lemma_byte_interleave(n: nat)
    ensures
        combinational(byte_interleave(n), 16 * n, 1 + 16 * n),
        forall|limit: nat| 1 + 16 * n <= limit ==> byte_interleave(n).bounded(limit),
        forall|x: Seq<bool>|
            x.len() == 16 * n ==> {
                let y = #[trigger] byte_interleave(n).eval(x);
                &&& y.len() == 1 + 16 * n
                &&& y[0] == false
                &&& operand(y.skip(1), 8, 0, n, n) == span(x, 0, 8 * n)
                &&& operand(y.skip(1), 8, 1, n, n) == span(x, 8 * n, 8 * n)
            },
{
    let table = zip_with_chunk_table(16 * n, 8);
    let zip = wire(16 * n, table);
    let zero = Circuit::Constant { inputs: 0, outputs: 1, value: false };
    assert forall|q: int| 0 <= q < 16 * n implies 0 <= #[trigger] table[q] < 16 * n by {
        crate::wiring::lemma_chunk_position(q, (16 * n) as int, 8);
    }
    assert(combinational(zero, 0, 1));
    assert(combinational(zip, 16 * n, 16 * n));
    lemma_pair(zero, zip, 0, 1, 16 * n, 16 * n);
    assert forall|limit: nat| 1 + 16 * n <= limit implies byte_interleave(n).bounded(limit) by {
        assert(zero.bounded(limit));
        assert(zip.bounded(limit));
    }
    assert forall|x: Seq<bool>| x.len() == 16 * n implies {
        let y = #[trigger] byte_interleave(n).eval(x);
        &&& y.len() == 1 + 16 * n
        &&& y[0] == false
        &&& operand(y.skip(1), 8, 0, n, n) == span(x, 0, 8 * n)
        &&& operand(y.skip(1), 8, 1, n, n) == span(x, 8 * n, 8 * n)
    } by {
        let y = byte_interleave(n).eval(x);
        assert(zero.eval(x.take(0)) =~= seq![false]);
        assert(x.skip(0) =~= x);
        assert(y.skip(1) =~= route(table, x));
        lemma_byte_interleave_operands(n, x);
    }
}

/// The wiring that drops the last wire of a bus of `width + 1` wires.
pub open spec fn drop_last_wire(width: nat) -> Circuit {
    wire(width + 1, wrapper_table(width + 1, width))
}

/// Dropping the last wire is a combinational block of shape
/// `width + 1 → width` that returns all bits but the last.
pub proof fn lemma_drop_last_wire(width: nat)
    ensures
        combinational(drop_last_wire(width), width + 1, width),
        forall|limit: nat| width + 1 <= limit ==> drop_last_wire(width).bounded(limit),
        forall|x: Seq<bool>|
            x.len() == width + 1 ==> #[trigger] drop_last_wire(width).eval(x) == x.drop_last(),
{
    assert forall|x: Seq<bool>| x.len() == width + 1 implies #[trigger] drop_last_wire(width).eval(
        x,
    ) == x.drop_last() by {
        assert(drop_last_wire(width).eval(x) =~= x.drop_last());
    }
}

/// The adder of `n`-byte numbers is a well-formed combinational block of
/// shape `16n → 8n` whose output spells the sum of the two operands modulo
/// `2^(8n)`.
pub proof fn lemma_n_byte_adder(n: nat)
    ensures
        combinational(n_byte_adder_circuit(n), 16 * n, 8 * n),
        forall|limit: nat| 17 <= limit && 1 + 16 * n <= limit ==> n_byte_adder_circuit(n).bounded(
            limit,
        ),
        forall|x: Seq<bool>|
            x.len() == 16 * n ==> (#[trigger] n_byte_adder_circuit(n).eval(x)).len() == 8 * n
                && value_of(n_byte_adder_circuit(n).eval(x)) == (value_of(span(x, 0, 8 * n))
                + value_of(span(x, 8 * n, 8 * n))) % pow2(8 * n),
{
    lemma_eight_bit_full_adder();
    lemma_byte_interleave(n);
    lemma_drop_last_wire(8 * n);
    let cell = eight_bit_full_adder_circuit();
    let front = byte_interleave(n);
    let row = adder_row(n, 8, cell);
    let cut = drop_last_wire(8 * n);
    let body = serial(front, row);
    lemma_adder_row(n, 8, cell);
    assert(n * (2 * 8) == 16 * n && n * 8 == 8 * n) by (nonlinear_arith);
    lemma_serial(front, row, 16 * n, 1 + 16 * n, 8 * n + 1);
    lemma_serial(body, cut, 16 * n, 8 * n + 1, 8 * n);
    assert forall|limit: nat| 17 <= limit && 1 + 16 * n <= limit implies n_byte_adder_circuit(
        n,
    ).bounded(limit) by {
        assert(cell.bounded(limit));
        assert(front.bounded(limit));
        assert(row.bounded(limit));
        assert(cut.bounded(limit));
        assert(body.bounded(limit));
    }
    assert forall|x: Seq<bool>| x.len() == 16 * n implies (#[trigger] n_byte_adder_circuit(n).eval(
        x,
    )).len() == 8 * n && value_of(n_byte_adder_circuit(n).eval(x)) == (value_of(
        span(x, 0, 8 * n),
    ) + value_of(span(x, 8 * n, 8 * n))) % pow2(8 * n) by {
        let y = front.eval(x);
        let sum = row.eval(y);
        let out = cut.eval(sum);
        assert(n_byte_adder_circuit(n).eval(x) == out);
        assert(out == sum.drop_last());
        let total = value_of(span(x, 0, 8 * n)) + value_of(span(x, 8 * n, 8 * n));
        assert(bit(y[0]) == 0);
        assert(value_of(sum) == total);
        let carry = sum.last();
        assert(out + seq![carry] =~= sum);
        lemma_value_of_concat(out, seq![carry]);
        lemma_value_of_single(carry);
        lemma_value_of_bound(out);
        let p = pow2(8 * n);
        assert(total == bit(carry) * p + value_of(out)) by (nonlinear_arith)
            requires
                total == value_of(out) + p * bit(carry),
        ;
        vstd::arithmetic::div_mod::lemma_fundamental_div_mod_converse(
            total as int,
            p as int,
            bit(carry) as int,
            value_of(out) as int,
        );
    }
}

/// Adder correctness, `n` bytes: for `a` and `b` below `2^(8n)`, the adder
/// fed `a` and then `b` returns `(a + b) mod 2^(8n)`.
pub proof fn lemma_n_byte_sum(n: nat, a: nat, b: nat)
    requires
        a < pow2(8 * n),
        b < pow2(8 * n),
    ensures
        n_byte_adder_circuit(n).eval(bits_of(a, 8 * n) + bits_of(b, 8 * n)) == bits_of(
            (a + b) % pow2(8 * n),
            8 * n,
        ),
{
    lemma_n_byte_adder(n);
    let x = bits_of(a, 8 * n) + bits_of(b, 8 * n);
    let out = n_byte_adder_circuit(n).eval(x);
    assert(x.len() == 16 * n);
    assert(span(x, 0, 8 * n) =~= bits_of(a, 8 * n));
    assert(span(x, 8 * n, 8 * n) =~= bits_of(b, 8 * n));
    lemma_value_of_bits(a, 8 * n);
    lemma_value_of_bits(b, 8 * n);
    vstd::arithmetic::div_mod::lemma_small_mod(a, pow2(8 * n));
    vstd::arithmetic::div_mod::lemma_small_mod(b, pow2(8 * n));
    lemma_bits_of_value(out);
}

/// Adds two numbers of `n` bytes each.
pub struct NByteAdder {
    adder: MergeLayers,
}

impl View for NByteAdder {
    type V = Circuit;

    closed spec fn view(&self) -> Circuit {
        self.adder@
    }
}

impl NByteAdder {
    /// An adder of `n`-byte numbers: the input is the first operand and then
    /// the second, each least significant bit first; the output is the low
    /// `8n` bits of their sum.
    pub fn new(n: usize) -> (r: Self)
        requires
            1 + 16 * n <= usize::MAX,
        ensures
            r@ == n_byte_adder_circuit(n as nat),
            r@.realizable(),
            combinational(r@, 16 * n as nat, 8 * n as nat),
            forall|x: Seq<bool>|
                x.len() == 16 * n ==> (#[trigger] r@.eval(x)).len() == 8 * n && value_of(
                    r@.eval(x),
                ) == (value_of(span(x, 0, 8 * n as nat)) + value_of(
                    span(x, 8 * n as nat, 8 * n as nat),
                )) % pow2(8 * n as nat),
    {
        proof {
            lemma_n_byte_adder(n as nat);
            lemma_byte_interleave(n as nat);
            lemma_drop_last_wire(8 * n as nat);
            lemma_eight_bit_full_adder();
        }
        let layer1 = Wiring::zip_with_chunk(16 * n, 8);
        let layer1 = ConcatDifferentShapeBlocks::create(
            Constant::new(0, 1, false).into_block(),
            layer1.into_block(),
        );
        let adder = RecurrentBlock::create_from_fn(1, 16, 8, n, EightBitFullAdder::new);
        proof {
            let cells = adder@->Recurrent_cells;
            assert forall|k: int| 0 <= k < n implies cells[k]
                == eight_bit_full_adder_circuit() by {
                assert(crate::blocks::makes(EightBitFullAdder::new, cells[k]));
            }
            assert(cells =~= copies(n as nat, eight_bit_full_adder_circuit()));
        }
        let ignore_c = Wiring::wrapper(8 * n + 1, 8 * n);
        let adder = MergeLayers::create(layer1.into_block(), adder.into_block()).connect_to(
            ignore_c.into_block(),
        );
        Self { adder }
    }
}

impl Component for NByteAdder {
    fn input_width(&self) -> (w: usize) {
        self.adder.input_width()
    }

    fn output_width(&self) -> (w: usize) {
        self.adder.output_width()
    }

    fn eval(&self, input: &[bool]) -> (out: Vec<bool>) {
        self.adder.eval(input)
    }

    fn eval_mut(&mut self, input: &[bool]) -> (out: Vec<bool>) {
        self.adder.eval_mut(input)
    }

    fn into_block(self) -> (b: Block) {
        self.adder.into_block()
    }
}

/// The wiring in front of the subtractor: a carry of one, the first
/// operand as it is, and the second operand negated bit by bit.
pub open spec fn negate_second() -> Circuit {
    pair(
        Circuit::Constant { inputs: 0, outputs: 1, value: true },
        pair(bitwise(8, Circuit::Buffer), bitwise(8, Circuit::Not)),
    )
}

/// The model of the eight-bit subtractor: two's complement, as
/// `a + not b + 1` with the carry dropped.
pub open spec fn eight_bit_subtractor_circuit() -> Circuit {
    serial(serial(negate_second(), eight_bit_full_adder_circuit()), drop_last_wire(8))
}

/// The front of the subtractor is a combinational block of shape `16 → 17`
/// that returns a one, the first operand, and the second operand negated.
pub proof fn lemma_negate_second()
    ensures
        combinational(negate_second(), 16, 17),
        forall|limit: nat| 17 <= limit ==> negate_second().bounded(limit),
        forall|x: Seq<bool>|
            x.len() == 16 ==> #[trigger] negate_second().eval(x) == seq![true] + span(x, 0, 8)
                + complement(span(x, 8, 8)),
{
    lemma_buffers_and_inverters(8);
    let one = Circuit::Constant { inputs: 0, outputs: 1, value: true };
    let keep = bitwise(8, Circuit::Buffer);
    let flip = bitwise(8, Circuit::Not);
    let both = pair(keep, flip);
    assert(combinational(one, 0, 1));
    lemma_pair(keep, flip, 8, 8, 8, 8);
    lemma_pair(one, both, 0, 1, 16, 16);
    assert forall|limit: nat| 17 <= limit implies negate_second().bounded(limit) by {
        assert(one.bounded(limit));
        assert(keep.bounded(limit));
        assert(flip.bounded(limit));
        assert(both.bounded(limit));
    }
    assert forall|x: Seq<bool>| x.len() == 16 implies #[trigger] negate_second().eval(x) == seq![
        true,
    ] + span(x, 0, 8) + complement(span(x, 8, 8)) by {
        assert(one.eval(x.take(0)) =~= seq![true]);
        let rest = x.skip(0);
        assert(rest =~= x);
        assert(rest.take(8) =~= span(x, 0, 8));
        assert(rest.skip(8) =~= span(x, 8, 8));
        assert(both.eval(rest) == keep.eval(rest.take(8)) + flip.eval(rest.skip(8)));
    }
}

/// The subtractor is a well-formed combinational block of shape `16 → 8`
/// whose output spells `a + 256 - b` modulo 256, for the operands `a` and
/// then `b` of its input.
pub proof fn lemma_eight_bit_subtractor()
    ensures
        combinational(eight_bit_subtractor_circuit(), 16, 8),
        forall|limit: nat| 17 <= limit ==> eight_bit_subtractor_circuit().bounded(limit),
        forall|x: Seq<bool>|
            x.len() == 16 ==> (#[trigger] eight_bit_subtractor_circuit().eval(x)).len() == 8
                && value_of(eight_bit_subtractor_circuit().eval(x)) == (value_of(span(x, 0, 8))
                + 256 - value_of(span(x, 8, 8))) % 256,
{
    lemma_negate_second();
    lemma_eight_bit_full_adder();
    lemma_drop_last_wire(8);
    let front = negate_second();
    let adder = eight_bit_full_adder_circuit();
    let cut = drop_last_wire(8);
    let body = serial(front, adder);
    lemma_serial(front, adder, 16, 17, 9);
    lemma_serial(body, cut, 16, 9, 8);
    assert forall|limit: nat| 17 <= limit implies eight_bit_subtractor_circuit().bounded(
        limit,
    ) by {
        assert(front.bounded(limit));
        assert(adder.bounded(limit));
        assert(cut.bounded(limit));
        assert(body.bounded(limit));
    }
    assert forall|x: Seq<bool>| x.len() == 16 implies (#[trigger] eight_bit_subtractor_circuit().eval(
        x,
    )).len() == 8 && value_of(eight_bit_subtractor_circuit().eval(x)) == (value_of(
        span(x, 0, 8),
    ) + 256 - value_of(span(x, 8, 8))) % 256 by {
        let a = span(x, 0, 8);
        let b = span(x, 8, 8);
        let y = front.eval(x);
        assert(y == seq![true] + a + complement(b));
        let sum = eval_of(adder)(y);
        assert(sum == adder.eval(y));
        let out = cut.eval(sum);
        assert(eight_bit_subtractor_circuit().eval(x) == out);
        assert(span(y, 1, 8) =~= a);
        assert(span(y, 9, 8) =~= complement(b));
        lemma_value_of_negation(b, complement(b));
        vstd::arithmetic::power2::lemma2_to64();
        assert(value_of(sum) == 1 + value_of(a) + value_of(complement(b)));
        let carry = sum.last();
        assert(out + seq![carry] =~= sum);
        lemma_value_of_concat(out, seq![carry]);
        lemma_value_of_single(carry);
        lemma_value_of_bound(out);
        let total = value_of(a) + 256 - value_of(b);
        assert(total == bit(carry) * 256 + value_of(out));
        vstd::arithmetic::div_mod::lemma_fundamental_div_mod_converse(
            total as int,
            256,
            bit(carry) as int,
            value_of(out) as int,
        );
    }
}

/// Subtractor correctness: for `b <= a < 256`, the subtractor fed `a` and
/// then `b` returns `a - b`.
pub proof fn lemma_eight_bit_difference(a: nat, b: nat)
    requires
        b <= a < 256,
    ensures
        eight_bit_subtractor_circuit().eval(bits_of(a, 8) + bits_of(b, 8)) == bits_of(
            (a - b) as nat,
            8,
        ),
{
    lemma_eight_bit_subtractor();
    let x = bits_of(a, 8) + bits_of(b, 8);
    let out = eight_bit_subtractor_circuit().eval(x);
    assert(x.len() == 16);
    assert(span(x, 0, 8) =~= bits_of(a, 8));
    assert(span(x, 8, 8) =~= bits_of(b, 8));
    lemma_value_of_bits(a, 8);
    lemma_value_of_bits(b, 8);
    vstd::arithmetic::power2::lemma2_to64();
    vstd::arithmetic::div_mod::lemma_small_mod(a, 256);
    vstd::arithmetic::div_mod::lemma_small_mod(b, 256);
    vstd::arithmetic::div_mod::lemma_fundamental_div_mod_converse(
        a + 256 - b,
        256,
        1,
        a - b,
    );
    lemma_bits_of_value(out);
}

/// Subtracts one eight-bit number from another.
pub struct EightBitSubtractor {
    subtractor: MergeLayers,
}

impl View for EightBitSubtractor {
    type V = Circuit;

    closed spec fn view(&self) -> Circuit {
        self.subtractor@
    }
}

impl EightBitSubtractor {
    /// An eight-bit subtractor: the input is the minuend and then the
    /// subtrahend, each least significant bit first; the output is the low
    /// eight bits of their difference.
    pub fn new() -> (r: Self)
        ensures
            r@ == eight_bit_subtractor_circuit(),
            r@.realizable(),
            combinational(r@, 16, 8),
            forall|x: Seq<bool>|
                x.len() == 16 ==> (#[trigger] r@.eval(x)).len() == 8 && value_of(r@.eval(x)) == (
                value_of(span(x, 0, 8)) + 256 - value_of(span(x, 8, 8))) % 256,
    {
        proof {
            lemma_eight_bit_subtractor();
            lemma_negate_second();
            lemma_buffers_and_inverters(8);
            lemma_drop_last_wire(8);
        }
        let buffer = ConcatBlocks::create_from_fn(1, 1, 8, Buffer::new);
        let not = ConcatBlocks::create_from_fn(1, 1, 8, Not::new);
        proof {
            let kept = buffer@->Parallel_cells;
            assert forall|k: int| 0 <= k < 8 implies kept[k] == Circuit::Buffer by {
                assert(crate::blocks::makes(Buffer::new, kept[k]));
            }
            assert(kept =~= copies(8, Circuit::Buffer));
            let flipped = not@->Parallel_cells;
            assert forall|k: int| 0 <= k < 8 implies flipped[k] == Circuit::Not by {
                assert(crate::blocks::makes(Not::new, flipped[k]));
            }
            assert(flipped =~= copies(8, Circuit::Not));
        }
        let rev = ConcatDifferentShapeBlocks::create(buffer.into_block(), not.into_block());
        let plus_one = Constant::new(0, 1, true);
        let layer1 = ConcatDifferentShapeBlocks::create(plus_one.into_block(), rev.into_block());
        let layer2 = EightBitFullAdder::new();
        let layer3 = Wiring::wrapper(9, 8);
        let subtractor = MergeLayers::create(layer1.into_block(), layer2.into_block()).connect_to(
            layer3.into_block(),
        );
        Self { subtractor }
    }
}

impl Component for EightBitSubtractor {
    fn input_width(&self) -> (w: usize) {
        self.subtractor.input_width()
    }

    fn output_width(&self) -> (w: usize) {
        self.subtractor.output_width()
    }

    fn eval(&self, input: &[bool]) -> (out: Vec<bool>) {
        self.subtractor.eval(input)
    }

    fn eval_mut(&mut self, input: &[bool]) -> (out: Vec<bool>) {
        self.subtractor.eval_mut(input)
    }

    fn into_block(self) -> (b: Block) {
        self.subtractor.into_block()
    }
}

} // verus!
