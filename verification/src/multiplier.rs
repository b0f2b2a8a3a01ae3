//! The eight-bit shift-and-add multiplier.
use crate::basic_comp::{And, Buffer, Constant};
use crate::blocks::{
    makes, Block, Component, ConcatBlocks, ConcatDifferentShapeBlocks, MergeLayers, RecurrentBlock,
};
use crate::calculator::{lemma_n_byte_adder, lemma_two_bits, n_byte_adder_circuit, NByteAdder};
use crate::carry_chain::span;
use crate::circuit::{carried, chunk, emitted, evals, lemma_recurrent_eval, route, Circuit};
use crate::laws::{
    bitwise, combinational, copies, lemma_buffers_and_inverters, lemma_chain_shape,
    lemma_pair, lemma_recurrent_shape, lemma_row,
    lemma_row_bit, lemma_serial, pair, row, serial,
};
use crate::memory::gated;
use crate::num_bit_converter::{
    bit, bits_of, num_to_bit, lemma_bits_of_value, lemma_value_of_bits, lemma_value_of_bound,
    lemma_value_of_concat, lemma_value_of_single, value_of,
};
use crate::wiring::{indices, rotate_right_table, wire, Wiring};
use vstd::arithmetic::power2::{lemma2_to64, lemma_pow2_unfold, pow2};
use vstd::prelude::*;

verus! {

/// All zeros spell zero.
pub proof fn lemma_value_of_zeros(n: nat)
    ensures
        value_of(Seq::new(n, |i: int| false)) == 0,
    decreases n,
{
    if n > 0 {
        lemma_value_of_zeros((n - 1) as nat);
        assert(Seq::new(n, |i: int| false).drop_last() =~= Seq::new(
            (n - 1) as nat,
            |i: int| false,
        ));
    }
}

/// A bit vector behind an enable line spells its own number if the line
/// is set, and zero otherwise.
pub proof fn lemma_value_of_gated(enable: bool, bits: Seq<bool>)
    ensures
        value_of(gated(enable, bits)) == bit(enable) * value_of(bits),
{
    if enable {
        assert(gated(enable, bits) =~= bits);
        assert(1 * value_of(bits) == value_of(bits)) by (nonlinear_arith);
    } else {
        assert(gated(enable, bits) =~= Seq::new(bits.len(), |i: int| false));
        lemma_value_of_zeros(bits.len());
        assert(0 * value_of(bits) == 0) by (nonlinear_arith);
    }
}

/// Sixteen bits that spell a number below `2^15` have their top bit clear,
/// and rotated by one place they spell twice the number.
pub proof fn lemma_shifted(s: Seq<bool>)
    requires
        s.len() == 16,
        value_of(s) < 32768,
    ensures
        !s[15],
        value_of(route(rotate_right_table(16, 1), s)) == 2 * value_of(s),
{
    lemma2_to64();
    let low = s.take(15);
    assert(low + seq![s[15]] =~= s);
    lemma_value_of_concat(low, seq![s[15]]);
    lemma_value_of_single(s[15]);
    assert(!s[15]);
    let rotated = route(rotate_right_table(16, 1), s);
    assert forall|i: int| 0 <= i < 16 implies rotated[i] == (seq![false] + low)[i] by {
        crate::wiring::lemma_rotate_entry(16, 1, i);
    }
    assert(rotated =~= seq![false] + low);
    lemma_value_of_concat(seq![false], low);
    lemma_value_of_single(false);
}

/// The wiring in front of the adder of one cell of the multiplier: the
/// partial product rotated by one place, and the addend padded to sixteen
/// bits.
pub open spec fn shift_and_pad() -> Circuit {
    pair(
        wire(16, rotate_right_table(16, 1)),
        pair(bitwise(8, Circuit::Buffer), Circuit::Constant { inputs: 0, outputs: 8, value: false }),
    )
}

/// The model of one cell of the multiplier: the partial product is doubled
/// and the addend is added to it.
pub open spec fn multiplier_cell() -> Circuit {
    serial(shift_and_pad(), n_byte_adder_circuit(2))
}

/// Shifting and padding is combinational, of shape `24 → 32`.
pub proof fn lemma_shift_and_pad()
    ensures
        combinational(shift_and_pad(), 24, 32),
        forall|limit: nat| 32 <= limit ==> shift_and_pad().bounded(limit),
        forall|v: Seq<bool>|
            v.len() == 24 ==> #[trigger] shift_and_pad().eval(v) == route(
                rotate_right_table(16, 1),
                v.take(16),
            ) + (v.skip(16) + Seq::new(8, |i: int| false)),
{
    lemma_buffers_and_inverters(8);
    let rotate = wire(16, rotate_right_table(16, 1));
    let keep = bitwise(8, Circuit::Buffer);
    let zeros = Circuit::Constant { inputs: 0, outputs: 8, value: false };
    let padded = pair(keep, zeros);
    assert forall|i: int| 0 <= i < 16 implies 0 <= #[trigger] rotate_right_table(16, 1)[i]
        < 16 by {
        crate::wiring::lemma_rotate_entry(16, 1, i);
    }
    assert(combinational(rotate, 16, 16));
    assert(combinational(zeros, 0, 8));
    lemma_pair(keep, zeros, 8, 8, 0, 8);
    lemma_pair(rotate, padded, 16, 16, 8, 16);
    assert forall|limit: nat| 32 <= limit implies shift_and_pad().bounded(limit) by {
        assert(rotate.bounded(limit));
        assert(keep.bounded(limit));
        assert(zeros.bounded(limit));
        assert(padded.bounded(limit));
    }
    assert forall|v: Seq<bool>| v.len() == 24 implies #[trigger] shift_and_pad().eval(v) == route(
        rotate_right_table(16, 1),
        v.take(16),
    ) + (v.skip(16) + Seq::new(8, |i: int| false)) by {
        let addend = v.skip(16);
        assert(addend.take(8) =~= addend);
        assert(zeros.eval(addend.skip(8)) =~= Seq::new(8, |i: int| false));
        assert(padded.eval(addend) == keep.eval(addend.take(8)) + zeros.eval(addend.skip(8)));
    }
}

/// A cell of the multiplier is a well-formed combinational block of shape
/// `24 → 16`: fed a partial product below `2^15` and an addend, it returns
/// sixteen bits that spell twice the partial product plus the addend,
/// modulo `2^16`.
pub proof fn lemma_multiplier_cell()
    ensures
        combinational(multiplier_cell(), 24, 16),
        forall|limit: nat| 33 <= limit ==> multiplier_cell().bounded(limit),
        forall|v: Seq<bool>|
            v.len() == 24 && value_of(v.take(16)) < 32768 ==> (#[trigger] multiplier_cell().eval(
                v,
            )).len() == 16 && value_of(multiplier_cell().eval(v)) == (2 * value_of(v.take(16))
                + value_of(v.skip(16))) % 65536,
{
    lemma_shift_and_pad();
    lemma_n_byte_adder(2);
    lemma2_to64();
    lemma_serial(shift_and_pad(), n_byte_adder_circuit(2), 24, 32, 16);
    assert forall|limit: nat| 33 <= limit implies multiplier_cell().bounded(limit) by {
        assert(shift_and_pad().bounded(limit));
        assert(n_byte_adder_circuit(2).bounded(limit));
    }
    assert forall|v: Seq<bool>| v.len() == 24 && value_of(v.take(16)) < 32768 implies (
    #[trigger] multiplier_cell().eval(v)).len() == 16 && value_of(multiplier_cell().eval(v)) == (2
        * value_of(v.take(16)) + value_of(v.skip(16))) % 65536 by {
        let state = v.take(16);
        let addend = v.skip(16);
        let rotated = route(rotate_right_table(16, 1), state);
        let padded = addend + Seq::new(8, |i: int| false);
        let y = shift_and_pad().eval(v);
        assert(y == rotated + padded);
        lemma_shifted(state);
        lemma_value_of_concat(addend, Seq::new(8, |i: int| false));
        lemma_value_of_zeros(8);
        assert(pow2(8) * 0 == 0) by (nonlinear_arith);
        assert(span(y, 0, 16) =~= rotated);
        assert(span(y, 16, 16) =~= padded);
        assert(multiplier_cell().eval(v) == n_byte_adder_circuit(2).eval(y));
    }
}

/// The table that pairs every bit of the multiplicand with the bit of the
/// multiplier that gates it: the pairs for the top bit of the multiplier
/// come first.
pub open spec fn switch_table() -> Seq<int> {
    Seq::new(128, |i: int| if i % 2 == 0 { (i / 2) % 8 } else { 15 - (i / 2) / 8 })
}

/// The addends of the multiplier: for every bit of the multiplier, top bit
/// first, the multiplicand if the bit is set and zero if it is not.
pub open spec fn addends() -> Circuit {
    serial(wire(16, switch_table()), row(64, 2, 1, Circuit::And { inputs: 2 }))
}

/// The addends are combinational, of shape `16 → 64`.
pub proof fn lemma_addends_shape()
    ensures
        combinational(addends(), 16, 64),
        forall|limit: nat| 128 <= limit ==> addends().bounded(limit),
        forall|x: Seq<bool>| x.len() == 16 ==> (#[trigger] addends().eval(x)).len() == 64,
{
    let fan = wire(16, switch_table());
    let cell = Circuit::And { inputs: 2 };
    let gates = row(64, 2, 1, cell);
    assert(combinational(fan, 16, 128));
    assert(combinational(cell, 2, 1));
    lemma_row(64, 2, 1, cell);
    lemma_serial(fan, gates, 16, 128, 64);
    assert forall|limit: nat| 128 <= limit implies addends().bounded(limit) by {
        assert(fan.bounded(limit));
        assert(cell.bounded(limit));
        assert(gates.bounded(limit));
    }
    assert forall|x: Seq<bool>| x.len() == 16 implies (#[trigger] addends().eval(x)).len()
        == 64 by {
        crate::laws::lemma_eval_shape(addends(), x);
    }
}

/// Addend `k` is the multiplicand, gated by bit `7 - k` of the multiplier.
pub proof fn lemma_addend(x: Seq<bool>, k: int)
    requires
        x.len() == 16,
        0 <= k < 8,
    ensures
        chunk(addends().eval(x), k, 8) == gated(x[15 - k], x.take(8)),
{
    lemma_addends_shape();
    let fan = wire(16, switch_table());
    let cell = Circuit::And { inputs: 2 };
    let v = fan.eval(x);
    let out = addends().eval(x);
    assert(out == row(64, 2, 1, cell).eval(v));
    let fed = chunk(out, k, 8);
    let want = gated(x[15 - k], x.take(8));
    assert forall|j: int| 0 <= j < 8 implies fed[j] == want[j] by {
        let q = 8 * k + j;
        lemma_row_bit(64, 2, 1, cell, v, q, 0);
        let pair_q = chunk(v, q, 2);
        assert(pair_q =~= seq![v[2 * q], v[2 * q + 1]]);
        lemma_two_bits(pair_q);
        assert(switch_table()[2 * q] == j);
        assert(switch_table()[2 * q + 1] == 15 - k);
        assert(fed[j] == out[q]);
    }
    assert(fed =~= want);
}

/// The wiring in front of the multiplier's row of cells: a partial product
/// of zero, and the addends.
pub open spec fn start() -> Circuit {
    pair(Circuit::Constant { inputs: 0, outputs: 16, value: false }, addends())
}

/// The row of cells of the multiplier.
pub open spec fn product_row() -> Circuit {
    Circuit::Recurrent { state: 16, inputs: 8, outputs: 0, cells: copies(8, multiplier_cell()) }
}

/// The model of the eight-bit multiplier.
pub open spec fn eight_bit_multiplier_circuit() -> Circuit {
    serial(serial(start(), Circuit::Probe { width: 80 }), product_row())
}

/// Cells that double and add, fed the multiplicand gated by the bits of the
/// multiplier from the top bit down, hand on after `k` cells the product of
/// the multiplicand and the top `k` bits of the multiplier.
pub proof fn lemma_product_chain(
    cells: Seq<spec_fn(Seq<bool>) -> Seq<bool>>,
    x: Seq<bool>,
    y: Seq<bool>,
    xs: Seq<bool>,
    k: nat,
)
    requires
        cells.len() == 8,
        k <= 8,
        x.len() == 8,
        y.len() == 8,
        xs.len() == 64,
        forall|i: int, v: Seq<bool>|
            0 <= i < 8 && v.len() == 24 ==> (#[trigger] cells[i](v)).len() == 16,
        forall|i: int, v: Seq<bool>|
            0 <= i < 8 && v.len() == 24 && value_of(v.take(16)) < 32768 ==> value_of(
                #[trigger] cells[i](v),
            ) == (2 * value_of(v.take(16)) + value_of(v.skip(16))) % 65536,
        forall|j: int| 0 <= j < 8 ==> #[trigger] chunk(xs, j, 8) == gated(y[7 - j], x),
    ensures
        emitted(cells, 8, 0, Seq::new(16, |i: int| false), xs, k).len() == 0,
        carried(cells, 8, 0, Seq::new(16, |i: int| false), xs, k).len() == 16,
        value_of(carried(cells, 8, 0, Seq::new(16, |i: int| false), xs, k)) == value_of(x)
            * value_of(y.skip(8 - k)),
    decreases k,
{
    let h = Seq::new(16, |i: int| false);
    lemma2_to64();
    assert forall|i: int, v: Seq<bool>|
        0 <= i < cells.len() && v.len() == 16 + 8 implies (#[trigger] cells[i](v)).len() == 0
        + 16 by {
    }
    lemma_chain_shape(cells, 16, 8, 0, h, xs, k);
    assert(k * 0 == 0) by (nonlinear_arith);
    let big = value_of(x);
    lemma_value_of_bound(x);
    if k == 0 {
        lemma_value_of_zeros(16);
        assert(y.skip(8) =~= Seq::<bool>::empty());
        assert(big * 0 == 0) by (nonlinear_arith);
    } else {
        let j = (k - 1) as nat;
        lemma_product_chain(cells, x, y, xs, j);
        let before = carried(cells, 8, 0, h, xs, j);
        let piece = chunk(xs, j as int, 8);
        assert(piece == gated(y[7 - j], x));
        let fed = before + piece;
        assert(fed.take(16) =~= before);
        assert(fed.skip(16) =~= piece);
        let top = value_of(y.skip(8 - j));
        lemma_value_of_bound(y.skip(8 - j));
        if j < 7 {
            vstd::arithmetic::power2::lemma_pow2_strictly_increases(j, 7);
        }
        assert(big * top < 32768) by (nonlinear_arith)
            requires
                big <= 255,
                top <= 127,
        ;
        let produced = cells[j as int](fed);
        assert(produced.skip(0) =~= produced);
        lemma_value_of_gated(y[7 - j], x);
        let next_bit = bit(y[7 - j]);
        let more = y.skip(8 - k);
        assert(more =~= seq![y[7 - j]] + y.skip(8 - j));
        lemma_value_of_concat(seq![y[7 - j]], y.skip(8 - j));
        lemma_value_of_single(y[7 - j]);
        assert(value_of(more) == next_bit + 2 * top);
        lemma_value_of_bound(more);
        vstd::arithmetic::power2::lemma_pow2_strictly_increases(k, 9);
        if k < 8 {
            vstd::arithmetic::power2::lemma_pow2_strictly_increases(k, 8);
        }
        assert(big * value_of(more) < 65536 && big * value_of(more) == 2 * (big * top) + next_bit
            * big) by (nonlinear_arith)
            requires
                big <= 255,
                value_of(more) <= 255,
                value_of(more) == next_bit + 2 * top,
        ;
        vstd::arithmetic::div_mod::lemma_small_mod(big * value_of(more), 65536);
    }
}

/// The multiplier is a well-formed combinational block of shape `16 → 16`
/// whose output spells the product of the two eight-bit numbers of its
/// input.
pub proof fn lemma_eight_bit_multiplier()
    ensures
        combinational(eight_bit_multiplier_circuit(), 16, 16),
        forall|limit: nat| 128 <= limit ==> eight_bit_multiplier_circuit().bounded(limit),
        forall|x: Seq<bool>|
            x.len() == 16 ==> (#[trigger] eight_bit_multiplier_circuit().eval(x)).len() == 16
                && value_of(eight_bit_multiplier_circuit().eval(x)) == value_of(span(x, 0, 8))
                * value_of(span(x, 8, 8)),
{
    lemma_addends_shape();
    lemma_multiplier_cell();
    let zeros = Circuit::Constant { inputs: 0, outputs: 16, value: false };
    let probe = Circuit::Probe { width: 80 };
    let cell = multiplier_cell();
    let cells = copies(8, cell);
    let fs = evals(cells);
    let begun = serial(start(), probe);
    assert(combinational(zeros, 0, 16));
    assert(combinational(probe, 80, 80));
    lemma_pair(zeros, addends(), 0, 16, 16, 64);
    lemma_recurrent_shape(16, 8, 0, cells);
    lemma_serial(start(), probe, 16, 80, 80);
    lemma_serial(begun, product_row(), 16, 80, 16);
    assert forall|limit: nat| 128 <= limit implies eight_bit_multiplier_circuit().bounded(
        limit,
    ) by {
        assert(zeros.bounded(limit));
        assert(probe.bounded(limit));
        assert(start().bounded(limit));
        assert(begun.bounded(limit));
        assert(cell.bounded(limit));
        assert forall|i: int| 0 <= i < cells.len() implies (#[trigger] cells[i]).bounded(limit) by {
        }
        assert(product_row().bounded(limit));
    }
    assert forall|i: int, v: Seq<bool>| 0 <= i < 8 && v.len() == 24 implies (#[trigger] fs[i](
        v,
    )).len() == 16 by {
        crate::laws::lemma_eval_shape(cell, v);
    }
    assert forall|i: int, v: Seq<bool>|
        0 <= i < 8 && v.len() == 24 && value_of(v.take(16)) < 32768 implies value_of(
        #[trigger] fs[i](v),
    ) == (2 * value_of(v.take(16)) + value_of(v.skip(16))) % 65536 by {
        assert(fs[i](v) == cell.eval(v));
    }
    assert forall|x: Seq<bool>| x.len() == 16 implies (#[trigger] eight_bit_multiplier_circuit().eval(
        x,
    )).len() == 16 && value_of(eight_bit_multiplier_circuit().eval(x)) == value_of(
        span(x, 0, 8),
    ) * value_of(span(x, 8, 8)) by {
        let first = span(x, 0, 8);
        let second = span(x, 8, 8);
        let h = Seq::new(16, |i: int| false);
        assert(zeros.eval(x.take(0)) =~= h);
        assert(x.skip(0) =~= x);
        let xs = addends().eval(x);
        let y = start().eval(x);
        assert(y == h + xs);
        assert(begun.eval(x) == y);
        assert(y.take(16) =~= h);
        assert(y.skip(16) =~= xs);
        assert forall|j: int| 0 <= j < 8 implies #[trigger] chunk(xs, j, 8) == gated(
            second[7 - j],
            first,
        ) by {
            lemma_addend(x, j);
            assert(x.take(8) =~= first);
        }
        lemma_recurrent_eval(16, 8, 0, cells, y);
        lemma_product_chain(fs, first, second, xs, 8);
        let out = emitted(fs, 8, 0, h, xs, 8);
        let last = carried(fs, 8, 0, h, xs, 8);
        assert(out + last =~= last);
        assert(second.skip(0) =~= second);
        assert(eight_bit_multiplier_circuit().eval(x) == product_row().eval(y));
    }
}

/// Multiplier correctness: for `a` and `b` below 256, the multiplier fed
/// `a` and then `b` returns `a * b` modulo 65536 in sixteen bits.
pub proof fn lemma_eight_bit_product(a: nat, b: nat)
    requires
        a < 256,
        b < 256,
    ensures
        eight_bit_multiplier_circuit().eval(bits_of(a, 8) + bits_of(b, 8)) == bits_of(
            (a * b) % 65536,
            16,
        ),
{
    lemma_eight_bit_multiplier();
    let x = bits_of(a, 8) + bits_of(b, 8);
    let out = eight_bit_multiplier_circuit().eval(x);
    assert(x.len() == 16);
    assert(span(x, 0, 8) =~= bits_of(a, 8));
    assert(span(x, 8, 8) =~= bits_of(b, 8));
    lemma_value_of_bits(a, 8);
    lemma_value_of_bits(b, 8);
    lemma2_to64();
    vstd::arithmetic::div_mod::lemma_small_mod(a, 256);
    vstd::arithmetic::div_mod::lemma_small_mod(b, 256);
    assert(a * b < 65536) by (nonlinear_arith)
        requires
            a < 256,
            b < 256,
    ;
    vstd::arithmetic::div_mod::lemma_small_mod(a * b, 65536);
    lemma_bits_of_value(out);
}

/// Multiplies two eight-bit numbers.
pub struct EightBitMultiplier {
    multiplier: MergeLayers,
}

impl View for EightBitMultiplier {
    type V = Circuit;

    closed spec fn view(&self) -> Circuit {
        self.multiplier@
    }
}

impl EightBitMultiplier {
    /// The product of the low eight bits of `num1` and `num2`, by shifting
    /// and adding in plain arithmetic.
    pub fn dummy(num1: usize, num2: usize) -> (r: usize)
        requires
            255 * num2 <= usize::MAX,
        ensures
            r == (num1 % 256) * num2,
    {
        let bits = num_to_bit::<8>(num1);
        let mut acc: usize = 0;
        let mut shifted = num2;
        let mut i: usize = 0;
        proof {
            lemma2_to64();
            assert(bits@.take(0) =~= Seq::<bool>::empty());
            assert(0 * num2 == 0 && 1 * num2 == num2) by (nonlinear_arith);
        }
        while i < 8
            invariant
                i <= 8,
                bits@.len() == 8,
                255 * num2 <= usize::MAX,
                acc == value_of(bits@.take(i as int)) * num2,
                i < 8 ==> shifted == pow2(i as nat) * num2,
            decreases 8 - i,
        {
            proof {
                lemma2_to64();
                let low = bits@.take(i as int);
                let more = bits@.take(i + 1);
                assert(more =~= low + seq![bits@[i as int]]);
                lemma_value_of_concat(low, seq![bits@[i as int]]);
                lemma_value_of_single(bits@[i as int]);
                lemma_value_of_bound(more);
                lemma_value_of_bound(low);
                let p = pow2(i as nat);
                let b = bit(bits@[i as int]);
                vstd::arithmetic::power2::lemma_pow2_strictly_increases((i + 1) as nat, 9);
                if i + 1 < 8 {
                    vstd::arithmetic::power2::lemma_pow2_strictly_increases((i + 1) as nat, 8);
                }
                lemma_pow2_unfold((i + 1) as nat);
                assert((value_of(low) + p * b) * num2 == value_of(low) * num2 + b * (p * num2)
                    && value_of(more) * num2 <= 255 * num2 && (2 * p) * num2 == 2 * (p * num2)) by (nonlinear_arith)
                    requires
                        value_of(more) == value_of(low) + p * b,
                        value_of(more) <= 255,
                ;
                assert(b * (p * num2) == if bits@[i as int] {
                    p * num2
                } else {
                    0
                }) by (nonlinear_arith)
                    requires
                        b == 0 && !bits@[i as int] || b == 1 && bits@[i as int],
                ;
                if i + 1 < 8 {
                    assert(2 * p <= 255 && (2 * p) * num2 <= 255 * num2) by (nonlinear_arith)
                        requires
                            2 * p < 256,
                    ;
                }
            }
            if bits[i] {
                acc = acc + shifted;
            }
            if i < 7 {
                shifted = 2 * shifted;
            }
            i += 1;
        }
        proof {
            assert(bits@.take(8) =~= bits@);
            lemma_value_of_bits(num1 as nat, 8);
        }
        acc
    }

    /// An eight-bit multiplier: the input is the multiplicand and then the
    /// multiplier, each least significant bit first; the output is their
    /// product in sixteen bits.
    pub fn new() -> (r: Self)
        ensures
            r@ == eight_bit_multiplier_circuit(),
            r@.realizable(),
            combinational(r@, 16, 16),
            forall|x: Seq<bool>|
                x.len() == 16 ==> (#[trigger] r@.eval(x)).len() == 16 && value_of(r@.eval(x))
                    == value_of(span(x, 0, 8)) * value_of(span(x, 8, 8)),
    {
        proof {
            lemma_eight_bit_multiplier();
            lemma_multiplier_cell();
            lemma_addends_shape();
        }
        let multiplier = RecurrentBlock::create_from_fn(16, 8, 0, 8, Self::one_bit_multiplier);
        proof {
            let cells = multiplier@->Recurrent_cells;
            assert forall|k: int| 0 <= k < 8 implies cells[k] == multiplier_cell() by {
                assert(makes(Self::one_bit_multiplier, cells[k]));
            }
            assert(cells =~= copies(8, multiplier_cell()));
        }
        let mut table: Vec<usize> = Vec::new();
        let mut i: usize = 0;
        while i < 128
            invariant
                i <= 128,
                table@.len() == i,
                forall|q: int| 0 <= q < i ==> table@[q] == switch_table()[q],
                forall|q: int| 0 <= q < i ==> table@[q] < 16,
            decreases 128 - i,
        {
            table.push(
                if i % 2 == 0 {
                    (i / 2) % 8
                } else {
                    15 - (i / 2) / 8
                },
            );
            i += 1;
        }
        assert(indices(table@) =~= switch_table());
        let pairs = Wiring::create(16, table);
        let gates = ConcatBlocks::create_from_fn(2, 1, 64, || -> (g: And)
            ensures
                g@ == (Circuit::And { inputs: 2 }),
            { And::new(2) });
        proof {
            let cells = gates@->Parallel_cells;
            assert(cells =~= copies(64, Circuit::And { inputs: 2 }));
            assert(combinational(Circuit::And { inputs: 2 }, 2, 1));
            lemma_row(64, 2, 1, Circuit::And { inputs: 2 });
            assert(combinational(pairs@, 16, 128));
        }
        let switched = MergeLayers::create(pairs.into_block(), gates.into_block());
        assert(switched@ == addends());
        let init_hidden_state = Constant::new(0, 16, false);
        let input = ConcatDifferentShapeBlocks::create(
            init_hidden_state.into_block(),
            switched.into_block(),
        );
        proof {
            assert(combinational(Circuit::Constant { inputs: 0, outputs: 16, value: false }, 0, 16));
            lemma_pair(
                Circuit::Constant { inputs: 0, outputs: 16, value: false },
                addends(),
                0,
                16,
                16,
                64,
            );
            lemma_recurrent_shape(16, 8, 0, copies(8, multiplier_cell()));
        }
        let multiplier = MergeLayers::debug(input.into_block(), multiplier.into_block());
        Self { multiplier }
    }

    /// One cell of the multiplier.
    fn one_bit_multiplier() -> (r: MergeLayers)
        ensures
            r@ == multiplier_cell(),
            r@.realizable(),
            r@.input_width() == 24,
            r@.output_width() == 16,
    {
        proof {
            lemma_multiplier_cell();
            lemma_shift_and_pad();
            lemma_n_byte_adder(2);
            lemma_buffers_and_inverters(8);
        }
        let shifter = Wiring::rotate_right(16, 1);
        let buffer = ConcatBlocks::create_from_fn(1, 1, 8, Buffer::new);
        proof {
            let kept = buffer@->Parallel_cells;
            assert forall|k: int| 0 <= k < 8 implies kept[k] == Circuit::Buffer by {
                assert(makes(Buffer::new, kept[k]));
            }
            assert(kept =~= copies(8, Circuit::Buffer));
            assert(combinational(Circuit::Constant { inputs: 0, outputs: 8, value: false }, 0, 8));
            lemma_pair(
                bitwise(8, Circuit::Buffer),
                Circuit::Constant { inputs: 0, outputs: 8, value: false },
                8,
                8,
                0,
                8,
            );
        }
        let padding = Constant::new(0, 8, false);
        let cur_input = ConcatDifferentShapeBlocks::create(
            buffer.into_block(),
            padding.into_block(),
        );
        let all_input = ConcatDifferentShapeBlocks::create(
            shifter.into_block(),
            cur_input.into_block(),
        );
        assert(all_input@ == shift_and_pad());
        let adder = NByteAdder::new(2);
        MergeLayers::create(all_input.into_block(), adder.into_block())
    }
}

impl Component for EightBitMultiplier {
    fn input_width(&self) -> (w: usize) {
        self.multiplier.input_width()
    }

    fn output_width(&self) -> (w: usize) {
        self.multiplier.output_width()
    }

    fn eval(&self, input: &[bool]) -> (out: Vec<bool>) {
        self.multiplier.eval(input)
    }

    fn eval_mut(&mut self, input: &[bool]) -> (out: Vec<bool>) {
        self.multiplier.eval_mut(input)
    }

    fn into_block(self) -> (b: Block) {
        self.multiplier.into_block()
    }
}

} // verus!
