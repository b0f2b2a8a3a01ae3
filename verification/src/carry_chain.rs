//! Addition limb by limb: a row of adders, each handing its carry to the
//! next.
use crate::circuit::{
    carried, chunk, concat_all, emitted, evals, lemma_recurrent_eval, Circuit,
};
use crate::laws::{
    combinational, copies, lemma_chain_shape, lemma_chunk_bounds, lemma_chunk_len,
    lemma_concat_all_index, lemma_concat_all_len, lemma_recurrent_shape,
};
use crate::circuit::route;
use crate::num_bit_converter::{bit, lemma_value_of_concat, lemma_value_of_single, value_of};
use crate::wiring::zip_table;
use vstd::arithmetic::power2::{lemma_pow2_adds, pow2};
use vstd::prelude::*;

verus! {

/// The `width` bits of `x` from position `start` on.
pub open spec fn span(x: Seq<bool>, start: nat, width: nat) -> Seq<bool> {
    x.subrange(start as int, (start + width) as int)
}

/// `f` adds `w`-bit numbers: fed a carry bit and then two `w`-bit operands,
/// it returns `w + 1` bits that spell the sum of the three.
pub open spec fn adds(f: spec_fn(Seq<bool>) -> Seq<bool>, w: nat) -> bool {
    forall|v: Seq<bool>|
        v.len() == 1 + 2 * w ==> (#[trigger] f(v)).len() == w + 1 && value_of(f(v)) == bit(v[0])
            + value_of(span(v, 1, w)) + value_of(span(v, 1 + w, w))
}

/// Limb `i` of operand `side` (0 or 1) in a bus that holds, limb by limb, a
/// limb of the first operand and then a limb of the second.
pub open spec fn limb(xs: Seq<bool>, w: nat, side: nat, i: int) -> Seq<bool> {
    span(chunk(xs, i, 2 * w), side * w, w)
}

/// The first `n` limbs of operand `side`.
pub open spec fn limbs(xs: Seq<bool>, w: nat, side: nat, n: nat) -> Seq<Seq<bool>> {
    Seq::new(n, |i: int| limb(xs, w, side, i))
}

/// The low `k` limbs of operand `side`, as one bit vector.
pub open spec fn operand(xs: Seq<bool>, w: nat, side: nat, n: nat, k: nat) -> Seq<bool> {
    concat_all(limbs(xs, w, side, n), k)
}

/// A row of adders of `w`-bit numbers adds limb by limb: what the first `k`
/// adders have put out, together with the carry that leaves them, spells
/// the sum of the carry that came in and the low `k` limbs of both operands.
pub proof fn lemma_adder_chain(
    cells: Seq<spec_fn(Seq<bool>) -> Seq<bool>>,
    w: nat,
    h: Seq<bool>,
    xs: Seq<bool>,
    k: nat,
)
    requires
        k <= cells.len(),
        h.len() == 1,
        xs.len() == cells.len() * (2 * w),
        forall|i: int| 0 <= i < cells.len() ==> adds(#[trigger] cells[i], w),
    ensures
        carried(cells, 2 * w, w, h, xs, k).len() == 1,
        emitted(cells, 2 * w, w, h, xs, k).len() == k * w,
        operand(xs, w, 0, cells.len(), k).len() == k * w,
        operand(xs, w, 1, cells.len(), k).len() == k * w,
        value_of(emitted(cells, 2 * w, w, h, xs, k)) + pow2(k * w) * bit(
            carried(cells, 2 * w, w, h, xs, k)[0],
        ) == bit(h[0]) + value_of(operand(xs, w, 0, cells.len(), k)) + value_of(
            operand(xs, w, 1, cells.len(), k),
        ),
    decreases k,
{
    let n = cells.len();
    assert forall|i: int, v: Seq<bool>|
        0 <= i < cells.len() && v.len() == 1 + 2 * w implies (#[trigger] cells[i](v)).len() == w
        + 1 by {
        assert(adds(cells[i], w));
    }
    lemma_chain_shape(cells, 1, 2 * w, w, h, xs, k);
    assert(1 * w == w && 0 * w == 0) by (nonlinear_arith);
    assert forall|i: int| 0 <= i < n implies (#[trigger] limbs(xs, w, 0, n)[i]).len() == w by {
        lemma_chunk_len(xs, i, n as int, 2 * w);
    }
    assert forall|i: int| 0 <= i < n implies (#[trigger] limbs(xs, w, 1, n)[i]).len() == w by {
        lemma_chunk_len(xs, i, n as int, 2 * w);
    }
    lemma_concat_all_len(limbs(xs, w, 0, n), k, w);
    lemma_concat_all_len(limbs(xs, w, 1, n), k, w);
    if k == 0 {
        assert(0 * w == 0) by (nonlinear_arith);
        vstd::arithmetic::power2::lemma2_to64();
        assert(pow2(0) * bit(h[0]) == bit(h[0])) by (nonlinear_arith)
            requires
                pow2(0) == 1,
        ;
    } else {
        let j = (k - 1) as nat;
        lemma_adder_chain(cells, w, h, xs, j);
        lemma_concat_all_len(limbs(xs, w, 0, n), j, w);
        lemma_concat_all_len(limbs(xs, w, 1, n), j, w);
        lemma_chunk_len(xs, j as int, n as int, 2 * w);
        assert(1 * w == w) by (nonlinear_arith);
        assert(0 * w == 0) by (nonlinear_arith);
        let before = carried(cells, 2 * w, w, h, xs, j);
        let piece = chunk(xs, j as int, 2 * w);
        let fed = before + piece;
        let first = limb(xs, w, 0, j as int);
        let second = limb(xs, w, 1, j as int);
        assert(span(fed, 1, w) =~= first);
        assert(span(fed, 1 + w, w) =~= second);
        assert(fed[0] == before[0]);
        let produced = cells[j as int](fed);
        assert(adds(cells[j as int], w));
        assert(produced.len() == w + 1);
        assert(value_of(produced) == bit(before[0]) + value_of(first) + value_of(second));
        let low = produced.take(w as int);
        let high = produced.skip(w as int);
        assert(low + high =~= produced);
        lemma_value_of_concat(low, high);
        assert(high =~= seq![high[0]]);
        lemma_value_of_single(high[0]);
        let out_before = emitted(cells, 2 * w, w, h, xs, j);
        lemma_value_of_concat(out_before, low);
        lemma_value_of_concat(operand(xs, w, 0, n, j), first);
        lemma_value_of_concat(operand(xs, w, 1, n, j), second);
        assert(limbs(xs, w, 0, n)[j as int] == first);
        assert(limbs(xs, w, 1, n)[j as int] == second);
        lemma_pow2_adds(j * w, w);
        assert(j * w + w == k * w) by (nonlinear_arith)
            requires
                j + 1 == k,
        ;
        let p = pow2(j * w);
        let q = pow2(w);
        let carry_in = bit(before[0]);
        let carry_out = bit(high[0]);
        let va = value_of(first);
        let vb = value_of(second);
        let vl = value_of(low);
        assert(p * (vl + q * carry_out) == p * vl + (p * q) * carry_out) by (nonlinear_arith);
        assert(p * (carry_in + va + vb) == p * carry_in + p * va + p * vb) by (nonlinear_arith);
    }
}

/// A row of `n` copies of an adder of `w`-bit numbers, the carry handed
/// from each to the next.
pub open spec fn adder_row(n: nat, w: nat, cell: Circuit) -> Circuit {
    Circuit::Recurrent { state: 1, inputs: 2 * w, outputs: w, cells: copies(n, cell) }
}

/// The pure evaluation of `c`, as a function.
pub open spec fn eval_of(c: Circuit) -> spec_fn(Seq<bool>) -> Seq<bool> {
    |v: Seq<bool>| c.eval(v)
}

/// A row of `n` adders of `w`-bit numbers is a combinational block of shape
/// `1 + n * 2w → n * w + 1` whose output spells the sum of the carry bit and
/// the two operands that the input holds limb by limb.
pub proof fn lemma_adder_row(n: nat, w: nat, cell: Circuit)
    requires
        combinational(cell, 1 + 2 * w, w + 1),
        adds(eval_of(cell), w),
    ensures
        combinational(adder_row(n, w, cell), 1 + n * (2 * w), n * w + 1),
        forall|limit: nat|
            cell.bounded(limit) && 1 + n * (2 * w) <= limit && n * w + 1 <= limit
                ==> #[trigger] adder_row(n, w, cell).bounded(limit),
        forall|x: Seq<bool>|
            x.len() == 1 + n * (2 * w) ==> (#[trigger] adder_row(n, w, cell).eval(x)).len() == n
                * w + 1 && value_of(adder_row(n, w, cell).eval(x)) == bit(x[0]) + value_of(
                operand(x.skip(1), w, 0, n, n),
            ) + value_of(operand(x.skip(1), w, 1, n, n)),
{
    let cells = copies(n, cell);
    let row = adder_row(n, w, cell);
    lemma_recurrent_shape(1, 2 * w, w, cells);
    assert forall|limit: nat|
        cell.bounded(limit) && 1 + n * (2 * w) <= limit && n * w + 1 <= limit implies #[trigger] row.bounded(
        limit,
    ) by {
        assert forall|i: int| 0 <= i < cells.len() implies (#[trigger] cells[i]).bounded(limit) by {
        }
    }
    let fs = evals(cells);
    assert forall|i: int| 0 <= i < fs.len() implies adds(#[trigger] fs[i], w) by {
        assert forall|v: Seq<bool>| v.len() == 1 + 2 * w implies (#[trigger] fs[i](v)).len() == w
            + 1 && value_of(fs[i](v)) == bit(v[0]) + value_of(span(v, 1, w)) + value_of(
            span(v, 1 + w, w),
        ) by {
            assert(fs[i](v) == eval_of(cell)(v));
        }
    }
    assert forall|x: Seq<bool>| x.len() == 1 + n * (2 * w) implies (#[trigger] row.eval(x)).len()
        == n * w + 1 && value_of(row.eval(x)) == bit(x[0]) + value_of(
        operand(x.skip(1), w, 0, n, n),
    ) + value_of(operand(x.skip(1), w, 1, n, n)) by {
        lemma_recurrent_eval(1, 2 * w, w, cells, x);
        let h = x.take(1);
        let xs = x.skip(1);
        lemma_adder_chain(fs, w, h, xs, n);
        let low = emitted(fs, 2 * w, w, h, xs, n);
        let high = carried(fs, 2 * w, w, h, xs, n);
        assert(row.eval(x) == low + high);
        lemma_value_of_concat(low, high);
        assert(high =~= seq![high[0]]);
        lemma_value_of_single(high[0]);
    }
}

/// Where the bits of an operand lie: bit `r` of limb `i` of operand `side`
/// is bit `i * 2w + side * w + r` of the bus.
pub proof fn lemma_operand_index(xs: Seq<bool>, w: nat, side: nat, n: nat, i: int, r: int)
    requires
        xs.len() == n * (2 * w),
        side == 0 || side == 1,
        0 <= i < n,
        0 <= r < w,
    ensures
        operand(xs, w, side, n, n).len() == n * w,
        0 <= i * w + r < n * w,
        0 <= i * (2 * w) + side * w + r < xs.len(),
        operand(xs, w, side, n, n)[i * w + r] == xs[i * (2 * w) + side * w + r],
{
    let ls = limbs(xs, w, side, n);
    assert(1 * w == w && 0 * w == 0) by (nonlinear_arith);
    assert forall|j: int| 0 <= j < n implies (#[trigger] ls[j]).len() == w by {
        lemma_chunk_len(xs, j, n as int, 2 * w);
    }
    lemma_concat_all_len(ls, n, w);
    lemma_concat_all_index(ls, n, w, i, r);
    lemma_chunk_bounds(i, n as int, 2 * w);
    lemma_chunk_bounds(i, n as int, w);
    lemma_chunk_len(xs, i, n as int, 2 * w);
}

/// The bit-by-bit interleave of two eight-bit operands lays them out so
/// that the first operand is the first half of what went in and the second
/// operand the second half.
pub proof fn lemma_bit_interleave(z: Seq<bool>)
    requires
        z.len() == 16,
    ensures
        route(zip_table(16, 2), z).len() == 16,
        operand(route(zip_table(16, 2), z), 1, 0, 8, 8) == span(z, 0, 8),
        operand(route(zip_table(16, 2), z), 1, 1, 8, 8) == span(z, 8, 8),
{
    let table = zip_table(16, 2);
    let xs = route(table, z);
    assert forall|j: int| 0 <= j < 8 implies operand(xs, 1, 0, 8, 8)[j] == span(z, 0, 8)[j]
        && operand(xs, 1, 1, 8, 8)[j] == span(z, 8, 8)[j] by {
        lemma_operand_index(xs, 1, 0, 8, j, 0);
        lemma_operand_index(xs, 1, 1, 8, j, 0);
        assert(table[2 * j] == j);
        assert(table[2 * j + 1] == 8 + j);
        assert(xs[2 * j] == z[table[2 * j]]);
        assert(xs[2 * j + 1] == z[table[2 * j + 1]]);
        assert(j * 1 + 0 == j && j * (2 * 1) + 0 * 1 + 0 == 2 * j && j * (2 * 1) + 1 * 1 + 0 == 2
            * j + 1) by (nonlinear_arith);
    }
    lemma_operand_index(xs, 1, 0, 8, 0, 0);
    lemma_operand_index(xs, 1, 1, 8, 0, 0);
    assert(operand(xs, 1, 0, 8, 8) =~= span(z, 0, 8));
    assert(operand(xs, 1, 1, 8, 8) =~= span(z, 8, 8));
}

} // verus!
