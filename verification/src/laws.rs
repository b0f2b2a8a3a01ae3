//! Laws that hold of every block: shapes are preserved, stateless blocks are
//! pure, and serial composition associates. With them, what each combinator
//! does to the blocks it composes, in the form the proofs about composed
//! blocks use.
use crate::circuit::{
    carried, chain, chunk, concat_all, emitted, evals, fed, lemma_parallel_eval,
    lemma_parallel_step, lemma_recurrent_eval, lemma_recurrent_step, outputs_of, parts, side_by_side,
    Circuit,
};
use vstd::prelude::*;

verus! {

/// `i * w + w <= n * w` for a slice index below `n`.
pub proof fn lemma_chunk_bounds(i: int, n: int, w: nat)
    requires
        0 <= i < n,
    ensures
        0 <= i * w,
        i * w + w <= n * w,
        (i + 1) * w == i * w + w,
{
    assert(0 <= i * w && i * w + w <= n * w && (i + 1) * w == i * w + w) by (nonlinear_arith)
        requires
            0 <= i < n,
            0 <= w,
    ;
}

/// A slice taken inside the bus has the slice width.
pub proof fn lemma_chunk_len(x: Seq<bool>, i: int, n: int, w: nat)
    requires
        0 <= i < n,
        x.len() == n * w,
    ensures
        chunk(x, i, w).len() == w,
{
    lemma_chunk_bounds(i, n, w);
}

/// Concatenating `k` parts of width `w` gives width `k * w`.
pub proof fn lemma_concat_all_len(parts: Seq<Seq<bool>>, k: nat, w: nat)
    requires
        k <= parts.len(),
        forall|i: int| 0 <= i < k ==> (#[trigger] parts[i]).len() == w,
    ensures
        concat_all(parts, k).len() == k * w,
    decreases k,
{
    if k > 0 {
        lemma_concat_all_len(parts, (k - 1) as nat, w);
        assert((k - 1) * w + w == k * w) by (nonlinear_arith);
    }
}

/// In a concatenation of parts of width `w`, position `i * w + r` holds
/// element `r` of part `i`.
pub proof fn lemma_concat_all_index(parts: Seq<Seq<bool>>, k: nat, w: nat, i: int, r: int)
    requires
        k <= parts.len(),
        forall|j: int| 0 <= j < k ==> (#[trigger] parts[j]).len() == w,
        0 <= i < k,
        0 <= r < w,
    ensures
        0 <= i * w + r < concat_all(parts, k).len(),
        concat_all(parts, k)[i * w + r] == parts[i][r],
    decreases k,
{
    lemma_concat_all_len(parts, k, w);
    lemma_concat_all_len(parts, (k - 1) as nat, w);
    lemma_chunk_bounds(i, k as int, w);
    assert((k - 1) * w + w == k * w) by (nonlinear_arith);
    if i < k - 1 {
        lemma_concat_all_index(parts, (k - 1) as nat, w, i, r);
    } else {
        assert(i * w == (k - 1) * w);
    }
}

/// The concatenation of the first `k` parts depends on those parts only.
pub proof fn lemma_concat_all_congruence(a: Seq<Seq<bool>>, b: Seq<Seq<bool>>, k: nat)
    requires
        k <= a.len(),
        k <= b.len(),
        forall|i: int| 0 <= i < k ==> a[i] == b[i],
    ensures
        concat_all(a, k) == concat_all(b, k),
    decreases k,
{
    if k > 0 {
        lemma_concat_all_congruence(a, b, (k - 1) as nat);
    }
}

/// Widths along a recurrent chain whose cells map width `state + inputs` to
/// width `outputs + state`.
pub proof fn lemma_chain_shape(
    cells: Seq<spec_fn(Seq<bool>) -> Seq<bool>>,
    state: nat,
    inputs: nat,
    outputs: nat,
    h: Seq<bool>,
    xs: Seq<bool>,
    k: nat,
)
    requires
        k <= cells.len(),
        h.len() == state,
        xs.len() == cells.len() * inputs,
        forall|i: int, v: Seq<bool>|
            0 <= i < cells.len() && v.len() == state + inputs ==> (#[trigger] cells[i](v)).len()
                == outputs + state,
    ensures
        carried(cells, inputs, outputs, h, xs, k).len() == state,
        emitted(cells, inputs, outputs, h, xs, k).len() == k * outputs,
        k > 0 ==> (carried(cells, inputs, outputs, h, xs, (k - 1) as nat) + chunk(
            xs,
            k - 1,
            inputs,
        )).len() == state + inputs,
    decreases k,
{
    if k > 0 {
        lemma_chain_shape(cells, state, inputs, outputs, h, xs, (k - 1) as nat);
        lemma_chunk_len(xs, k - 1, cells.len() as int, inputs);
        let before = carried(cells, inputs, outputs, h, xs, (k - 1) as nat);
        let fed = before + chunk(xs, k - 1, inputs);
        assert(fed.len() == state + inputs);
        assert(cells[k - 1](fed).len() == outputs + state);
        assert((k - 1) * outputs + outputs == k * outputs) by (nonlinear_arith);
    } else {
        assert(0 * outputs == 0) by (nonlinear_arith);
    }
}

/// A recurrent chain depends on its cells only through what they return on
/// inputs of the cell width.
pub proof fn lemma_chain_congruence(
    a: Seq<spec_fn(Seq<bool>) -> Seq<bool>>,
    b: Seq<spec_fn(Seq<bool>) -> Seq<bool>>,
    state: nat,
    inputs: nat,
    outputs: nat,
    h: Seq<bool>,
    xs: Seq<bool>,
    k: nat,
)
    requires
        a.len() == b.len(),
        k <= a.len(),
        h.len() == state,
        xs.len() == a.len() * inputs,
        forall|i: int, v: Seq<bool>|
            0 <= i < a.len() && v.len() == state + inputs ==> (#[trigger] a[i](v)).len()
                == outputs + state,
        forall|i: int, v: Seq<bool>|
            0 <= i < a.len() && v.len() == state + inputs ==> #[trigger] a[i](v) == b[i](v),
    ensures
        carried(a, inputs, outputs, h, xs, k) == carried(b, inputs, outputs, h, xs, k),
        emitted(a, inputs, outputs, h, xs, k) == emitted(b, inputs, outputs, h, xs, k),
    decreases k,
{
    if k > 0 {
        lemma_chain_congruence(a, b, state, inputs, outputs, h, xs, (k - 1) as nat);
        lemma_chain_shape(a, state, inputs, outputs, h, xs, k);
        let before = carried(a, inputs, outputs, h, xs, (k - 1) as nat);
        let fed = before + chunk(xs, k - 1, inputs);
        assert(a[k - 1](fed) == b[k - 1](fed));
    }
}

/// Blocks side by side, each mapping width `inputs` to width `outputs`,
/// map width `n * inputs` to width `n * outputs`.
pub proof fn lemma_side_by_side_len(
    cells: Seq<spec_fn(Seq<bool>) -> Seq<bool>>,
    inputs: nat,
    outputs: nat,
    x: Seq<bool>,
)
    requires
        x.len() == cells.len() * inputs,
        forall|i: int, v: Seq<bool>|
            0 <= i < cells.len() && v.len() == inputs ==> (#[trigger] cells[i](v)).len()
                == outputs,
    ensures
        side_by_side(cells, inputs, x).len() == cells.len() * outputs,
{
    let ps = parts(cells, inputs, x);
    assert forall|i: int| 0 <= i < cells.len() implies (#[trigger] ps[i]).len() == outputs by {
        lemma_chunk_len(x, i, cells.len() as int, inputs);
    }
    lemma_concat_all_len(ps, cells.len(), outputs);
}

/// Blocks side by side, bit by bit: output `i * outputs + r` is bit `r` of
/// what block `i` returns on slice `i`.
pub proof fn lemma_side_by_side_index(
    cells: Seq<spec_fn(Seq<bool>) -> Seq<bool>>,
    inputs: nat,
    outputs: nat,
    x: Seq<bool>,
    i: int,
    r: int,
)
    requires
        x.len() == cells.len() * inputs,
        forall|j: int, v: Seq<bool>|
            0 <= j < cells.len() && v.len() == inputs ==> (#[trigger] cells[j](v)).len()
                == outputs,
        0 <= i < cells.len(),
        0 <= r < outputs,
    ensures
        0 <= i * outputs + r < side_by_side(cells, inputs, x).len(),
        side_by_side(cells, inputs, x)[i * outputs + r] == cells[i](chunk(x, i, inputs))[r],
{
    let ps = parts(cells, inputs, x);
    assert forall|j: int| 0 <= j < cells.len() implies (#[trigger] ps[j]).len() == outputs by {
        lemma_chunk_len(x, j, cells.len() as int, inputs);
    }
    lemma_concat_all_index(ps, cells.len(), outputs, i, r);
}

/// Blocks side by side depend on the blocks only through what they return
/// on inputs of the block width.
pub proof fn lemma_side_by_side_congruence(
    a: Seq<spec_fn(Seq<bool>) -> Seq<bool>>,
    b: Seq<spec_fn(Seq<bool>) -> Seq<bool>>,
    inputs: nat,
    x: Seq<bool>,
)
    requires
        a.len() == b.len(),
        x.len() == a.len() * inputs,
        forall|i: int, v: Seq<bool>|
            0 <= i < a.len() && v.len() == inputs ==> #[trigger] a[i](v) == b[i](v),
    ensures
        side_by_side(a, inputs, x) == side_by_side(b, inputs, x),
{
    let pa = parts(a, inputs, x);
    let pb = parts(b, inputs, x);
    assert forall|i: int| 0 <= i < a.len() implies pa[i] == pb[i] by {
        lemma_chunk_len(x, i, a.len() as int, inputs);
    }
    lemma_concat_all_congruence(pa, pb, a.len());
}

/// Shape preservation, pure evaluation: a well-formed block of shape
/// `I → O` maps every input of length `I` to an output of length `O`.
pub proof fn lemma_eval_shape(c: Circuit, x: Seq<bool>)
    requires
        c.wf(),
        x.len() == c.input_width(),
    ensures
        c.eval(x).len() == c.output_width(),
    decreases c,
{
    match c {
        Circuit::Serial(a, b) => {
            lemma_eval_shape(*a, x);
            lemma_eval_shape(*b, a.eval(x));
        },
        Circuit::Parallel { inputs, outputs, cells } => {
            lemma_parallel_eval(inputs, outputs, cells, x);
            let fs = evals(cells);
            assert forall|i: int, v: Seq<bool>|
                0 <= i < fs.len() && v.len() == inputs implies (#[trigger] fs[i](v)).len()
                == outputs by {
                lemma_eval_shape(cells[i], v);
            }
            lemma_side_by_side_len(fs, inputs, outputs, x);
        },
        Circuit::Pair(a, b) => {
            lemma_eval_shape(*a, x.take(a.input_width() as int));
            lemma_eval_shape(*b, x.skip(a.input_width() as int));
        },
        Circuit::Recurrent { state, inputs, outputs, cells } => {
            lemma_recurrent_eval(state, inputs, outputs, cells, x);
            let fs = evals(cells);
            assert forall|i: int, v: Seq<bool>|
                0 <= i < fs.len() && v.len() == state + inputs implies (#[trigger] fs[i](v)).len()
                == outputs + state by {
                lemma_eval_shape(cells[i], v);
            }
            lemma_chain_shape(
                fs,
                state,
                inputs,
                outputs,
                x.take(state as int),
                x.skip(state as int),
                cells.len(),
            );
        },
        _ => {},
    }
}

/// Shape preservation, state-updating evaluation: the output has the declared
/// width, and the block left behind is well-formed with the same widths and
/// within the same bound.
pub proof fn lemma_step_shape(c: Circuit, x: Seq<bool>, limit: nat)
    requires
        c.wf(),
        x.len() == c.input_width(),
    ensures
        c.output(x).len() == c.output_width(),
        c.next(x).wf(),
        c.next(x).input_width() == c.input_width(),
        c.next(x).output_width() == c.output_width(),
        c.bounded(limit) ==> c.next(x).bounded(limit),
    decreases c,
{
    match c {
        Circuit::Serial(a, b) => {
            lemma_step_shape(*a, x, limit);
            lemma_step_shape(*b, a.step(x).1, limit);
        },
        Circuit::Parallel { inputs, outputs, cells } => {
            lemma_parallel_step(inputs, outputs, cells, x);
            let fs = outputs_of(cells);
            let after = c.next(x)->Parallel_cells;
            assert forall|i: int, v: Seq<bool>|
                0 <= i < fs.len() && v.len() == inputs implies (#[trigger] fs[i](v)).len()
                == outputs by {
                lemma_step_shape(cells[i], v, limit);
            }
            lemma_side_by_side_len(fs, inputs, outputs, x);
            assert forall|i: int| 0 <= i < cells.len() implies (#[trigger] after[i]).wf()
                && after[i].input_width() == inputs && after[i].output_width() == outputs && (
            c.bounded(limit) ==> after[i].bounded(limit)) by {
                lemma_chunk_len(x, i, cells.len() as int, inputs);
                lemma_step_shape(cells[i], chunk(x, i, inputs), limit);
            }
        },
        Circuit::Pair(a, b) => {
            lemma_step_shape(*a, x.take(a.input_width() as int), limit);
            lemma_step_shape(*b, x.skip(a.input_width() as int), limit);
        },
        Circuit::Recurrent { state, inputs, outputs, cells } => {
            lemma_recurrent_step(state, inputs, outputs, cells, x);
            let fs = outputs_of(cells);
            let h = x.take(state as int);
            let xs = x.skip(state as int);
            let after = c.next(x)->Recurrent_cells;
            assert forall|i: int, v: Seq<bool>|
                0 <= i < fs.len() && v.len() == state + inputs implies (#[trigger] fs[i](v)).len()
                == outputs + state by {
                lemma_step_shape(cells[i], v, limit);
            }
            lemma_chain_shape(fs, state, inputs, outputs, h, xs, cells.len());
            assert forall|i: int| 0 <= i < cells.len() implies (#[trigger] after[i]).wf()
                && after[i].input_width() == state + inputs && after[i].output_width() == outputs
                + state && (c.bounded(limit) ==> after[i].bounded(limit)) by {
                lemma_chain_shape(fs, state, inputs, outputs, h, xs, (i + 1) as nat);
                lemma_step_shape(cells[i], fed(fs, state, inputs, outputs, x, i), limit);
            }
        },
        _ => {
            lemma_eval_shape(c, x);
        },
    }
}

/// Purity of combinational blocks: on a block with no clock, edge detector or
/// latch inside, a state-updating evaluation returns what the pure evaluation
/// returns and leaves the block as it was.
pub proof fn lemma_stateless_step(c: Circuit, x: Seq<bool>)
    requires
        c.stateless(),
        c.wf(),
        x.len() == c.input_width(),
    ensures
        c.step(x) == (c, c.eval(x)),
    decreases c,
{
    match c {
        Circuit::Serial(a, b) => {
            lemma_stateless_step(*a, x);
            lemma_eval_shape(*a, x);
            lemma_stateless_step(*b, a.eval(x));
        },
        Circuit::Parallel { inputs, outputs, cells } => {
            lemma_parallel_step(inputs, outputs, cells, x);
            lemma_parallel_eval(inputs, outputs, cells, x);
            let fs = outputs_of(cells);
            let pure_fs = evals(cells);
            let after = c.next(x)->Parallel_cells;
            assert forall|i: int, v: Seq<bool>|
                0 <= i < fs.len() && v.len() == inputs implies #[trigger] fs[i](v) == pure_fs[i](
                v,
            ) by {
                lemma_stateless_step(cells[i], v);
            }
            lemma_side_by_side_congruence(fs, pure_fs, inputs, x);
            assert forall|i: int| 0 <= i < cells.len() implies after[i] == cells[i] by {
                lemma_chunk_len(x, i, cells.len() as int, inputs);
                lemma_stateless_step(cells[i], chunk(x, i, inputs));
            }
            assert(after =~= cells);
        },
        Circuit::Pair(a, b) => {
            lemma_stateless_step(*a, x.take(a.input_width() as int));
            lemma_stateless_step(*b, x.skip(a.input_width() as int));
        },
        Circuit::Recurrent { state, inputs, outputs, cells } => {
            lemma_recurrent_step(state, inputs, outputs, cells, x);
            lemma_recurrent_eval(state, inputs, outputs, cells, x);
            let fs = outputs_of(cells);
            let pure_fs = evals(cells);
            let h = x.take(state as int);
            let xs = x.skip(state as int);
            let after = c.next(x)->Recurrent_cells;
            assert forall|i: int, v: Seq<bool>|
                0 <= i < fs.len() && v.len() == state + inputs implies (#[trigger] fs[i](v)).len()
                == outputs + state && fs[i](v) == pure_fs[i](v) by {
                lemma_stateless_step(cells[i], v);
                lemma_eval_shape(cells[i], v);
            }
            lemma_chain_congruence(fs, pure_fs, state, inputs, outputs, h, xs, cells.len());
            assert forall|i: int| 0 <= i < cells.len() implies after[i] == cells[i] by {
                lemma_chain_shape(fs, state, inputs, outputs, h, xs, (i + 1) as nat);
                lemma_stateless_step(cells[i], fed(fs, state, inputs, outputs, x, i));
            }
            assert(after =~= cells);
        },
        _ => {},
    }
}

/// Serial associativity: `(a; b); c` and `a; (b; c)` give the same output in
/// both evaluation modes, and leave the same three blocks behind.
pub proof fn lemma_serial_associative(a: Circuit, b: Circuit, c: Circuit, x: Seq<bool>)
    ensures
        ({
            let left = Circuit::Serial(
                Box::new(Circuit::Serial(Box::new(a), Box::new(b))),
                Box::new(c),
            );
            let right = Circuit::Serial(
                Box::new(a),
                Box::new(Circuit::Serial(Box::new(b), Box::new(c))),
            );
            let a2 = a.next(x);
            let b2 = b.next(a.output(x));
            let c2 = c.next(b.output(a.output(x)));
            &&& left.eval(x) == right.eval(x)
            &&& left.output(x) == right.output(x)
            &&& left.wf() == right.wf()
            &&& left.next(x) == Circuit::Serial(
                Box::new(Circuit::Serial(Box::new(a2), Box::new(b2))),
                Box::new(c2),
            )
            &&& right.next(x) == Circuit::Serial(
                Box::new(a2),
                Box::new(Circuit::Serial(Box::new(b2), Box::new(c2))),
            )
        }),
{
    reveal_with_fuel(Circuit::eval, 3);
    reveal_with_fuel(Circuit::step, 3);
    reveal_with_fuel(Circuit::wf, 3);
    reveal_with_fuel(Circuit::input_width, 3);
    reveal_with_fuel(Circuit::output_width, 3);
}

/// Uniform parallel composition of well-formed blocks of one shape is
/// well-formed, with the widths multiplied by the number of blocks.
pub proof fn lemma_parallel_shape(inputs: nat, outputs: nat, cells: Seq<Circuit>)
    requires
        forall|i: int|
            0 <= i < cells.len() ==> (#[trigger] cells[i]).wf() && cells[i].input_width()
                == inputs && cells[i].output_width() == outputs,
    ensures
        (Circuit::Parallel { inputs, outputs, cells }).wf(),
        (Circuit::Parallel { inputs, outputs, cells }).input_width() == cells.len() * inputs,
        (Circuit::Parallel { inputs, outputs, cells }).output_width() == cells.len() * outputs,
        (forall|i: int| 0 <= i < cells.len() ==> (#[trigger] cells[i]).stateless()) ==> (
        Circuit::Parallel { inputs, outputs, cells }).stateless(),
        forall|limit: nat|
            cells.len() * inputs <= limit && cells.len() * outputs <= limit && (forall|i: int|
                0 <= i < cells.len() ==> (#[trigger] cells[i]).bounded(limit)) ==> (
            #[trigger] (Circuit::Parallel { inputs, outputs, cells }).bounded(limit)),
{
}

/// Uniform parallel composition, bit by bit: output `i * outputs + r` is bit
/// `r` of what block `i` returns on slice `i` of the input.
pub proof fn lemma_parallel_bit(
    inputs: nat,
    outputs: nat,
    cells: Seq<Circuit>,
    x: Seq<bool>,
    i: int,
    r: int,
)
    requires
        forall|j: int|
            0 <= j < cells.len() ==> (#[trigger] cells[j]).wf() && cells[j].input_width()
                == inputs && cells[j].output_width() == outputs,
        x.len() == cells.len() * inputs,
        0 <= i < cells.len(),
        0 <= r < outputs,
    ensures
        (Circuit::Parallel { inputs, outputs, cells }).eval(x).len() == cells.len() * outputs,
        0 <= i * outputs + r < cells.len() * outputs,
        (Circuit::Parallel { inputs, outputs, cells }).eval(x)[i * outputs + r] == cells[i].eval(
            chunk(x, i, inputs),
        )[r],
        chunk(x, i, inputs).len() == inputs,
{
    let c = Circuit::Parallel { inputs, outputs, cells };
    lemma_parallel_eval(inputs, outputs, cells, x);
    let fs = evals(cells);
    assert forall|j: int, v: Seq<bool>|
        0 <= j < fs.len() && v.len() == inputs implies (#[trigger] fs[j](v)).len() == outputs by {
        lemma_eval_shape(cells[j], v);
    }
    lemma_side_by_side_len(fs, inputs, outputs, x);
    lemma_side_by_side_index(fs, inputs, outputs, x, i, r);
    lemma_chunk_len(x, i, cells.len() as int, inputs);
}

/// `a` followed by `b`.
pub open spec fn serial(a: Circuit, b: Circuit) -> Circuit {
    Circuit::Serial(Box::new(a), Box::new(b))
}

/// `a` beside `b`.
pub open spec fn pair(a: Circuit, b: Circuit) -> Circuit {
    Circuit::Pair(Box::new(a), Box::new(b))
}

/// Well-formed, combinational, and of shape `inputs → outputs`.
pub open spec fn combinational(c: Circuit, inputs: nat, outputs: nat) -> bool {
    c.wf() && c.stateless() && c.input_width() == inputs && c.output_width() == outputs
}

/// Serial composition of combinational blocks of matching widths is
/// combinational, stays within any bound that both stay within, and
/// evaluates one after the other.
pub proof fn lemma_serial(a: Circuit, b: Circuit, inputs: nat, middle: nat, outputs: nat)
    requires
        combinational(a, inputs, middle),
        combinational(b, middle, outputs),
    ensures
        combinational(serial(a, b), inputs, outputs),
        forall|limit: nat|
            a.bounded(limit) && b.bounded(limit) ==> #[trigger] serial(a, b).bounded(limit),
        forall|x: Seq<bool>| #[trigger] serial(a, b).eval(x) == b.eval(a.eval(x)),
{
}

/// Shaped parallel composition of combinational blocks is combinational,
/// stays within any bound that both blocks and the summed widths stay
/// within, and evaluates each block on its own part of the input.
pub proof fn lemma_pair(a: Circuit, b: Circuit, i1: nat, o1: nat, i2: nat, o2: nat)
    requires
        combinational(a, i1, o1),
        combinational(b, i2, o2),
    ensures
        combinational(pair(a, b), i1 + i2, o1 + o2),
        forall|limit: nat|
            a.bounded(limit) && b.bounded(limit) && i1 + i2 <= limit && o1 + o2 <= limit
                ==> #[trigger] pair(a, b).bounded(limit),
        forall|x: Seq<bool>| #[trigger]
            pair(a, b).eval(x) == a.eval(x.take(i1 as int)) + b.eval(x.skip(i1 as int)),
{
}

/// `n` copies of one block.
pub open spec fn copies(n: nat, c: Circuit) -> Seq<Circuit> {
    Seq::new(n, |i: int| c)
}

/// A recurrent unroll over well-formed cells of the cell shape is
/// well-formed, combinational if its cells are, and within any bound that
/// its cells and its own widths are within.
pub proof fn lemma_recurrent_shape(state: nat, inputs: nat, outputs: nat, cells: Seq<Circuit>)
    requires
        forall|i: int|
            0 <= i < cells.len() ==> (#[trigger] cells[i]).wf() && cells[i].input_width() == state
                + inputs && cells[i].output_width() == outputs + state,
    ensures
        (Circuit::Recurrent { state, inputs, outputs, cells }).wf(),
        (Circuit::Recurrent { state, inputs, outputs, cells }).input_width() == state
            + cells.len() * inputs,
        (Circuit::Recurrent { state, inputs, outputs, cells }).output_width() == cells.len()
            * outputs + state,
        (forall|i: int| 0 <= i < cells.len() ==> (#[trigger] cells[i]).stateless()) ==> (
        Circuit::Recurrent { state, inputs, outputs, cells }).stateless(),
        forall|limit: nat|
            state + cells.len() * inputs <= limit && cells.len() * outputs + state <= limit && (
            forall|i: int| 0 <= i < cells.len() ==> (#[trigger] cells[i]).bounded(limit)) ==> (
            #[trigger] (Circuit::Recurrent { state, inputs, outputs, cells }).bounded(limit)),
{
}

/// A row of `n` copies of a one-wire gate.
pub open spec fn bitwise(n: nat, gate: Circuit) -> Circuit {
    Circuit::Parallel { inputs: 1, outputs: 1, cells: copies(n, gate) }
}

/// A row of `n` combinational one-wire gates of one kind is combinational,
/// keeps the width of the bus, and treats each wire as one such gate alone
/// would.
pub proof fn lemma_bitwise(n: nat, gate: Circuit)
    requires
        combinational(gate, 1, 1),
    ensures
        combinational(bitwise(n, gate), n, n),
        forall|limit: nat|
            n <= limit && gate.bounded(limit) ==> #[trigger] bitwise(n, gate).bounded(limit),
        forall|x: Seq<bool>|
            x.len() == n ==> (#[trigger] bitwise(n, gate).eval(x)).len() == n && forall|i: int|
                0 <= i < n ==> bitwise(n, gate).eval(x)[i] == gate.eval(seq![x[i]])[0],
{
    let cells = copies(n, gate);
    lemma_parallel_shape(1, 1, cells);
    assert(n * 1 == n) by (nonlinear_arith);
    assert forall|limit: nat| n <= limit && gate.bounded(limit) implies #[trigger] bitwise(
        n,
        gate,
    ).bounded(limit) by {
        assert forall|i: int| 0 <= i < cells.len() implies (#[trigger] cells[i]).bounded(limit) by {
        }
    }
    assert forall|x: Seq<bool>| x.len() == n implies (#[trigger] bitwise(n, gate).eval(x)).len()
        == n && forall|i: int|
        0 <= i < n ==> bitwise(n, gate).eval(x)[i] == gate.eval(seq![x[i]])[0] by {
        if n > 0 {
            lemma_parallel_bit(1, 1, cells, x, 0, 0);
        } else {
            lemma_eval_shape(bitwise(n, gate), x);
        }
        assert forall|i: int| 0 <= i < n implies bitwise(n, gate).eval(x)[i] == gate.eval(
            seq![x[i]],
        )[0] by {
            lemma_parallel_bit(1, 1, cells, x, i, 0);
            assert(i * 1 + 0 == i) by (nonlinear_arith);
            assert(chunk(x, i, 1) =~= seq![x[i]]);
        }
    }
}

/// Every bit negated.
pub open spec fn complement(x: Seq<bool>) -> Seq<bool> {
    Seq::new(x.len(), |i: int| !x[i])
}

/// A row of buffers passes its input on; a row of inverters returns the
/// complement.
pub proof fn lemma_buffers_and_inverters(n: nat)
    ensures
        combinational(bitwise(n, Circuit::Buffer), n, n),
        combinational(bitwise(n, Circuit::Not), n, n),
        forall|limit: nat|
            n <= limit && 1 <= limit ==> #[trigger] bitwise(n, Circuit::Buffer).bounded(limit)
                && bitwise(n, Circuit::Not).bounded(limit),
        forall|x: Seq<bool>| x.len() == n ==> #[trigger] bitwise(n, Circuit::Buffer).eval(x) == x,
        forall|x: Seq<bool>|
            x.len() == n ==> #[trigger] bitwise(n, Circuit::Not).eval(x) == complement(x),
{
    assert(combinational(Circuit::Buffer, 1, 1));
    assert(combinational(Circuit::Not, 1, 1));
    lemma_bitwise(n, Circuit::Buffer);
    lemma_bitwise(n, Circuit::Not);
    assert forall|limit: nat| n <= limit && 1 <= limit implies #[trigger] bitwise(
        n,
        Circuit::Buffer,
    ).bounded(limit) && bitwise(n, Circuit::Not).bounded(limit) by {
        assert(Circuit::Buffer.bounded(limit));
        assert(Circuit::Not.bounded(limit));
    }
    assert forall|x: Seq<bool>| x.len() == n implies #[trigger] bitwise(n, Circuit::Buffer).eval(
        x,
    ) == x by {
        let out = bitwise(n, Circuit::Buffer).eval(x);
        assert forall|i: int| 0 <= i < n implies out[i] == x[i] by {
            assert(out[i] == Circuit::Buffer.eval(seq![x[i]])[0]);
        }
        assert(out =~= x);
    }
    assert forall|x: Seq<bool>| x.len() == n implies #[trigger] bitwise(n, Circuit::Not).eval(x)
        == complement(x) by {
        let out = bitwise(n, Circuit::Not).eval(x);
        assert forall|i: int| 0 <= i < n implies out[i] == !x[i] by {
            assert(out[i] == Circuit::Not.eval(seq![x[i]])[0]);
        }
        assert(out =~= complement(x));
    }
}

/// A row of `n` blocks of one kind, each of shape `inputs → outputs`.
pub open spec fn row(n: nat, inputs: nat, outputs: nat, cell: Circuit) -> Circuit {
    Circuit::Parallel { inputs, outputs, cells: copies(n, cell) }
}

/// A row of `n` combinational blocks of one kind is combinational, of
/// shape `n * inputs → n * outputs`, and within any bound that one block
/// and the widths of the row are within.
pub proof fn lemma_row(n: nat, inputs: nat, outputs: nat, cell: Circuit)
    requires
        combinational(cell, inputs, outputs),
    ensures
        combinational(row(n, inputs, outputs, cell), n * inputs, n * outputs),
        forall|limit: nat|
            n * inputs <= limit && n * outputs <= limit && cell.bounded(limit) ==> #[trigger] row(
                n,
                inputs,
                outputs,
                cell,
            ).bounded(limit),
        forall|x: Seq<bool>|
            x.len() == n * inputs ==> (#[trigger] row(n, inputs, outputs, cell).eval(x)).len() == n
                * outputs,
{
    let cells = copies(n, cell);
    let c = row(n, inputs, outputs, cell);
    lemma_parallel_shape(inputs, outputs, cells);
    assert forall|limit: nat|
        n * inputs <= limit && n * outputs <= limit && cell.bounded(limit) implies #[trigger] c.bounded(
        limit,
    ) by {
        assert forall|i: int| 0 <= i < cells.len() implies (#[trigger] cells[i]).bounded(limit) by {
        }
    }
    assert forall|x: Seq<bool>| x.len() == n * inputs implies (#[trigger] c.eval(x)).len() == n
        * outputs by {
        lemma_eval_shape(c, x);
    }
}

/// A row of blocks of one kind, bit by bit: output `i * outputs + r` is bit
/// `r` of what one block returns on slice `i` of the input.
pub proof fn lemma_row_bit(
    n: nat,
    inputs: nat,
    outputs: nat,
    cell: Circuit,
    x: Seq<bool>,
    i: int,
    r: int,
)
    requires
        combinational(cell, inputs, outputs),
        x.len() == n * inputs,
        0 <= i < n,
        0 <= r < outputs,
    ensures
        0 <= i * outputs + r < n * outputs,
        row(n, inputs, outputs, cell).eval(x)[i * outputs + r] == cell.eval(
            chunk(x, i, inputs),
        )[r],
        chunk(x, i, inputs).len() == inputs,
{
    lemma_parallel_bit(inputs, outputs, copies(n, cell), x, i, r);
}

/// Well-formed and of shape `inputs → outputs`.
pub open spec fn shaped(c: Circuit, inputs: nat, outputs: nat) -> bool {
    c.wf() && c.input_width() == inputs && c.output_width() == outputs
}

/// Serial composition of blocks of matching widths is well-formed, stays
/// within any bound that both stay within, and steps one block after the
/// other.
pub proof fn lemma_serial_step(a: Circuit, b: Circuit, inputs: nat, middle: nat, outputs: nat)
    requires
        shaped(a, inputs, middle),
        shaped(b, middle, outputs),
    ensures
        shaped(serial(a, b), inputs, outputs),
        forall|limit: nat|
            a.bounded(limit) && b.bounded(limit) ==> #[trigger] serial(a, b).bounded(limit),
        forall|x: Seq<bool>| #[trigger]
            serial(a, b).step(x) == (
                serial(a.next(x), b.next(a.output(x))),
                b.output(a.output(x)),
            ),
{
}

/// Shaped parallel composition is well-formed, stays within any bound that
/// both blocks and the summed widths stay within, and steps each block on
/// its own part of the input.
pub proof fn lemma_pair_step(a: Circuit, b: Circuit, i1: nat, o1: nat, i2: nat, o2: nat)
    requires
        shaped(a, i1, o1),
        shaped(b, i2, o2),
    ensures
        shaped(pair(a, b), i1 + i2, o1 + o2),
        forall|limit: nat|
            a.bounded(limit) && b.bounded(limit) && i1 + i2 <= limit && o1 + o2 <= limit
                ==> #[trigger] pair(a, b).bounded(limit),
        forall|x: Seq<bool>| #[trigger]
            pair(a, b).step(x) == (
                pair(a.next(x.take(i1 as int)), b.next(x.skip(i1 as int))),
                a.output(x.take(i1 as int)) + b.output(x.skip(i1 as int)),
            ),
{
}

/// A combinational block steps without changing: it returns what the pure
/// evaluation returns.
pub proof fn lemma_combinational_step(c: Circuit, inputs: nat, outputs: nat, x: Seq<bool>)
    requires
        combinational(c, inputs, outputs),
        x.len() == inputs,
    ensures
        c.next(x) == c,
        c.output(x) == c.eval(x),
        c.eval(x).len() == outputs,
{
    lemma_stateless_step(c, x);
    lemma_eval_shape(c, x);
}

/// Uniform parallel composition, stepping: block `i` steps on slice `i` of
/// the input, and output `i * outputs + r` is bit `r` of what it returns.
pub proof fn lemma_parallel_step_bit(
    inputs: nat,
    outputs: nat,
    cells: Seq<Circuit>,
    x: Seq<bool>,
    i: int,
    r: int,
)
    requires
        forall|j: int|
            0 <= j < cells.len() ==> (#[trigger] cells[j]).wf() && cells[j].input_width()
                == inputs && cells[j].output_width() == outputs,
        x.len() == cells.len() * inputs,
        0 <= i < cells.len(),
        0 <= r < outputs,
    ensures
        (Circuit::Parallel { inputs, outputs, cells }).output(x).len() == cells.len() * outputs,
        0 <= i * outputs + r < cells.len() * outputs,
        (Circuit::Parallel { inputs, outputs, cells }).output(x)[i * outputs + r]
            == cells[i].output(chunk(x, i, inputs))[r],
        chunk(x, i, inputs).len() == inputs,
{
    let c = Circuit::Parallel { inputs, outputs, cells };
    lemma_parallel_step(inputs, outputs, cells, x);
    let fs = outputs_of(cells);
    assert forall|j: int, v: Seq<bool>|
        0 <= j < fs.len() && v.len() == inputs implies (#[trigger] fs[j](v)).len() == outputs by {
        lemma_step_shape(cells[j], v, 0);
    }
    lemma_side_by_side_len(fs, inputs, outputs, x);
    lemma_side_by_side_index(fs, inputs, outputs, x, i, r);
    lemma_chunk_len(x, i, cells.len() as int, inputs);
}

} // verus!
