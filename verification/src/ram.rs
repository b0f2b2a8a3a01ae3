//! The model of the random-access memory, layer by layer, and the law that
//! what was written is what is read.
use crate::circuit::{any_true, chunk, lemma_parallel_step, route, Circuit};
use crate::calculator::lemma_two_bits;
use crate::decoder::{decoder_circuit, lemma_decoder, one_hot};
use crate::laws::{
    bitwise, combinational, lemma_buffers_and_inverters, lemma_chunk_bounds,
    lemma_combinational_step, lemma_pair, lemma_parallel_shape, lemma_parallel_step_bit,
    lemma_row, lemma_row_bit, lemma_serial, lemma_serial_step, pair, row, serial, shaped,
};
use crate::memory::{
    blank, gated, lemma_memory_byte, memory_byte_circuit, word, written_word,
};
use crate::num_bit_converter::{lemma_value_of_bound, value_of};
use crate::carry_chain::span;
use crate::wiring::{lemma_unzip_entry, lemma_zip_unzip_inverse, unzip_table, wire};
use vstd::arithmetic::div_mod::{lemma_fundamental_div_mod, lemma_fundamental_div_mod_converse};
use vstd::arithmetic::power2::{lemma_pow2_pos, pow2};
use vstd::prelude::*;

verus! {

/// The table that pairs the read line and the write line with each line of
/// the decoder.
pub open spec fn enable_table(rows: nat) -> Seq<int> {
    Seq::new(
        4 * rows,
        |i: int|
            if i % 4 == 0 {
                0
            } else if i % 4 == 2 {
                1
            } else {
                i / 4 + 2
            },
    )
}

/// The read and write enables of every row: row `k` is enabled for reading
/// if `read` is set and `k` is the addressed row, and likewise for writing.
pub open spec fn enables(rows: nat, read: bool, write: bool, at: nat) -> Seq<bool> {
    Seq::new(2 * rows, |m: int| (if m % 2 == 0 { read } else { write }) && m / 2 == at)
}

/// The part of the memory that turns the read line, the write line and the
/// address into the enables of every row.
pub open spec fn select(a: nat) -> Circuit {
    serial(
        serial(
            pair(bitwise(2, Circuit::Buffer), decoder_circuit(a)),
            wire(2 + pow2(a), enable_table(pow2(a))),
        ),
        row(2 * pow2(a), 2, 1, Circuit::And { inputs: 2 }),
    )
}

/// Pairing the two lines with the decoded address and AND-ing the pairs
/// gives the enables.
pub proof fn lemma_enable_pairs(rows: nat, read: bool, write: bool, at: nat)
    ensures
        wire(2 + rows, enable_table(rows)).wf(),
        row(2 * rows, 2, 1, Circuit::And { inputs: 2 }).eval(
            route(enable_table(rows), seq![read, write] + one_hot(rows, at)),
        ) == enables(rows, read, write, at),
{
    let table = enable_table(rows);
    let u = seq![read, write] + one_hot(rows, at);
    let v = route(table, u);
    let cell = Circuit::And { inputs: 2 };
    assert(combinational(cell, 2, 1));
    lemma_row(2 * rows, 2, 1, cell);
    assert((2 * rows) * 2 == 4 * rows && (2 * rows) * 1 == 2 * rows) by (nonlinear_arith);
    let out = row(2 * rows, 2, 1, cell).eval(v);
    assert forall|m: int| 0 <= m < 2 * rows implies out[m] == enables(rows, read, write, at)[m] by {
        lemma_row_bit(2 * rows, 2, 1, cell, v, m, 0);
        assert(m * 1 + 0 == m && m * 2 == 2 * m) by (nonlinear_arith);
        let fed = chunk(v, m, 2);
        assert(fed =~= seq![v[2 * m], v[2 * m + 1]]);
        lemma_two_bits(fed);
        let k = m / 2;
        if m % 2 == 0 {
            assert(table[2 * m] == 0);
            assert(table[2 * m + 1] == k + 2);
        } else {
            assert(table[2 * m] == 1);
            assert(table[2 * m + 1] == k + 2);
        }
        assert(u[k + 2] == (k == at));
    }
    assert(out =~= enables(rows, read, write, at));
}

/// The selecting part of the memory is a combinational block of shape
/// `2 + a → 2 * 2^a` that returns the enables of every row for the read
/// line, the write line and the address it is fed.
pub proof fn lemma_select(a: nat)
    ensures
        combinational(select(a), 2 + a, 2 * pow2(a)),
        forall|limit: nat|
            4 * pow2(a) <= limit && 2 * a <= limit && a * pow2(a) <= limit && 2 + a <= limit
                ==> select(a).bounded(limit),
        forall|z: Seq<bool>|
            z.len() == 2 + a ==> #[trigger] select(a).eval(z) == enables(
                pow2(a),
                z[0],
                z[1],
                value_of(z.skip(2)),
            ),
{
    let rows = pow2(a);
    lemma_pow2_pos(a);
    lemma_decoder(a);
    lemma_buffers_and_inverters(2);
    lemma_enable_pairs(rows, false, false, 0);
    let keep = bitwise(2, Circuit::Buffer);
    let front = pair(keep, decoder_circuit(a));
    let fan = wire(2 + rows, enable_table(rows));
    let cell = Circuit::And { inputs: 2 };
    let gates = row(2 * rows, 2, 1, cell);
    let paired = serial(front, fan);
    assert(combinational(cell, 2, 1));
    lemma_row(2 * rows, 2, 1, cell);
    assert((2 * rows) * 2 == 4 * rows && (2 * rows) * 1 == 2 * rows) by (nonlinear_arith);
    lemma_pair(keep, decoder_circuit(a), 2, 2, a, rows);
    assert(combinational(fan, 2 + rows, 4 * rows));
    lemma_serial(front, fan, 2 + a, 2 + rows, 4 * rows);
    lemma_serial(paired, gates, 2 + a, 4 * rows, 2 * rows);
    assert forall|limit: nat|
        4 * rows <= limit && 2 * a <= limit && a * rows <= limit && 2 + a <= limit implies select(
        a,
    ).bounded(limit) by {
        assert(keep.bounded(limit));
        assert(decoder_circuit(a).bounded(limit));
        assert(front.bounded(limit));
        assert(fan.bounded(limit));
        assert(cell.bounded(limit));
        assert(gates.bounded(limit));
        assert(paired.bounded(limit));
    }
    assert forall|z: Seq<bool>| z.len() == 2 + a implies #[trigger] select(a).eval(z) == enables(
        rows,
        z[0],
        z[1],
        value_of(z.skip(2)),
    ) by {
        let at = value_of(z.skip(2));
        assert(z.take(2) =~= seq![z[0], z[1]]);
        let u = front.eval(z);
        assert(u == seq![z[0], z[1]] + one_hot(rows, at));
        lemma_enable_pairs(rows, z[0], z[1], at);
    }
}

/// The table that hands every row its two enables and the data.
pub open spec fn spread_table(rows: nat, b: nat) -> Seq<int> {
    let width = b as int + 2;
    Seq::new(
        (b + 2) * rows,
        |i: int|
            if i % width < 2 {
                2 * (i / width) + i % width
            } else {
                2 * rows + i % width - 2
            },
    )
}

/// What one row is fed: its read enable, its write enable, and the data.
pub open spec fn command(read: bool, write: bool, data: Seq<bool>) -> Seq<bool> {
    seq![read, write] + data
}

/// Spreading the enables and the data over the rows hands row `k` its own
/// two enables and the data.
pub proof fn lemma_spread(
    rows: nat,
    b: nat,
    read: bool,
    write: bool,
    at: nat,
    data: Seq<bool>,
    k: int,
)
    requires
        data.len() == b,
        0 <= k < rows,
    ensures
        route(spread_table(rows, b), enables(rows, read, write, at) + data).len() == rows * (b
            + 2),
        chunk(route(spread_table(rows, b), enables(rows, read, write, at) + data), k, b + 2)
            == command(read && k == at, write && k == at, data),
{
    let width = b as int + 2;
    let table = spread_table(rows, b);
    let y1 = enables(rows, read, write, at) + data;
    let y2 = route(table, y1);
    assert((b + 2) * rows == rows * (b + 2)) by (nonlinear_arith);
    lemma_chunk_bounds(k, rows as int, (b + 2) as nat);
    let fed = chunk(y2, k, (b + 2) as nat);
    let want = command(read && k == at, write && k == at, data);
    assert forall|p: int| 0 <= p < width implies fed[p] == want[p] by {
        let q = k * width + p;
        assert(q == width * k + p) by (nonlinear_arith)
            requires
                q == k * width + p,
        ;
        lemma_fundamental_div_mod_converse(q, width, k, p);
        assert(fed[p] == y2[q]);
        assert(y2[q] == y1[table[q]]);
        if p < 2 {
            assert(table[q] == 2 * k + p);
            assert((2 * k + p) / 2 == k);
        } else {
            assert(table[q] == 2 * rows + p - 2);
        }
    }
    assert(fed =~= want);
}

/// The spreading wiring is well-formed.
pub proof fn lemma_spread_wf(rows: nat, b: nat)
    ensures
        combinational(
            wire(2 * rows + b, spread_table(rows, b)),
            2 * rows + b,
            (b + 2) * rows,
        ),
{
    let width = b as int + 2;
    let table = spread_table(rows, b);
    assert forall|q: int| 0 <= q < table.len() implies 0 <= #[trigger] table[q] < 2 * rows + b by {
        lemma_fundamental_div_mod(q, width);
        let k = q / width;
        let p = q % width;
        assert(0 <= k < rows) by (nonlinear_arith)
            requires
                q == width * k + p,
                0 <= p < width,
                0 <= q < (b + 2) * rows,
                width == b + 2,
        ;
    }
}

/// The rows of a memory whose latch lines stand at `lines`.
pub open spec fn byte_row(lines: Seq<Seq<(bool, bool)>>) -> Seq<Circuit> {
    Seq::new(lines.len(), |k: int| memory_byte_circuit(lines[k]))
}

/// The storing part of a memory of `b`-bit words: its rows side by side.
pub open spec fn bytes(lines: Seq<Seq<(bool, bool)>>, b: nat) -> Circuit {
    Circuit::Parallel { inputs: b + 2, outputs: b, cells: byte_row(lines) }
}

/// Every row holds `b` cells.
pub open spec fn rows_of(lines: Seq<Seq<(bool, bool)>>, b: nat) -> bool {
    forall|k: int| 0 <= k < lines.len() ==> (#[trigger] lines[k]).len() == b
}

/// The lines of a memory after a step: a write puts the data on the
/// addressed row, and every other row stays as it was.
pub open spec fn stored(
    lines: Seq<Seq<(bool, bool)>>,
    write: bool,
    at: nat,
    data: Seq<bool>,
) -> Seq<Seq<(bool, bool)>> {
    Seq::new(lines.len(), |k: int| written_word(lines[k], write && k == at, data))
}

/// What the rows of a memory put out: the word of the addressed row if the
/// read line is set, and zeros everywhere else.
pub open spec fn shown(lines: Seq<Seq<(bool, bool)>>, b: nat, read: bool, at: nat) -> Seq<bool> {
    Seq::new(
        lines.len() * b,
        |q: int| read && q / b as int == at && word(lines[q / b as int])[q % b as int],
    )
}

/// The rows of a memory, each fed its own command, step each on its own:
/// the addressed row stores the data if the write line is set, and shows
/// its word if the read line is set.
pub proof fn lemma_bytes(
    lines: Seq<Seq<(bool, bool)>>,
    b: nat,
    y: Seq<bool>,
    read: bool,
    write: bool,
    at: nat,
    data: Seq<bool>,
)
    requires
        rows_of(lines, b),
        data.len() == b,
        y.len() == lines.len() * (b + 2),
        forall|k: int|
            0 <= k < lines.len() ==> #[trigger] chunk(y, k, b + 2) == command(
                read && k == at,
                write && k == at,
                data,
            ),
    ensures
        shaped(bytes(lines, b), lines.len() * (b + 2), lines.len() * b),
        rows_of(stored(lines, write, at, data), b),
        bytes(lines, b).step(y) == (
            bytes(stored(lines, write, at, data), b),
            shown(stored(lines, write, at, data), b, read, at),
        ),
{
    let rows = lines.len();
    let cells = byte_row(lines);
    let all = bytes(lines, b);
    let lines2 = stored(lines, write, at, data);
    assert forall|k: int| 0 <= k < cells.len() implies (#[trigger] cells[k]).wf()
        && cells[k].input_width() == b + 2 && cells[k].output_width() == b by {
        lemma_memory_byte(lines[k]);
    }
    lemma_parallel_shape(b + 2, b, cells);
    lemma_parallel_step(b + 2, b, cells, y);
    let after = all.next(y)->Parallel_cells;
    let out = all.output(y);
    assert forall|k: int| 0 <= k < rows implies after[k] == byte_row(lines2)[k] by {
        let fed = chunk(y, k, b + 2);
        assert(fed == command(read && k == at, write && k == at, data));
        assert(fed.skip(2) =~= data);
        lemma_memory_byte(lines[k]);
        assert(fed.len() == lines[k].len() + 2);
    }
    assert(after =~= byte_row(lines2));
    crate::laws::lemma_step_shape(all, y, 0);
    assert forall|q: int| 0 <= q < rows * b implies out[q] == shown(lines2, b, read, at)[q] by {
        let k = q / b as int;
        let i = q % b as int;
        lemma_fundamental_div_mod(q, b as int);
        assert(0 <= k < rows) by (nonlinear_arith)
            requires
                q == b * k + i,
                0 <= i < b,
                0 <= q < rows * b,
        ;
        assert(k * b + i == q) by (nonlinear_arith)
            requires
                q == b * k + i,
        ;
        lemma_parallel_step_bit(b + 2, b, cells, y, k, i);
        let fed = chunk(y, k, b + 2);
        assert(fed == command(read && k == at, write && k == at, data));
        assert(fed.skip(2) =~= data);
        lemma_memory_byte(lines[k]);
        assert(fed.len() == lines[k].len() + 2);
        assert(cells[k].output(fed) == gated(fed[0], word(written_word(lines[k], fed[1], data))));
    }
    assert(out =~= shown(lines2, b, read, at));
}

/// The collecting part of a memory: the outputs of all rows are regrouped
/// bit by bit, and each group is OR-reduced.
pub open spec fn collect(rows: nat, b: nat) -> Circuit {
    serial(
        wire(b * rows, unzip_table(b * rows, b)),
        row(b, rows, 1, Circuit::Or { inputs: rows }),
    )
}

/// The collecting part is combinational, of shape `rows * b → b`.
pub proof fn lemma_collect_shape(rows: nat, b: nat)
    requires
        b > 0,
    ensures
        combinational(collect(rows, b), rows * b, b),
        forall|limit: nat| rows * b <= limit && b <= limit ==> collect(rows, b).bounded(limit),
        (b * rows) as int / b as int == rows,
        (b * rows) % b == 0,
{
    let n = b * rows;
    let regroup = wire(n, unzip_table(n, b));
    let cell = Circuit::Or { inputs: rows };
    let gates = row(b, rows, 1, cell);
    assert(b * rows == rows * b && b * 1 == b) by (nonlinear_arith);
    lemma_fundamental_div_mod_converse(n as int, b as int, rows as int, 0);
    assert(n / b == rows);
    assert forall|p: int| 0 <= p < n implies 0 <= #[trigger] unzip_table(n, b)[p] < n by {
        lemma_zip_unzip_inverse(n, b, p);
    }
    assert(combinational(regroup, n, n));
    assert(combinational(cell, rows, 1));
    lemma_row(b, rows, 1, cell);
    lemma_serial(regroup, gates, n, n, b);
    assert forall|limit: nat| rows * b <= limit && b <= limit implies collect(rows, b).bounded(
        limit,
    ) by {
        assert(rows <= rows * b) by (nonlinear_arith)
            requires
                b > 0,
        ;
        assert(regroup.bounded(limit));
        assert(cell.bounded(limit));
        assert(gates.bounded(limit));
    }
}

/// Collecting what the rows show gives the word of the addressed row if
/// the read line is set, and zeros otherwise.
pub proof fn lemma_collect(lines: Seq<Seq<(bool, bool)>>, b: nat, read: bool, at: nat)
    requires
        b > 0,
        rows_of(lines, b),
        at < lines.len(),
    ensures
        collect(lines.len(), b).eval(shown(lines, b, read, at)) == gated(read, word(lines[at as int])),
{
    let rows = lines.len();
    let n = b * rows;
    lemma_collect_shape(rows, b);
    assert(b * rows == rows * b) by (nonlinear_arith);
    let y3 = shown(lines, b, read, at);
    let table = unzip_table(n, b);
    let y4 = route(table, y3);
    let cell = Circuit::Or { inputs: rows };
    let out = row(b, rows, 1, cell).eval(y4);
    assert(combinational(cell, rows, 1));
    lemma_row(b, rows, 1, cell);
    assert(b * 1 == b) by (nonlinear_arith);
    let want = gated(read, word(lines[at as int]));
    assert forall|i: int| 0 <= i < b implies out[i] == want[i] by {
        lemma_row_bit(b, rows, 1, cell, y4, i, 0);
        assert(i * 1 + 0 == i) by (nonlinear_arith);
        let fed = chunk(y4, i, rows);
        lemma_chunk_bounds(i, b as int, rows);
        assert forall|k: int| 0 <= k < rows implies fed[k] == (read && k == at && word(
            lines[k],
        )[i]) by {
            assert(n / b == rows);
            lemma_unzip_entry(n, b, i, k);
            let q = k * b + i;
            assert(0 <= q < rows * b) by (nonlinear_arith)
                requires
                    q == k * b + i,
                    0 <= k < rows,
                    0 <= i < b,
            ;
            assert(table[i * rows + k] == q);
            assert(fed[k] == y4[i * rows + k]);
            assert(y4[i * rows + k] == y3[q]);
            lemma_fundamental_div_mod_converse(q, b as int, k, i);
        }
        if read && word(lines[at as int])[i] {
            assert(fed[at as int]);
        }
        assert(any_true(fed) == (read && word(lines[at as int])[i]));
    }
    assert(out =~= want);
    let regroup = wire(n, table);
    assert(regroup.eval(y3) == y4);
    assert(collect(rows, b).eval(y3) == out);
}

/// The part of the memory in front of its rows: the enables of every row,
/// and the data passed on.
pub open spec fn front(a: nat, b: nat) -> Circuit {
    pair(select(a), bitwise(b, Circuit::Buffer))
}

/// The model of a memory of `2^a` words of `b` bits whose latch lines stand
/// at `lines`.
pub open spec fn memory_circuit(a: nat, b: nat, lines: Seq<Seq<(bool, bool)>>) -> Circuit {
    serial(
        serial(
            serial(front(a, b), wire(2 * pow2(a) + b, spread_table(pow2(a), b))),
            bytes(lines, b),
        ),
        collect(pow2(a), b),
    )
}

/// The address that an input of the memory holds.
pub open spec fn address_of(x: Seq<bool>, a: nat) -> nat {
    value_of(span(x, 2, a))
}

/// The data that an input of the memory holds.
pub open spec fn data_of(x: Seq<bool>, a: nat, b: nat) -> Seq<bool> {
    span(x, 2 + a, b)
}

/// Every width that occurs in a memory of `2^a` words of `b` bits is at
/// most `limit`.
pub open spec fn memory_fits(a: nat, b: nat, limit: nat) -> bool {
    &&& 4 * pow2(a) <= limit
    &&& a * pow2(a) <= limit
    &&& 2 * a <= limit
    &&& (b + 2) * pow2(a) <= limit
    &&& 3 * b <= limit
    &&& a + b + 2 <= limit
    &&& 4 <= limit
}

/// What is fed to the rows of a memory, for a given input.
pub open spec fn prepared(a: nat, b: nat, x: Seq<bool>) -> Seq<bool> {
    route(
        spread_table(pow2(a), b),
        enables(pow2(a), x[0], x[1], address_of(x, a)) + data_of(x, a, b),
    )
}

/// The part of the memory in front of its rows is a combinational block of
/// shape `a + b + 2 → 2^a * (b + 2)` that hands every row its command.
pub proof fn lemma_prepare(a: nat, b: nat)
    ensures
        combinational(
            serial(front(a, b), wire(2 * pow2(a) + b, spread_table(pow2(a), b))),
            a + b + 2,
            pow2(a) * (b + 2),
        ),
        forall|limit: nat|
            memory_fits(a, b, limit) ==> serial(
                front(a, b),
                wire(2 * pow2(a) + b, spread_table(pow2(a), b)),
            ).bounded(limit),
        forall|x: Seq<bool>|
            x.len() == a + b + 2 ==> #[trigger] serial(
                front(a, b),
                wire(2 * pow2(a) + b, spread_table(pow2(a), b)),
            ).eval(x) == prepared(a, b, x),
{
    let rows = pow2(a);
    lemma_pow2_pos(a);
    lemma_select(a);
    lemma_buffers_and_inverters(b);
    lemma_spread_wf(rows, b);
    let keep = bitwise(b, Circuit::Buffer);
    let spread = wire(2 * rows + b, spread_table(rows, b));
    assert((b + 2) * rows == rows * (b + 2)) by (nonlinear_arith);
    lemma_pair(select(a), keep, 2 + a, 2 * rows, b, b);
    lemma_serial(front(a, b), spread, a + b + 2, 2 * rows + b, rows * (b + 2));
    assert forall|limit: nat| memory_fits(a, b, limit) implies serial(front(a, b), spread).bounded(
        limit,
    ) by {
        assert(2 * rows + b <= (b + 2) * rows) by (nonlinear_arith)
            requires
                rows >= 1,
        ;
        assert(select(a).bounded(limit));
        assert(keep.bounded(limit));
        assert(front(a, b).bounded(limit));
        assert(spread.bounded(limit));
    }
    assert forall|x: Seq<bool>| x.len() == a + b + 2 implies #[trigger] serial(
        front(a, b),
        spread,
    ).eval(x) == prepared(a, b, x) by {
        let head = x.take((2 + a) as int);
        let data = x.skip((2 + a) as int);
        assert(data =~= data_of(x, a, b));
        assert(head.skip(2) =~= span(x, 2, a));
        assert(select(a).eval(head) == enables(rows, head[0], head[1], value_of(head.skip(2))));
        assert(keep.eval(data) == data);
    }
}

/// A step of the memory on `x` stores the data in the addressed row if the
/// write line is set, and returns the word of the addressed row, as it
/// stands after that, if the read line is set, and zeros otherwise.
pub open spec fn steps_as_memory(a: nat, b: nat, lines: Seq<Seq<(bool, bool)>>, x: Seq<bool>) -> bool {
    let at = address_of(x, a);
    let after = stored(lines, x[1], at, data_of(x, a, b));
    &&& at < pow2(a)
    &&& memory_circuit(a, b, lines).step(x) == (
        memory_circuit(a, b, after),
        gated(x[0], word(after[at as int])),
    )
}

/// A memory is well-formed, of shape `a + b + 2 → b`. A step on
/// `(read, write, address, data)` stores `data` in the addressed row if
/// `write` is set, and returns the word of the addressed row, as it stands
/// after that, if `read` is set, and zeros otherwise.
pub proof fn lemma_memory(a: nat, b: nat, lines: Seq<Seq<(bool, bool)>>)
    requires
        b > 0,
        lines.len() == pow2(a),
        rows_of(lines, b),
    ensures
        shaped(memory_circuit(a, b, lines), a + b + 2, b),
        forall|limit: nat| memory_fits(a, b, limit) ==> memory_circuit(a, b, lines).bounded(limit),
        forall|x: Seq<bool>|
            x.len() == a + b + 2 ==> #[trigger] steps_as_memory(a, b, lines, x),
{
    let rows = pow2(a);
    lemma_prepare(a, b);
    lemma_collect_shape(rows, b);
    let prepare = serial(front(a, b), wire(2 * rows + b, spread_table(rows, b)));
    let store = bytes(lines, b);
    let holding = serial(prepare, store);
    let gather = collect(rows, b);
    // the shape of the rows does not depend on what they are fed
    let idle = Seq::new(rows * (b + 2), |q: int| false);
    assert forall|k: int| 0 <= k < rows implies #[trigger] chunk(idle, k, b + 2) == command(
        false && k == 0,
        false && k == 0,
        Seq::new(b, |i: int| false),
    ) by {
        lemma_chunk_bounds(k, rows as int, b + 2);
        assert(chunk(idle, k, b + 2) =~= command(false, false, Seq::new(b, |i: int| false)));
    }
    lemma_bytes(lines, b, idle, false, false, 0, Seq::new(b, |i: int| false));
    lemma_serial_step(prepare, store, a + b + 2, rows * (b + 2), rows * b);
    lemma_serial_step(holding, gather, a + b + 2, rows * b, b);
    lemma_pow2_pos(a);
    assert forall|limit: nat| memory_fits(a, b, limit) implies memory_circuit(a, b, lines).bounded(
        limit,
    ) by {
        let cells = byte_row(lines);
        assert forall|k: int| 0 <= k < cells.len() implies (#[trigger] cells[k]).bounded(limit) by {
            lemma_memory_byte(lines[k]);
        }
        assert(rows * (b + 2) == (b + 2) * rows && rows * b <= rows * (b + 2)) by (nonlinear_arith);
        assert(b <= rows * b) by (nonlinear_arith)
            requires
                rows >= 1,
        ;
        lemma_pow2_pos(a);
        assert(store.bounded(limit));
        assert(prepare.bounded(limit));
        assert(holding.bounded(limit));
        assert(gather.bounded(limit));
    }
    assert forall|x: Seq<bool>| x.len() == a + b + 2 implies #[trigger] steps_as_memory(
        a,
        b,
        lines,
        x,
    ) by {
        let at = address_of(x, a);
        let data = data_of(x, a, b);
        lemma_value_of_bound(span(x, 2, a));
        lemma_combinational_step(prepare, a + b + 2, rows * (b + 2), x);
        let y = prepared(a, b, x);
        assert(prepare.eval(x) == y);
        assert forall|k: int| 0 <= k < rows implies #[trigger] chunk(y, k, b + 2) == command(
            x[0] && k == at,
            x[1] && k == at,
            data,
        ) by {
            lemma_spread(rows, b, x[0], x[1], at, data, k);
        }
        lemma_bytes(lines, b, y, x[0], x[1], at, data);
        let lines2 = stored(lines, x[1], at, data);
        let seen = shown(lines2, b, x[0], at);
        assert(holding.step(x) == (serial(prepare, bytes(lines2, b)), seen));
        lemma_combinational_step(gather, rows * b, b, seen);
        lemma_collect(lines2, b, x[0], at);
        assert(memory_circuit(a, b, lines).step(x) == (
            serial(serial(prepare, bytes(lines2, b)), gather),
            gather.eval(seen),
        ));
    }
}

/// The latch lines of a memory of `2^a` words of `b` bits in which nothing
/// was ever written.
pub open spec fn blank_rows(a: nat, b: nat) -> Seq<Seq<(bool, bool)>> {
    Seq::new(pow2(a), |k: int| blank(b))
}

/// The block that the first `t` of the operations `ops` leave behind,
/// starting from `c`.
pub open spec fn after(c: Circuit, ops: Seq<Seq<bool>>, t: nat) -> Circuit
    decreases t,
{
    if t == 0 {
        c
    } else {
        after(c, ops, (t - 1) as nat).next(ops[t - 1])
    }
}

/// What operation `t` of `ops` returns, the operations before it having
/// been carried out on `c`.
pub open spec fn answer(c: Circuit, ops: Seq<Seq<bool>>, t: nat) -> Seq<bool> {
    after(c, ops, t).output(ops[t as int])
}

/// The latch lines of a fresh memory after the first `t` operations.
pub open spec fn lines_after(a: nat, b: nat, ops: Seq<Seq<bool>>, t: nat) -> Seq<Seq<(bool, bool)>>
    decreases t,
{
    if t == 0 {
        blank_rows(a, b)
    } else {
        let x = ops[t - 1];
        stored(lines_after(a, b, ops, (t - 1) as nat), x[1], address_of(x, a), data_of(x, a, b))
    }
}

/// The operation `x` writes to address `k`.
pub open spec fn writes_to(x: Seq<bool>, a: nat, k: nat) -> bool {
    x[1] && address_of(x, a) == k
}

/// The operation `x` reads address `k`.
pub open spec fn reads_from(x: Seq<bool>, a: nat, k: nat) -> bool {
    x[0] && address_of(x, a) == k
}

/// Every operation is an input of the memory.
pub open spec fn operations(ops: Seq<Seq<bool>>, a: nat, b: nat) -> bool {
    forall|j: int| 0 <= j < ops.len() ==> (#[trigger] ops[j]).len() == a + b + 2
}

/// However a fresh memory is operated, it stays a memory: after `t`
/// operations it is the memory whose lines `lines_after` gives, and
/// operation `t` returns the word at its address, as it stands after the
/// operation, if its read line is set.
pub proof fn lemma_memory_trace(a: nat, b: nat, ops: Seq<Seq<bool>>, t: nat)
    requires
        b > 0,
        operations(ops, a, b),
        t <= ops.len(),
    ensures
        lines_after(a, b, ops, t).len() == pow2(a),
        rows_of(lines_after(a, b, ops, t), b),
        after(memory_circuit(a, b, blank_rows(a, b)), ops, t) == memory_circuit(
            a,
            b,
            lines_after(a, b, ops, t),
        ),
        t < ops.len() ==> address_of(ops[t as int], a) < pow2(a) && answer(
            memory_circuit(a, b, blank_rows(a, b)),
            ops,
            t,
        ) == gated(
            ops[t as int][0],
            word(lines_after(a, b, ops, t + 1)[address_of(ops[t as int], a) as int]),
        ),
    decreases t,
{
    let fresh = memory_circuit(a, b, blank_rows(a, b));
    let lines = lines_after(a, b, ops, t);
    if t > 0 {
        let j = (t - 1) as nat;
        lemma_memory_trace(a, b, ops, j);
        let before = lines_after(a, b, ops, j);
        let x = ops[j as int];
        lemma_memory(a, b, before);
        assert(steps_as_memory(a, b, before, x));
        assert(lines == stored(before, x[1], address_of(x, a), data_of(x, a, b)));
        assert(after(fresh, ops, t) == after(fresh, ops, j).next(x));
        assert forall|k: int| 0 <= k < lines.len() implies (#[trigger] lines[k]).len() == b by {
            assert(before[k].len() == b);
        }
    } else {
        assert forall|k: int| 0 <= k < lines.len() implies (#[trigger] lines[k]).len() == b by {
        }
    }
    lemma_memory(a, b, lines);
    if t < ops.len() {
        let x = ops[t as int];
        assert(steps_as_memory(a, b, lines, x));
        assert(lines_after(a, b, ops, t + 1) == stored(
            lines,
            x[1],
            address_of(x, a),
            data_of(x, a, b),
        ));
    }
}

/// RAM memory law, read after write: if operation `i` writes `v` to address
/// `k`, operation `t` after it reads `k` without writing, and no operation
/// between the two writes to `k`, then operation `t` returns `v`.
pub proof fn lemma_read_after_write(
    a: nat,
    b: nat,
    ops: Seq<Seq<bool>>,
    i: nat,
    t: nat,
    k: nat,
    v: Seq<bool>,
)
    requires
        b > 0,
        operations(ops, a, b),
        i < t < ops.len(),
        writes_to(ops[i as int], a, k),
        data_of(ops[i as int], a, b) == v,
        forall|j: int| i < j <= t ==> !writes_to(#[trigger] ops[j], a, k),
        reads_from(ops[t as int], a, k),
    ensures
        answer(memory_circuit(a, b, blank_rows(a, b)), ops, t) == v,
{
    lemma_memory_trace(a, b, ops, t);
    lemma_kept(a, b, ops, i, (t + 1) as nat, k, v);
    assert(gated(true, v) =~= v);
}

/// A word that was written stays until it is written again.
pub proof fn lemma_kept(a: nat, b: nat, ops: Seq<Seq<bool>>, i: nat, t: nat, k: nat, v: Seq<bool>)
    requires
        b > 0,
        operations(ops, a, b),
        i < t <= ops.len(),
        writes_to(ops[i as int], a, k),
        data_of(ops[i as int], a, b) == v,
        forall|j: int| i < j < t ==> !writes_to(#[trigger] ops[j], a, k),
    ensures
        k < pow2(a),
        word(lines_after(a, b, ops, t)[k as int]) == v,
    decreases t,
{
    let j = (t - 1) as nat;
    lemma_memory_trace(a, b, ops, j);
    let before = lines_after(a, b, ops, j);
    let x = ops[j as int];
    if j == i {
        assert(word(written_word(before[k as int], true, v)) =~= v);
    } else {
        lemma_kept(a, b, ops, i, j, k, v);
        assert(!writes_to(x, a, k));
        assert(written_word(before[k as int], false, data_of(x, a, b)) =~= before[k as int]);
    }
}

/// RAM memory law, never written: if no operation up to and including
/// operation `t` writes to address `k`, and operation `t` reads `k`, then
/// operation `t` returns zero.
pub proof fn lemma_read_never_written(a: nat, b: nat, ops: Seq<Seq<bool>>, t: nat, k: nat)
    requires
        b > 0,
        operations(ops, a, b),
        t < ops.len(),
        forall|j: int| 0 <= j <= t ==> !writes_to(#[trigger] ops[j], a, k),
        reads_from(ops[t as int], a, k),
    ensures
        answer(memory_circuit(a, b, blank_rows(a, b)), ops, t) == Seq::new(b, |i: int| false),
{
    lemma_memory_trace(a, b, ops, t);
    lemma_untouched(a, b, ops, (t + 1) as nat, k);
    assert(gated(true, word(blank(b))) =~= Seq::new(b, |i: int| false));
}

/// A row that was never written holds what it held at first.
pub proof fn lemma_untouched(a: nat, b: nat, ops: Seq<Seq<bool>>, t: nat, k: nat)
    requires
        b > 0,
        operations(ops, a, b),
        t <= ops.len(),
        k < pow2(a),
        forall|j: int| 0 <= j < t ==> !writes_to(#[trigger] ops[j], a, k),
    ensures
        lines_after(a, b, ops, t)[k as int] == blank(b),
    decreases t,
{
    if t > 0 {
        let j = (t - 1) as nat;
        lemma_untouched(a, b, ops, j, k);
        lemma_memory_trace(a, b, ops, j);
        let before = lines_after(a, b, ops, j);
        let x = ops[j as int];
        assert(!writes_to(x, a, k));
        assert(written_word(before[k as int], false, data_of(x, a, b)) =~= before[k as int]);
    }
}

} // verus!
