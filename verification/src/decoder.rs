//! The address decoder: a number in, one line out of `2^n` raised.
use crate::basic_comp::{And, Branch, Buffer, Not};
use crate::blocks::{
    makes, Block, Component, ConcatBlocks, ConcatDifferentShapeBlocks, MergeLayers,
};
use crate::circuit::{all_true, chunk, route, Circuit};
use crate::laws::{
    bitwise, combinational, complement, copies, lemma_buffers_and_inverters, lemma_chunk_bounds,
    lemma_pair, lemma_row, lemma_row_bit, lemma_serial, pair, row, serial,
};
use crate::num_bit_converter::{bit_at, bits_of, lemma_bits_of_value, lemma_value_of_bits, value_of};
use crate::wiring::{indices, unzip_table, wire, Wiring};
use vstd::arithmetic::div_mod::{lemma_fundamental_div_mod, lemma_fundamental_div_mod_converse};
use vstd::arithmetic::power2::{lemma_pow2_pos, pow2};
use vstd::prelude::*;

verus! {

/// Every wire of a bus of `n` fanned out to two.
pub open spec fn fan_out(n: nat) -> Circuit {
    row(n, 1, 2, Circuit::Branch { outputs: 2 })
}

/// Fanning out every wire to two is combinational, of shape `n → 2n`, and
/// returns each input twice in a row.
pub proof fn lemma_fan_out(n: nat)
    ensures
        combinational(fan_out(n), n, 2 * n),
        forall|limit: nat| 2 * n <= limit && 2 <= limit ==> fan_out(n).bounded(limit),
        forall|x: Seq<bool>|
            x.len() == n ==> (#[trigger] fan_out(n).eval(x)).len() == 2 * n && forall|q: int|
                0 <= q < 2 * n ==> fan_out(n).eval(x)[q] == x[q / 2],
{
    let cell = Circuit::Branch { outputs: 2 };
    assert(combinational(cell, 1, 2));
    lemma_row(n, 1, 2, cell);
    assert(n * 1 == n && n * 2 == 2 * n) by (nonlinear_arith);
    assert forall|limit: nat| 2 * n <= limit && 2 <= limit implies fan_out(n).bounded(limit) by {
        assert(cell.bounded(limit));
    }
    assert forall|x: Seq<bool>| x.len() == n implies (#[trigger] fan_out(n).eval(x)).len() == 2 * n
        && forall|q: int| 0 <= q < 2 * n ==> fan_out(n).eval(x)[q] == x[q / 2] by {
        assert forall|q: int| 0 <= q < 2 * n implies fan_out(n).eval(x)[q] == x[q / 2] by {
            let i = q / 2;
            let r = q % 2;
            lemma_row_bit(n, 1, 2, cell, x, i, r);
            assert(i * 2 + r == q) by (nonlinear_arith)
                requires
                    i == q / 2,
                    r == q % 2,
            ;
            assert(chunk(x, i, 1) =~= seq![x[i]]);
        }
    }
}

/// The two rails of the decoder: every input negated, then every input as
/// it is.
pub open spec fn rails(n: nat) -> Circuit {
    serial(
        serial(fan_out(n), wire(2 * n, unzip_table(2 * n, 2))),
        pair(bitwise(n, Circuit::Not), bitwise(n, Circuit::Buffer)),
    )
}

/// Separating the two copies of a fanned-out bus gives the bus twice over.
pub proof fn lemma_separate_copies(n: nat, x: Seq<bool>, doubled: Seq<bool>)
    requires
        x.len() == n,
        doubled.len() == 2 * n,
        forall|q: int| 0 <= q < 2 * n ==> doubled[q] == x[q / 2],
    ensures
        wire(2 * n, unzip_table(2 * n, 2)).wf(),
        route(unzip_table(2 * n, 2), doubled) == x + x,
{
    let table = unzip_table(2 * n, 2);
    assert((2 * n) as int / 2 == n);
    assert forall|p: int| 0 <= p < 2 * n implies 0 <= #[trigger] table[p] < 2 * n && doubled[table[p]]
        == (x + x)[p] by {
        if p < n {
            vstd::arithmetic::div_mod::lemma_small_mod(p as nat, n);
            vstd::arithmetic::div_mod::lemma_basic_div(p, n as int);
        } else {
            lemma_fundamental_div_mod_converse(p, n as int, 1, p - n);
        }
    }
    assert(route(table, doubled) =~= x + x);
}

/// The rails are a combinational block of shape `n → 2n` that returns the
/// complement of the input and then the input.
pub proof fn lemma_rails(n: nat)
    ensures
        combinational(rails(n), n, 2 * n),
        forall|limit: nat| 2 * n <= limit && 2 <= limit ==> rails(n).bounded(limit),
        forall|x: Seq<bool>| x.len() == n ==> #[trigger] rails(n).eval(x) == complement(x) + x,
{
    lemma_fan_out(n);
    lemma_buffers_and_inverters(n);
    let fan = fan_out(n);
    let split = wire(2 * n, unzip_table(2 * n, 2));
    let flip = bitwise(n, Circuit::Not);
    let keep = bitwise(n, Circuit::Buffer);
    let both = pair(flip, keep);
    let front = serial(fan, split);
    lemma_separate_copies(n, Seq::new(n, |i: int| false), Seq::new(2 * n, |q: int| false));
    assert(combinational(split, 2 * n, 2 * n));
    lemma_serial(fan, split, n, 2 * n, 2 * n);
    lemma_pair(flip, keep, n, n, n, n);
    lemma_serial(front, both, n, 2 * n, 2 * n);
    assert forall|limit: nat| 2 * n <= limit && 2 <= limit implies rails(n).bounded(limit) by {
        assert(split.bounded(limit));
        assert(front.bounded(limit));
        assert(keep.bounded(limit));
        assert(flip.bounded(limit));
        assert(both.bounded(limit));
    }
    assert forall|x: Seq<bool>| x.len() == n implies #[trigger] rails(n).eval(x) == complement(x)
        + x by {
        let doubled = fan.eval(x);
        lemma_separate_copies(n, x, doubled);
        let twice = split.eval(doubled);
        assert(twice == x + x);
        assert(twice.take(n as int) =~= x);
        assert(twice.skip(n as int) =~= x);
    }
}

/// The table that picks, for every line `i` of the decoder and every bit
/// `j`, the rail that line `i` needs of bit `j`: the plain rail where bit
/// `j` of `i` is set, the negated rail where it is not.
pub open spec fn select_table(n: nat) -> Seq<int> {
    Seq::new(
        n * pow2(n),
        |q: int|
            n * (if bit_at((q / n as int) as nat, (q % n as int) as nat) {
                1int
            } else {
                0int
            }) + q % n as int,
    )
}

/// What line `i` of the decoder is fed: for every bit `j`, whether the
/// input agrees with `i` in bit `j`.
pub proof fn lemma_select(n: nat, x: Seq<bool>, i: int, j: int)
    requires
        x.len() == n,
        0 <= i < pow2(n),
        0 <= j < n,
    ensures
        0 <= i * n + j < n * pow2(n),
        0 <= select_table(n)[i * n + j] < 2 * n,
        route(select_table(n), complement(x) + x)[i * n + j] == (x[j] == bit_at(i as nat, j as nat)),
{
    let q = i * n + j;
    lemma_chunk_bounds(i, pow2(n) as int, n);
    assert(pow2(n) * n == n * pow2(n)) by (nonlinear_arith);
    lemma_fundamental_div_mod_converse(q, n as int, i, j);
    let set = bit_at(i as nat, j as nat);
    let rail = if set {
        1int
    } else {
        0int
    };
    assert(n * rail == if set {
        n as int
    } else {
        0
    }) by (nonlinear_arith)
        requires
            rail == 0 && !set || rail == 1 && set,
    ;
}

/// Exactly the wire `at` of `width` wires raised.
pub open spec fn one_hot(width: nat, at: nat) -> Seq<bool> {
    Seq::new(width, |i: int| i == at)
}

/// The lines of the decoder: one AND gate of `n` inputs for each of the
/// `2^n` numbers.
pub open spec fn lines(n: nat) -> Circuit {
    row(pow2(n), n, 1, Circuit::And { inputs: n })
}

/// The model of the address decoder.
pub open spec fn decoder_circuit(n: nat) -> Circuit {
    serial(serial(rails(n), wire(2 * n, select_table(n))), lines(n))
}

/// A vector of `n` bits agrees with `i` in every bit exactly when it
/// spells `i`.
pub proof fn lemma_agrees(n: nat, x: Seq<bool>, i: nat)
    requires
        x.len() == n,
        i < pow2(n),
    ensures
        (forall|j: int| 0 <= j < n ==> x[j] == bit_at(i, j as nat)) <==> value_of(x) == i,
{
    if value_of(x) == i {
        lemma_bits_of_value(x);
        assert forall|j: int| 0 <= j < n implies x[j] == bit_at(i, j as nat) by {
            assert(bits_of(i, n)[j] == bit_at(i, j as nat));
        }
    }
    if forall|j: int| 0 <= j < n ==> x[j] == bit_at(i, j as nat) {
        assert(x =~= bits_of(i, n));
        lemma_value_of_bits(i, n);
        vstd::arithmetic::div_mod::lemma_small_mod(i, pow2(n));
    }
}

/// The lines of the decoder, fed what the selection lays out, raise
/// exactly the line whose number the input spells.
pub proof fn lemma_lines(n: nat, x: Seq<bool>)
    requires
        x.len() == n,
    ensures
        route(select_table(n), complement(x) + x).len() == pow2(n) * n,
        lines(n).eval(route(select_table(n), complement(x) + x)) == one_hot(pow2(n), value_of(x)),
{
    let cell = Circuit::And { inputs: n };
    let y = route(select_table(n), complement(x) + x);
    assert(pow2(n) * n == n * pow2(n)) by (nonlinear_arith);
    assert(pow2(n) * 1 == pow2(n)) by (nonlinear_arith);
    assert(combinational(cell, n, 1));
    lemma_row(pow2(n), n, 1, cell);
    let out = lines(n).eval(y);
    assert forall|i: int| 0 <= i < pow2(n) implies out[i] == (i == value_of(x)) by {
        lemma_row_bit(pow2(n), n, 1, cell, y, i, 0);
        assert(i * 1 + 0 == i) by (nonlinear_arith);
        let fed = chunk(y, i, n);
        lemma_chunk_bounds(i, pow2(n) as int, n);
        assert forall|j: int| 0 <= j < n implies fed[j] == (x[j] == bit_at(i as nat, j as nat)) by {
            lemma_select(n, x, i, j);
            assert(fed[j] == y[i * n + j]);
        }
        lemma_agrees(n, x, i as nat);
        assert(all_true(fed) == (value_of(x) == i));
    }
    assert(out =~= one_hot(pow2(n), value_of(x)));
}

/// The address decoder is a well-formed combinational block of shape
/// `n → 2^n` that raises exactly the line whose number its input spells.
pub proof fn lemma_decoder(n: nat)
    ensures
        combinational(decoder_circuit(n), n, pow2(n)),
        forall|limit: nat|
            2 <= limit && 2 * n <= limit && n * pow2(n) <= limit && pow2(n) <= limit
                ==> decoder_circuit(n).bounded(limit),
        forall|x: Seq<bool>|
            x.len() == n ==> #[trigger] decoder_circuit(n).eval(x) == one_hot(
                pow2(n),
                value_of(x),
            ),
{
    lemma_rails(n);
    let pick = wire(2 * n, select_table(n));
    let cell = Circuit::And { inputs: n };
    let front = serial(rails(n), pick);
    assert(pow2(n) * n == n * pow2(n)) by (nonlinear_arith);
    assert(pow2(n) * 1 == pow2(n)) by (nonlinear_arith);
    assert forall|q: int| 0 <= q < n * pow2(n) implies 0 <= #[trigger] select_table(n)[q] < 2
        * n by {
        lemma_fundamental_div_mod(q, n as int);
        let i = q / n as int;
        let j = q % n as int;
        assert(0 <= i < pow2(n)) by (nonlinear_arith)
            requires
                q == n * i + j,
                0 <= j < n,
                0 <= q < n * pow2(n),
        ;
        assert(i * n + j == q) by (nonlinear_arith)
            requires
                q == n * i + j,
        ;
        lemma_select(n, Seq::new(n, |k: int| false), i, j);
    }
    assert(combinational(pick, 2 * n, n * pow2(n)));
    assert(combinational(cell, n, 1));
    lemma_row(pow2(n), n, 1, cell);
    lemma_serial(rails(n), pick, n, 2 * n, n * pow2(n));
    lemma_serial(front, lines(n), n, n * pow2(n), pow2(n));
    assert forall|limit: nat|
        2 <= limit && 2 * n <= limit && n * pow2(n) <= limit && pow2(n) <= limit implies decoder_circuit(
        n,
    ).bounded(limit) by {
        lemma_pow2_pos(n);
        assert(n <= limit);
        assert(cell.bounded(limit));
        assert(pick.bounded(limit));
        assert(front.bounded(limit));
        assert(lines(n).bounded(limit));
    }
    assert forall|x: Seq<bool>| x.len() == n implies #[trigger] decoder_circuit(n).eval(x)
        == one_hot(pow2(n), value_of(x)) by {
        lemma_lines(n, x);
    }
}

/// Decoder one-hot: for every `m` below `2^n`, the decoder fed `m` raises
/// line `m` and no other.
pub proof fn lemma_decoder_one_hot(n: nat, m: nat)
    requires
        m < pow2(n),
    ensures
        decoder_circuit(n).eval(bits_of(m, n)) == one_hot(pow2(n), m),
{
    lemma_decoder(n);
    lemma_value_of_bits(m, n);
    vstd::arithmetic::div_mod::lemma_small_mod(m, pow2(n));
}

/// Decodes an `n`-bit number: of its `2^n` outputs, the one whose index
/// the input spells is true and all others are false.
pub struct BitDecoder {
    decoder: MergeLayers,
}

impl View for BitDecoder {
    type V = Circuit;

    closed spec fn view(&self) -> Circuit {
        self.decoder@
    }
}

impl BitDecoder {
    /// A decoder of `n`-bit numbers, least significant bit first.
    pub fn new(n: usize) -> (r: Self)
        requires
            2 * n <= usize::MAX,
            pow2(n as nat) <= usize::MAX,
            n * pow2(n as nat) <= usize::MAX,
        ensures
            r@ == decoder_circuit(n as nat),
            r@.realizable(),
            combinational(r@, n as nat, pow2(n as nat)),
            forall|x: Seq<bool>|
                x.len() == n ==> #[trigger] r@.eval(x) == one_hot(pow2(n as nat), value_of(x)),
    {
        proof {
            lemma_decoder(n as nat);
            lemma_rails(n as nat);
            lemma_fan_out(n as nat);
            lemma_buffers_and_inverters(n as nat);
            lemma_separate_copies(
                n as nat,
                Seq::new(n as nat, |i: int| false),
                Seq::new(2 * n as nat, |q: int| false),
            );
            lemma_pow2_pos(n as nat);
            assert(n * 1 == n && n * 2 == 2 * n) by (nonlinear_arith);
        }
        let layer1 = ConcatBlocks::create_from_fn(1, 2, n, || -> (g: Branch)
            ensures
                g@ == (Circuit::Branch { outputs: 2 }),
            { Branch::new(2) });
        proof {
            let cells = layer1@->Parallel_cells;
            assert(cells =~= copies(n as nat, Circuit::Branch { outputs: 2 }));
        }
        let layer2 = Wiring::unzip(2 * n, 2);
        let not = ConcatBlocks::create_from_fn(1, 1, n, Not::new);
        let buffer = ConcatBlocks::create_from_fn(1, 1, n, Buffer::new);
        proof {
            let flipped = not@->Parallel_cells;
            assert forall|k: int| 0 <= k < n implies flipped[k] == Circuit::Not by {
                assert(makes(Not::new, flipped[k]));
            }
            assert(flipped =~= copies(n as nat, Circuit::Not));
            let kept = buffer@->Parallel_cells;
            assert forall|k: int| 0 <= k < n implies kept[k] == Circuit::Buffer by {
                assert(makes(Buffer::new, kept[k]));
            }
            assert(kept =~= copies(n as nat, Circuit::Buffer));
        }
        let layer3 = ConcatDifferentShapeBlocks::create(not.into_block(), buffer.into_block());
        let layer4 = Self::selection(n);
        let rows = crate::blocks::pow2(n);
        proof {
            assert(rows * n == n * pow2(n as nat)) by (nonlinear_arith)
                requires
                    rows == pow2(n as nat),
            ;
            assert(rows * 1 == rows) by (nonlinear_arith);
        }
        let layer5 = ConcatBlocks::create_from_fn(n, 1, rows, || -> (g: And)
            ensures
                g@ == (Circuit::And { inputs: n as nat }),
            { And::new(n) });
        proof {
            let cells = layer5@->Parallel_cells;
            assert(cells =~= copies(pow2(n as nat), Circuit::And { inputs: n as nat }));
            assert(layer5@ == lines(n as nat));
            assert(pow2(n as nat) * n == n * pow2(n as nat)) by (nonlinear_arith);
            assert(pow2(n as nat) * 1 == pow2(n as nat)) by (nonlinear_arith);
            lemma_row(pow2(n as nat), n as nat, 1, Circuit::And { inputs: n as nat });
            assert(combinational(Circuit::And { inputs: n as nat }, n as nat, 1));
            lemma_pair(
                bitwise(n as nat, Circuit::Not),
                bitwise(n as nat, Circuit::Buffer),
                n as nat,
                n as nat,
                n as nat,
                n as nat,
            );
            assert(combinational(layer2@, 2 * n as nat, 2 * n as nat));
            lemma_serial(layer1@, layer2@, n as nat, 2 * n as nat, 2 * n as nat);
        }
        let front = MergeLayers::create(layer1.into_block(), layer2.into_block());
        let both = front.connect_to(layer3.into_block());
        assert(both@ == rails(n as nat));
        let picked = both.connect_to(layer4.into_block());
        assert(picked@.output_width() == n * pow2(n as nat));
        let decoder = picked.connect_to(layer5.into_block());
        Self { decoder }
    }

    /// The wiring that lays out, line by line, the rails each line of the
    /// decoder needs.
    fn selection(n: usize) -> (r: Wiring)
        requires
            2 * n <= usize::MAX,
            pow2(n as nat) <= usize::MAX,
            n * pow2(n as nat) <= usize::MAX,
        ensures
            r@ == wire(2 * n as nat, select_table(n as nat)),
    {
        let rows = crate::blocks::pow2(n);
        let mut table: Vec<usize> = Vec::new();
        let mut i: usize = 0;
        proof {
            assert(0 * n == 0) by (nonlinear_arith);
            assert(pow2(n as nat) * n == n * pow2(n as nat)) by (nonlinear_arith);
        }
        while i < rows
            invariant
                i <= rows,
                rows == pow2(n as nat),
                rows * n == n * pow2(n as nat),
                2 * n <= usize::MAX,
                table@.len() == i * n,
                forall|q: int|
                    0 <= q < table@.len() ==> table@[q] == select_table(n as nat)[q] && table@[q]
                        < 2 * n,
            decreases rows - i,
        {
            let mut j: usize = 0;
            let mut rest = i;
            proof {
                vstd::arithmetic::power2::lemma2_to64();
                lemma_chunk_bounds(i as int, rows as int, n as nat);
            }
            while j < n
                invariant
                    j <= n,
                    i < rows,
                    rows == pow2(n as nat),
                    rows * n == n * pow2(n as nat),
                    i * n + n <= rows * n,
                    2 * n <= usize::MAX,
                    table@.len() == i * n + j,
                    rest == i as nat / pow2(j as nat),
                    forall|q: int|
                        0 <= q < table@.len() ==> table@[q] == select_table(n as nat)[q]
                            && table@[q] < 2 * n,
                decreases n - j,
            {
                proof {
                    lemma_pow2_pos(j as nat);
                    vstd::arithmetic::power2::lemma_pow2_unfold((j + 1) as nat);
                    vstd::arithmetic::div_mod::lemma_div_denominator(
                        i as int,
                        pow2(j as nat) as int,
                        2,
                    );
                    lemma_select(n as nat, Seq::new(n as nat, |k: int| false), i as int, j as int);
                    lemma_fundamental_div_mod_converse(i * n + j, n as int, i as int, j as int);
                    let set = bit_at(i as nat, j as nat);
                    let rail = if set {
                        1int
                    } else {
                        0int
                    };
                    assert(n * rail == if set {
                        n as int
                    } else {
                        0
                    }) by (nonlinear_arith)
                        requires
                            rail == 0 && !set || rail == 1 && set,
                    ;
                }
                let ghost before = table@;
                table.push(
                    if rest % 2 == 1 {
                        n + j
                    } else {
                        j
                    },
                );
                assert forall|q: int| 0 <= q < table@.len() implies table@[q] == select_table(
                    n as nat,
                )[q] && table@[q] < 2 * n by {
                    if q < before.len() {
                        assert(table@[q] == before[q]);
                    }
                }
                rest = rest / 2;
                j += 1;
            }
            proof {
                assert((i + 1) * n == i * n + n) by (nonlinear_arith);
            }
            i += 1;
        }
        assert(indices(table@) =~= select_table(n as nat));
        Wiring::create(2 * n, table)
    }
}

impl Component for BitDecoder {
    fn input_width(&self) -> (w: usize) {
        self.decoder.input_width()
    }

    fn output_width(&self) -> (w: usize) {
        self.decoder.output_width()
    }

    fn eval(&self, input: &[bool]) -> (out: Vec<bool>) {
        self.decoder.eval(input)
    }

    fn eval_mut(&mut self, input: &[bool]) -> (out: Vec<bool>) {
        self.decoder.eval_mut(input)
    }

    fn into_block(self) -> (b: Block) {
        self.decoder.into_block()
    }
}

} // verus!
