//! Wiring: blocks that only move bits between positions.
use crate::blocks::{Block, Component};
use crate::circuit::{route, Circuit};
use crate::laws::serial;
use vstd::arithmetic::div_mod::{
    lemma_fundamental_div_mod, lemma_fundamental_div_mod_converse, lemma_mod_bound,
};
use vstd::prelude::*;

verus! {

/// A table of machine indices as a table of integers.
pub open spec fn indices(table: Seq<usize>) -> Seq<int> {
    Seq::new(table.len(), |j: int| table[j] as int)
}

/// Identity prefix from `n` wires to `m` wires: output `i` reads input `i`
/// while there is one, and input 0 after that.
pub open spec fn wrapper_table(n: nat, m: nat) -> Seq<int> {
    Seq::new(m, |i: int| if i < n { i } else { 0 })
}

/// Separates `s` interleaved streams of `n / s` bits each: with
/// `sep = n / s`, output `i * sep + j` reads input `j * s + i`.
pub open spec fn unzip_table(n: nat, s: nat) -> Seq<int> {
    let sep = n as int / s as int;
    Seq::new(n, |p: int| (p % sep) * s + p / sep)
}

/// Interleaves `s` contiguous streams of `n / s` bits each: with
/// `sep = n / s`, output `j * s + i` reads input `i * sep + j`.
pub open spec fn zip_table(n: nat, s: nat) -> Seq<int> {
    let sep = n as int / s as int;
    Seq::new(n, |q: int| (q % s as int) * sep + q / s as int)
}

/// Interleaves the two halves of the bus in chunks of `s` bits.
pub open spec fn zip_with_chunk_table(n: nat, s: nat) -> Seq<int> {
    let width = s as int;
    let half = n as int / 2;
    Seq::new(
        n,
        |i: int|
            (i / (2 * width)) * width + i % width + if i % (2 * width) >= width {
                half
            } else {
                0
            },
    )
}

/// Rotation by `k` places: output `i` reads input `(i + n - k) mod n`.
pub open spec fn rotate_right_table(n: nat, k: nat) -> Seq<int> {
    Seq::new(n, |i: int| (i + n - k) % n as int)
}

/// Reversal: output `i` reads input `n - 1 - i`.
pub open spec fn reverse_table(n: nat) -> Seq<int> {
    Seq::new(n, |i: int| n - 1 - i)
}

/// A fixed permutation, fan-out or projection of `inputs` wires: output `j`
/// reads input `table[j]`.
#[derive(Debug)]
pub struct Wiring {
    inputs: usize,
    table: Vec<usize>,
}

impl View for Wiring {
    type V = Circuit;

    closed spec fn view(&self) -> Circuit {
        Circuit::Wiring { inputs: self.inputs as nat, table: indices(self.table@) }
    }
}

impl Wiring {
    /// The wiring of `inputs` wires by `table`.
    pub fn create(inputs: usize, table: Vec<usize>) -> (r: Self)
        requires
            forall|j: int| 0 <= j < table@.len() ==> table@[j] < inputs,
        ensures
            r@ == (Circuit::Wiring { inputs: inputs as nat, table: indices(table@) }),
            r@.realizable(),
    {
        let outputs = table.len();
        proof {
            assert forall|j: int| 0 <= j < indices(table@).len() implies 0 <= #[trigger] indices(
                table@,
            )[j] < inputs by {
                assert(table@[j] < inputs);
            }
            assert(outputs <= usize::MAX);
        }
        Self { inputs, table }
    }

    /// Reconciles a bus of `n` wires with one of `m`: an identity on the
    /// wires they share.
    pub fn wrapper(n: usize, m: usize) -> (r: Self)
        requires
            n > 0 || m == 0,
        ensures
            r@ == (Circuit::Wiring { inputs: n as nat, table: wrapper_table(n as nat, m as nat) }),
            r@.realizable(),
    {
        let mut table: Vec<usize> = Vec::new();
        let mut i: usize = 0;
        while i < m
            invariant
                i <= m,
                n > 0 || m == 0,
                table@.len() == i,
                forall|j: int| 0 <= j < i ==> table@[j] == wrapper_table(n as nat, m as nat)[j],
            decreases m - i,
        {
            table.push(
                if i < n {
                    i
                } else {
                    0
                },
            );
            i += 1;
        }
        assert(indices(table@) =~= wrapper_table(n as nat, m as nat));
        Self::create(n, table)
    }

    /// Interleaves `s` contiguous streams; the inverse of `unzip`.
    pub fn zip(n: usize, s: usize) -> (r: Self)
        requires
            s > 0,
            n % s == 0,
        ensures
            r@ == (Circuit::Wiring { inputs: n as nat, table: zip_table(n as nat, s as nat) }),
            r@.realizable(),
    {
        let sep = n / s;
        let mut table: Vec<usize> = Vec::new();
        let mut q: usize = 0;
        proof {
            lemma_fundamental_div_mod(n as int, s as int);
        }
        while q < n
            invariant
                q <= n,
                s > 0,
                sep == n / s,
                n == s * sep,
                table@.len() == q,
                forall|j: int| 0 <= j < q ==> table@[j] == zip_table(n as nat, s as nat)[j],
                forall|j: int| 0 <= j < q ==> table@[j] < n,
            decreases n - q,
        {
            proof {
                lemma_stream_position(q as int, s as int, sep as int);
            }
            table.push((q % s) * sep + q / s);
            q += 1;
        }
        assert(indices(table@) =~= zip_table(n as nat, s as nat));
        Self::create(n, table)
    }

    /// Separates `s` interleaved streams.
    pub fn unzip(n: usize, s: usize) -> (r: Self)
        requires
            s > 0,
            n % s == 0,
        ensures
            r@ == (Circuit::Wiring { inputs: n as nat, table: unzip_table(n as nat, s as nat) }),
            r@.realizable(),
    {
        let sep = n / s;
        let mut table: Vec<usize> = Vec::new();
        let mut p: usize = 0;
        proof {
            lemma_fundamental_div_mod(n as int, s as int);
            assert(s * sep == sep * s) by (nonlinear_arith);
        }
        while p < n
            invariant
                p <= n,
                s > 0,
                sep == n / s,
                n == sep * s,
                table@.len() == p,
                forall|j: int| 0 <= j < p ==> table@[j] == unzip_table(n as nat, s as nat)[j],
                forall|j: int| 0 <= j < p ==> table@[j] < n,
            decreases n - p,
        {
            proof {
                assert(sep > 0) by (nonlinear_arith)
                    requires
                        p < n,
                        n == sep * s,
                ;
                lemma_stream_position(p as int, sep as int, s as int);
            }
            table.push((p % sep) * s + p / sep);
            p += 1;
        }
        assert(indices(table@) =~= unzip_table(n as nat, s as nat));
        Self::create(n, table)
    }

    /// Interleaves the two halves of the bus in chunks of `s` bits.
    pub fn zip_with_chunk(n: usize, s: usize) -> (r: Self)
        requires
            s > 0,
            2 * s <= usize::MAX,
        ensures
            r@ == (Circuit::Wiring {
                inputs: n as nat,
                table: zip_with_chunk_table(n as nat, s as nat),
            }),
            r@.realizable(),
    {
        let mut table: Vec<usize> = Vec::new();
        let mut i: usize = 0;
        while i < n
            invariant
                i <= n,
                s > 0,
                2 * s <= usize::MAX,
                table@.len() == i,
                forall|j: int|
                    0 <= j < i ==> table@[j] == zip_with_chunk_table(n as nat, s as nat)[j],
                forall|j: int| 0 <= j < i ==> table@[j] < n,
            decreases n - i,
        {
            proof {
                lemma_chunk_position(i as int, n as int, s as int);
            }
            let chunk_index = i / (2 * s);
            let index_in_chunk = i % s;
            let is_in_block0 = i % (2 * s) < s;
            table.push(
                chunk_index * s + index_in_chunk + if is_in_block0 {
                    0
                } else {
                    n / 2
                },
            );
            i += 1;
        }
        assert(indices(table@) =~= zip_with_chunk_table(n as nat, s as nat));
        Self::create(n, table)
    }

    /// Rotation of the bus by `k` places.
    pub fn rotate_right(n: usize, k: usize) -> (r: Self)
        requires
            k <= n,
        ensures
            r@ == (Circuit::Wiring {
                inputs: n as nat,
                table: rotate_right_table(n as nat, k as nat),
            }),
            r@.realizable(),
    {
        let mut table: Vec<usize> = Vec::new();
        let mut i: usize = 0;
        while i < n
            invariant
                i <= n,
                k <= n,
                table@.len() == i,
                forall|j: int|
                    0 <= j < i ==> table@[j] == rotate_right_table(n as nat, k as nat)[j],
                forall|j: int| 0 <= j < i ==> table@[j] < n,
            decreases n - i,
        {
            proof {
                if i >= k {
                    lemma_fundamental_div_mod_converse(i + n - k, n as int, 1, i - k);
                } else {
                    lemma_fundamental_div_mod_converse(i + n - k, n as int, 0, i + n - k);
                }
            }
            table.push(
                if i >= k {
                    i - k
                } else {
                    i + (n - k)
                },
            );
            i += 1;
        }
        assert(indices(table@) =~= rotate_right_table(n as nat, k as nat));
        Self::create(n, table)
    }

    /// Reversal of the bus.
    pub fn reverse(n: usize) -> (r: Self)
        ensures
            r@ == (Circuit::Wiring { inputs: n as nat, table: reverse_table(n as nat) }),
            r@.realizable(),
    {
        let mut table: Vec<usize> = Vec::new();
        let mut i: usize = 0;
        while i < n
            invariant
                i <= n,
                table@.len() == i,
                forall|j: int| 0 <= j < i ==> table@[j] == reverse_table(n as nat)[j],
                forall|j: int| 0 <= j < i ==> table@[j] < n,
            decreases n - i,
        {
            table.push(n - i - 1);
            i += 1;
        }
        assert(indices(table@) =~= reverse_table(n as nat));
        Self::create(n, table)
    }
}

/// Position `p` in a bus of `a * b` wires, read as row `p / a` and column
/// `p % a`, lands inside the bus when rows and columns are exchanged.
pub proof fn lemma_stream_position(p: int, a: int, b: int)
    requires
        0 < a,
        0 <= p < a * b,
    ensures
        0 <= p % a < a,
        0 <= p / a < b,
        0 <= (p % a) * b + p / a < a * b,
        ((p % a) * b + p / a) % b == p / a,
        ((p % a) * b + p / a) / b == p % a,
        (p / a) * a + p % a == p,
{
    lemma_fundamental_div_mod(p, a);
    lemma_mod_bound(p, a);
    let row = p / a;
    let col = p % a;
    assert(0 <= row < b) by (nonlinear_arith)
        requires
            p == a * row + col,
            0 <= col < a,
            0 <= p < a * b,
    ;
    assert(0 <= col * b + row < a * b) by (nonlinear_arith)
        requires
            0 <= col < a,
            0 <= row < b,
    ;
    assert(col * b + row == b * col + row) by (nonlinear_arith);
    lemma_fundamental_div_mod_converse(col * b + row, b, col, row);
    assert(row * a + col == a * row + col) by (nonlinear_arith);
}

/// Every entry of the chunked interleave lies inside the bus.
pub proof fn lemma_chunk_position(i: int, n: int, s: int)
    requires
        0 < s,
        0 <= i < n,
    ensures
        0 <= (i / (2 * s)) * s + i % s + if i % (2 * s) >= s {
            n / 2
        } else {
            0
        } < n,
{
    let c = i / (2 * s);
    let r = i % (2 * s);
    lemma_fundamental_div_mod(i, 2 * s);
    lemma_mod_bound(i, 2 * s);
    assert(c >= 0) by (nonlinear_arith)
        requires
            i == (2 * s) * c + r,
            0 <= r < 2 * s,
            i >= 0,
            s > 0,
    ;
    assert((2 * s) * c == 2 * (c * s)) by (nonlinear_arith);
    assert(c * s >= 0) by (nonlinear_arith)
        requires
            c >= 0,
            s > 0,
    ;
    if r < s {
        assert(i == (2 * c) * s + r) by (nonlinear_arith)
            requires
                i == (2 * s) * c + r,
        ;
        lemma_fundamental_div_mod_converse(i, s, 2 * c, r);
    } else {
        assert(i == (2 * c + 1) * s + (r - s)) by (nonlinear_arith)
            requires
                i == (2 * s) * c + r,
        ;
        lemma_fundamental_div_mod_converse(i, s, 2 * c + 1, r - s);
    }
}

impl Component for Wiring {
    fn input_width(&self) -> (w: usize) {
        self.inputs
    }

    fn output_width(&self) -> (w: usize) {
        self.table.len()
    }

    fn eval(&self, input: &[bool]) -> (out: Vec<bool>) {
        let mut out: Vec<bool> = Vec::new();
        let mut j: usize = 0;
        let ghost t = indices(self.table@);
        while j < self.table.len()
            invariant
                j <= self.table.len(),
                out@.len() == j,
                t == indices(self.table@),
                input@.len() == self.inputs,
                forall|k: int| 0 <= k < t.len() ==> 0 <= #[trigger] t[k] < self.inputs,
                forall|k: int| 0 <= k < j ==> out@[k] == input@[t[k]],
            decreases self.table.len() - j,
        {
            assert(t[j as int] == self.table@[j as int]);
            out.push(input[self.table[j]]);
            j += 1;
        }
        assert(out@ =~= route(t, input@));
        out
    }

    fn eval_mut(&mut self, input: &[bool]) -> (out: Vec<bool>) {
        self.eval(input)
    }

    fn into_block(self) -> (b: Block) {
        Block::Wiring(self)
    }
}

/// The wiring block of `n` input wires with the given table.
pub open spec fn wire(n: nat, table: Seq<int>) -> Circuit {
    Circuit::Wiring { inputs: n, table }
}

/// The entries of the unzip table, by stream and position: with
/// `sep = n / s`, entry `i * sep + j` is `j * s + i`.
pub proof fn lemma_unzip_entry(n: nat, s: nat, i: int, j: int)
    requires
        s > 0,
        n % s == 0,
        0 <= i < s,
        0 <= j < n / s,
    ensures
        0 <= i * (n / s) + j < n,
        unzip_table(n, s)[i * (n / s) + j] == j * s + i,
{
    let sep = n as int / s as int;
    lemma_fundamental_div_mod(n as int, s as int);
    assert(0 <= i * sep + j < s * sep) by (nonlinear_arith)
        requires
            0 <= i < s,
            0 <= j < sep,
    ;
    lemma_fundamental_div_mod_converse(i * sep + j, sep, i, j);
}

/// Zip and unzip are inverse permutations: each table, looked up through
/// the other, is the identity, and both are well-formed wirings.
pub proof fn lemma_zip_unzip_inverse(n: nat, s: nat, p: int)
    requires
        s > 0,
        n % s == 0,
        0 <= p < n,
    ensures
        0 <= unzip_table(n, s)[p] < n,
        0 <= zip_table(n, s)[p] < n,
        zip_table(n, s)[unzip_table(n, s)[p]] == p,
        unzip_table(n, s)[zip_table(n, s)[p]] == p,
{
    let sep = n as int / s as int;
    lemma_fundamental_div_mod(n as int, s as int);
    assert(sep > 0 && n == sep * s) by (nonlinear_arith)
        requires
            n == s * sep,
            s > 0,
            n > 0,
    ;
    lemma_stream_position(p, sep, s as int);
    lemma_stream_position(p, s as int, sep);
}

/// Wiring round-trip, zip and unzip: in either order the two wirings
/// compose to the identity on a bus of `n` wires.
pub proof fn lemma_zip_unzip_round_trip(n: nat, s: nat, x: Seq<bool>)
    requires
        s > 0,
        n % s == 0,
        x.len() == n,
    ensures
        wire(n, zip_table(n, s)).wf(),
        wire(n, unzip_table(n, s)).wf(),
        serial(wire(n, zip_table(n, s)), wire(n, unzip_table(n, s))).eval(x) == x,
        serial(wire(n, unzip_table(n, s)), wire(n, zip_table(n, s))).eval(x) == x,
{
    let zip = zip_table(n, s);
    let unzip = unzip_table(n, s);
    assert(wire(n, zip).eval(x) == route(zip, x));
    assert(wire(n, unzip).eval(x) == route(unzip, x));
    assert(wire(n, unzip).eval(route(zip, x)) == route(unzip, route(zip, x)));
    assert(wire(n, zip).eval(route(unzip, x)) == route(zip, route(unzip, x)));
    assert forall|p: int| 0 <= p < n implies 0 <= #[trigger] zip[p] < n by {
        lemma_zip_unzip_inverse(n, s, p);
    }
    assert forall|p: int| 0 <= p < n implies 0 <= #[trigger] unzip[p] < n by {
        lemma_zip_unzip_inverse(n, s, p);
    }
    assert forall|p: int| 0 <= p < n implies #[trigger] route(unzip, route(zip, x))[p] == x[p] by {
        lemma_zip_unzip_inverse(n, s, p);
    }
    assert forall|p: int| 0 <= p < n implies #[trigger] route(zip, route(unzip, x))[p] == x[p] by {
        lemma_zip_unzip_inverse(n, s, p);
    }
    assert(route(unzip, route(zip, x)) =~= x);
    assert(route(zip, route(unzip, x)) =~= x);
}

/// Wiring round-trip, reversal: reversing twice is the identity.
pub proof fn lemma_reverse_round_trip(n: nat, x: Seq<bool>)
    requires
        x.len() == n,
    ensures
        wire(n, reverse_table(n)).wf(),
        serial(wire(n, reverse_table(n)), wire(n, reverse_table(n))).eval(x) == x,
{
    let t = reverse_table(n);
    assert(wire(n, t).eval(x) == route(t, x));
    assert(wire(n, t).eval(route(t, x)) == route(t, route(t, x)));
    assert(route(t, route(t, x)) =~= x);
}

/// Wiring round-trip, rotation: rotating by `k` and by `n - k`, in either
/// order, is the identity.
pub proof fn lemma_rotate_round_trip(n: nat, k: nat, x: Seq<bool>)
    requires
        k <= n,
        x.len() == n,
    ensures
        wire(n, rotate_right_table(n, k)).wf(),
        wire(n, rotate_right_table(n, (n - k) as nat)).wf(),
        serial(
            wire(n, rotate_right_table(n, k)),
            wire(n, rotate_right_table(n, (n - k) as nat)),
        ).eval(x) == x,
        serial(
            wire(n, rotate_right_table(n, (n - k) as nat)),
            wire(n, rotate_right_table(n, k)),
        ).eval(x) == x,
{
    let by_k = rotate_right_table(n, k);
    let back = rotate_right_table(n, (n - k) as nat);
    assert(wire(n, by_k).eval(x) == route(by_k, x));
    assert(wire(n, back).eval(x) == route(back, x));
    assert(wire(n, back).eval(route(by_k, x)) == route(back, route(by_k, x)));
    assert(wire(n, by_k).eval(route(back, x)) == route(by_k, route(back, x)));
    assert forall|i: int| 0 <= i < n implies 0 <= #[trigger] by_k[i] < n by {
        lemma_rotate_entry(n as int, k as int, i);
    }
    assert forall|i: int| 0 <= i < n implies 0 <= #[trigger] back[i] < n by {
        lemma_rotate_entry(n as int, n - k, i);
    }
    assert forall|i: int| 0 <= i < n implies #[trigger] route(back, route(by_k, x))[i] == x[i] by {
        lemma_rotate_entry(n as int, n - k, i);
        lemma_rotate_entry(n as int, k as int, back[i]);
    }
    assert forall|i: int| 0 <= i < n implies #[trigger] route(by_k, route(back, x))[i] == x[i] by {
        lemma_rotate_entry(n as int, k as int, i);
        lemma_rotate_entry(n as int, n - k, by_k[i]);
    }
    assert(route(back, route(by_k, x)) =~= x);
    assert(route(by_k, route(back, x)) =~= x);
}

/// `(i + n - k) mod n` without the division.
pub proof fn lemma_rotate_entry(n: int, k: int, i: int)
    requires
        0 <= k <= n,
        0 <= i < n,
    ensures
        (i + n - k) % n == if i >= k {
            i - k
        } else {
            i + n - k
        },
{
    if i >= k {
        lemma_fundamental_div_mod_converse(i + n - k, n, 1, i - k);
    } else {
        lemma_fundamental_div_mod_converse(i + n - k, n, 0, i + n - k);
    }
}

} // verus!
