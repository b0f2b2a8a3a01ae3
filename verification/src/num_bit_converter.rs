//! Numbers as little-endian bit vectors of a fixed width.
use vstd::arithmetic::div_mod::{
    lemma_div_denominator, lemma_fundamental_div_mod, lemma_fundamental_div_mod_converse,
    lemma_mod_breakdown,
};
use vstd::arithmetic::power2::{lemma_pow2_pos, lemma_pow2_unfold, pow2};
use vstd::prelude::*;

verus! {

/// Bit `k` of `n`.
pub open spec fn bit_at(n: nat, k: nat) -> bool {
    (n / pow2(k)) % 2 == 1
}

/// The `width` low bits of `n`, least significant first.
pub open spec fn bits_of(n: nat, width: nat) -> Seq<bool> {
    Seq::new(width, |k: int| bit_at(n, k as nat))
}

/// The number that `bits` spell, least significant first.
pub open spec fn value_of(bits: Seq<bool>) -> nat
    decreases bits.len(),
{
    if bits.len() == 0 {
        0
    } else {
        value_of(bits.drop_last()) + if bits.last() {
            pow2((bits.len() - 1) as nat)
        } else {
            0
        }
    }
}

/// A vector of `bits.len()` bits spells a number below `2^bits.len()`.
pub proof fn lemma_value_of_bound(bits: Seq<bool>)
    ensures
        value_of(bits) < pow2(bits.len()),
    decreases bits.len(),
{
    if bits.len() == 0 {
        lemma_pow2_pos(0);
    } else {
        lemma_value_of_bound(bits.drop_last());
        lemma_pow2_unfold(bits.len());
    }
}

/// Reading back the `width` low bits of `n` gives `n mod 2^width`.
pub proof fn lemma_value_of_bits(n: nat, width: nat)
    ensures
        value_of(bits_of(n, width)) == n % pow2(width),
    decreases width,
{
    if width == 0 {
        lemma_pow2_pos(0);
        assert(pow2(0) == 1) by {
            vstd::arithmetic::power2::lemma2_to64();
        }
    } else {
        let shorter = (width - 1) as nat;
        let p = pow2(shorter);
        lemma_value_of_bits(n, shorter);
        assert(bits_of(n, width).drop_last() =~= bits_of(n, shorter));
        lemma_pow2_pos(shorter);
        lemma_pow2_unfold(width);
        lemma_mod_breakdown(n as int, p as int, 2);
        assert(p * 2 == 2 * p) by (nonlinear_arith);
        let top = (n / p) % 2;
        assert(top == 0 || top == 1);
        assert(p * top == if top == 1 {
            p
        } else {
            0
        }) by (nonlinear_arith)
            requires
                top == 0 || top == 1,
        ;
    }
}

/// Writing out the number that `bits` spell gives `bits` back.
pub proof fn lemma_bits_of_value(bits: Seq<bool>)
    ensures
        bits_of(value_of(bits), bits.len()) == bits,
    decreases bits.len(),
{
    if bits.len() > 0 {
        let shorter = bits.drop_last();
        let high = (bits.len() - 1) as nat;
        let p = pow2(high);
        let low = value_of(shorter);
        let top: nat = if bits.last() {
            1
        } else {
            0
        };
        let v = value_of(bits);
        lemma_bits_of_value(shorter);
        lemma_value_of_bound(shorter);
        lemma_pow2_pos(high);
        assert(v == p * top + low) by (nonlinear_arith)
            requires
                v == low + if top == 1 {
                    p
                } else {
                    0
                },
                top == 0 || top == 1,
        ;
        assert forall|k: int| 0 <= k < bits.len() implies bits_of(v, bits.len())[k] == bits[k] by {
            if k == high {
                lemma_fundamental_div_mod_converse(v as int, p as int, top as int, low as int);
            } else {
                let pk = pow2(k as nat);
                let between = pow2((high - k) as nat);
                lemma_pow2_pos(k as nat);
                lemma_pow2_pos((high - k) as nat);
                vstd::arithmetic::power2::lemma_pow2_adds(k as nat, (high - k) as nat);
                lemma_pow2_unfold((high - k) as nat);
                let half = pow2((high - k - 1) as nat);
                // v = pk * (2 * half * top) + low
                lemma_fundamental_div_mod(low as int, pk as int);
                let lq = low as int / pk as int;
                let lr = low as int % pk as int;
                assert(v == pk * (2 * half * top + lq) + lr) by (nonlinear_arith)
                    requires
                        v == p * top + low,
                        p == pk * between,
                        between == 2 * half,
                        low == pk * lq + lr,
                ;
                vstd::arithmetic::div_mod::lemma_div_pos_is_pos(low as int, pk as int);
                lemma_fundamental_div_mod_converse(
                    v as int,
                    pk as int,
                    2 * half * top + lq,
                    lr,
                );
                assert((2 * half * top + lq) % 2 == lq % 2) by {
                    vstd::arithmetic::div_mod::lemma_mod_multiples_vanish(
                        (half * top) as int,
                        lq,
                        2,
                    );
                    assert(2 * (half * top) + lq == 2 * half * top + lq) by (nonlinear_arith);
                    assert(2 * (half * top) == (half * top) * 2) by (nonlinear_arith);
                }
                assert(bits_of(low, high)[k] == shorter[k]);
            }
        }
        assert(bits_of(v, bits.len()) =~= bits);
    }
}

/// The `B` low bits of `num`, least significant first.
pub fn num_to_bit<const B: usize>(num: usize) -> (r: [bool; B])
    ensures
        r@ == bits_of(num as nat, B as nat),
{
    let mut result = [false; B];
    let mut k: usize = 0;
    let mut q = num;
    proof {
        vstd::arithmetic::power2::lemma2_to64();
    }
    while k < B
        invariant
            k <= B,
            result@.len() == B,
            q == num as nat / pow2(k as nat),
            forall|j: int| 0 <= j < k ==> result@[j] == bit_at(num as nat, j as nat),
        decreases B - k,
    {
        proof {
            lemma_pow2_pos(k as nat);
            lemma_pow2_unfold((k + 1) as nat);
            lemma_div_denominator(num as int, pow2(k as nat) as int, 2);
        }
        result[k] = q % 2 == 1;
        q = q / 2;
        k += 1;
    }
    assert(result@ =~= bits_of(num as nat, B as nat));
    result
}

/// The number that `bits` spell, least significant first.
pub fn bit_to_num(bits: &[bool]) -> (r: usize)
    requires
        value_of(bits@) <= usize::MAX,
    ensures
        r == value_of(bits@),
{
    let mut acc: usize = 0;
    let mut k: usize = bits.len();
    proof {
        lemma_split_value(bits@, bits@.len() as int);
        assert(bits@.skip(bits@.len() as int) =~= Seq::<bool>::empty());
    }
    while k > 0
        invariant
            k <= bits@.len(),
            value_of(bits@) <= usize::MAX,
            acc == value_of(bits@.skip(k as int)),
        decreases k,
    {
        k -= 1;
        proof {
            let tail = bits@.skip(k as int);
            lemma_split_value(tail, 1);
            assert(tail.skip(1) =~= bits@.skip(k + 1));
            assert(tail.take(1) =~= seq![bits@[k as int]]);
            assert(value_of(seq![bits@[k as int]]) == if bits@[k as int] {
                1nat
            } else {
                0nat
            }) by {
                reveal_with_fuel(value_of, 2);
                vstd::arithmetic::power2::lemma2_to64();
                assert(seq![bits@[k as int]].drop_last() =~= Seq::<bool>::empty());
            }
            vstd::arithmetic::power2::lemma2_to64();
            lemma_split_value(bits@, k as int);
            lemma_pow2_pos(k as nat);
            let rest = value_of(tail);
            let pk = pow2(k as nat);
            assert(rest <= usize::MAX) by (nonlinear_arith)
                requires
                    value_of(bits@.take(k as int)) + pk * rest <= usize::MAX,
                    pk >= 1,
            ;
        }
        acc = 2 * acc + if bits[k] {
            1
        } else {
            0
        };
    }
    assert(bits@.skip(0) =~= bits@);
    acc
}

/// A bit vector splits at any position into a low number and a high number:
/// the whole spells `low + 2^at * high`.
pub proof fn lemma_split_value(bits: Seq<bool>, at: int)
    requires
        0 <= at <= bits.len(),
    ensures
        value_of(bits) == value_of(bits.take(at)) + pow2(at as nat) * value_of(bits.skip(at)),
    decreases bits.len(),
{
    if at == bits.len() {
        assert(bits.take(at) =~= bits);
        assert(bits.skip(at) =~= Seq::<bool>::empty());
        assert(pow2(at as nat) * 0 == 0) by (nonlinear_arith);
    } else {
        let shorter = bits.drop_last();
        let high = (bits.len() - 1) as nat;
        lemma_split_value(shorter, at);
        assert(shorter.take(at) =~= bits.take(at));
        assert(bits.skip(at).drop_last() =~= shorter.skip(at));
        assert(bits.skip(at).last() == bits.last());
        vstd::arithmetic::power2::lemma_pow2_adds(at as nat, (high - at) as nat);
        let pa = pow2(at as nat);
        let ph = pow2((high - at) as nat);
        let rest = value_of(shorter.skip(at));
        assert(pa * (rest + ph) == pa * rest + pa * ph) by (nonlinear_arith);
        assert(pa * (rest + 0) == pa * rest) by (nonlinear_arith);
    }
}

/// One bit as a number.
pub open spec fn bit(b: bool) -> nat {
    if b {
        1
    } else {
        0
    }
}

/// A single bit spells 0 or 1.
pub proof fn lemma_value_of_single(b: bool)
    ensures
        value_of(seq![b]) == bit(b),
{
    reveal_with_fuel(value_of, 2);
    vstd::arithmetic::power2::lemma2_to64();
    assert(seq![b].drop_last() =~= Seq::<bool>::empty());
}

/// A concatenation spells the low part plus `2^low.len()` times the high
/// part.
pub proof fn lemma_value_of_concat(low: Seq<bool>, high: Seq<bool>)
    ensures
        value_of(low + high) == value_of(low) + pow2(low.len()) * value_of(high),
{
    let whole = low + high;
    lemma_split_value(whole, low.len() as int);
    assert(whole.take(low.len() as int) =~= low);
    assert(whole.skip(low.len() as int) =~= high);
}

/// A bit vector and its bitwise negation spell numbers that add up to
/// `2^len - 1`.
pub proof fn lemma_value_of_negation(bits: Seq<bool>, negated: Seq<bool>)
    requires
        negated.len() == bits.len(),
        forall|i: int| 0 <= i < bits.len() ==> negated[i] == !bits[i],
    ensures
        value_of(bits) + value_of(negated) + 1 == pow2(bits.len()),
    decreases bits.len(),
{
    if bits.len() == 0 {
        vstd::arithmetic::power2::lemma2_to64();
    } else {
        lemma_value_of_negation(bits.drop_last(), negated.drop_last());
        lemma_pow2_unfold(bits.len());
    }
}

} // verus!
