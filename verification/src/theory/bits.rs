//! Binary digits of natural numbers: digit extraction, digit sums and
//! toggling of single digits.

use vstd::prelude::*;
use vstd::arithmetic::power2::{pow2, lemma_pow2_pos, lemma_pow2_unfold};
use vstd::arithmetic::div_mod::lemma_div_denominator;

verus! {

/// Number of ones among the binary digits of `n`.
pub open spec fn popcount(n: nat) -> nat
    decreases n,
{
    if n == 0 {
        0
    } else {
        (n % 2) + popcount(n / 2)
    }
}

/// The binary digit of `n` at position `i`, counted from the least
/// significant digit.
pub open spec fn bit_at(n: nat, i: nat) -> nat {
    (n / pow2(i)) % 2
}

/// `n` with the digit at position `i` inverted.
pub open spec fn toggle_bit(n: nat, i: nat) -> nat {
    if bit_at(n, i) == 1 {
        (n - pow2(i)) as nat
    } else {
        n + pow2(i)
    }
}

/// `n` with the digits at positions `i` and `j` inverted.
pub open spec fn flip_pair(n: nat, i: nat, j: nat) -> nat {
    toggle_bit(toggle_bit(n, i), j)
}

/// `2^(e + 1)` is twice `2^e`.
pub proof fn lemma_pow2_double(e: nat)
    ensures
        pow2(e + 1) == 2 * pow2(e),
        pow2(e) > 0,
{
    lemma_pow2_pos(e);
    lemma_pow2_unfold(e + 1);
}

/// A digit sum never exceeds the number itself.
pub proof fn lemma_popcount_le(n: nat)
    ensures
        popcount(n) <= n,
    decreases n,
{
    if n > 0 {
        lemma_popcount_le(n / 2);
    }
}

/// A number below `2^e` has at most `e` ones.
pub proof fn lemma_popcount_bound(n: nat, e: nat)
    requires
        n < pow2(e),
    ensures
        popcount(n) <= e,
    decreases e,
{
    if n > 0 {
        if e == 0 {
            assert(pow2(0) == 1) by {
                lemma_pow2_double(0);
                vstd::arithmetic::power2::lemma2_to64();
            }
        } else {
            lemma_pow2_double((e - 1) as nat);
            lemma_popcount_bound(n / 2, (e - 1) as nat);
        }
    }
}

/// Setting a digit above all digits of `m` adds one to the digit sum.
pub proof fn lemma_popcount_high_bit(m: nat, e: nat)
    requires
        m < pow2(e),
    ensures
        popcount(m + pow2(e)) == popcount(m) + 1,
    decreases e,
{
    if e == 0 {
        vstd::arithmetic::power2::lemma2_to64();
        assert(m == 0);
        assert(popcount(1) == 1 + popcount(0));
    } else {
        let h = pow2((e - 1) as nat);
        lemma_pow2_double((e - 1) as nat);
        assert(pow2(e) == 2 * h);
        assert((m + 2 * h) % 2 == m % 2);
        assert((m + 2 * h) / 2 == m / 2 + h);
        lemma_popcount_high_bit(m / 2, (e - 1) as nat);
    }
}

/// The lowest digit is the remainder modulo two.
pub proof fn lemma_bit_at_zero(n: nat)
    ensures
        bit_at(n, 0) == n % 2,
{
    vstd::arithmetic::power2::lemma2_to64();
}

/// Halving moves every digit one position down.
pub proof fn lemma_bit_at_half(n: nat, i: nat)
    ensures
        bit_at(n / 2, i) == bit_at(n, i + 1),
{
    lemma_pow2_double(i);
    lemma_div_denominator(n as int, 2, pow2(i) as int);
}

/// A number whose digit at position `i` is set is at least `2^i`.
pub proof fn lemma_set_bit_bound(n: nat, i: nat)
    requires
        bit_at(n, i) == 1,
    ensures
        n >= pow2(i),
{
    lemma_pow2_pos(i);
    vstd::arithmetic::div_mod::lemma_fundamental_div_mod(n as int, pow2(i) as int);
    let q = n / pow2(i);
    assert(q >= 1);
    assert(pow2(i) * q >= pow2(i)) by (nonlinear_arith)
        requires
            q >= 1,
            pow2(i) > 0,
    ;
}

/// Inverting a digit above the lowest one inverts that digit of the half
/// and leaves the lowest digit alone.
pub proof fn lemma_toggle_bit_half(n: nat, i: nat)
    requires
        i >= 1,
    ensures
        toggle_bit(n, i) == 2 * toggle_bit(n / 2, (i - 1) as nat) + n % 2,
{
    let j = (i - 1) as nat;
    lemma_bit_at_half(n, j);
    lemma_pow2_double(j);
    if bit_at(n, i) == 1 {
        lemma_set_bit_bound(n / 2, j);
    }
}

/// What inverting the digit at position `i` does to a number below `2^e`
/// with `i < e`: the number stays below `2^e`, and the digit sum goes up
/// by one if the digit was clear and down by one if it was set.
pub proof fn lemma_toggle_bit(n: nat, i: nat, e: nat)
    requires
        i < e,
        n < pow2(e),
    ensures
        toggle_bit(n, i) < pow2(e),
        bit_at(n, i) <= 1,
        popcount(toggle_bit(n, i)) + 2 * bit_at(n, i) == popcount(n) + 1,
        bit_at(toggle_bit(n, i), i) + bit_at(n, i) == 1,
        forall|j: nat| j != i ==> #[trigger] bit_at(toggle_bit(n, i), j) == bit_at(n, j),
    decreases i,
{
    if i == 0 {
        lemma_bit_at_zero(n);
        vstd::arithmetic::power2::lemma2_to64();
        lemma_pow2_double((e - 1) as nat);
        let t = toggle_bit(n, 0);
        lemma_bit_at_zero(t);
        assert(t / 2 == n / 2);
        assert(popcount(t) == t % 2 + popcount(t / 2));
        assert(popcount(n) == n % 2 + popcount(n / 2));
        assert forall|j: nat| j != 0 implies #[trigger] bit_at(t, j) == bit_at(n, j) by {
            lemma_bit_at_half(t, (j - 1) as nat);
            lemma_bit_at_half(n, (j - 1) as nat);
        }
    } else {
        let h = n / 2;
        let k = (i - 1) as nat;
        lemma_pow2_double((e - 1) as nat);
        lemma_toggle_bit(h, k, (e - 1) as nat);
        lemma_toggle_bit_half(n, i);
        lemma_bit_at_half(n, k);
        let t = toggle_bit(n, i);
        let th = toggle_bit(h, k);
        assert(t / 2 == th);
        assert(t % 2 == n % 2);
        assert(popcount(t) == t % 2 + popcount(t / 2));
        assert(popcount(n) == n % 2 + popcount(n / 2)) by {
            if n == 0 {
                assert(popcount(0) == 0);
            }
        }
        lemma_bit_at_half(t, k);
        assert forall|j: nat| j != i implies #[trigger] bit_at(t, j) == bit_at(n, j) by {
            if j == 0 {
                lemma_bit_at_zero(t);
                lemma_bit_at_zero(n);
            } else {
                lemma_bit_at_half(t, (j - 1) as nat);
                lemma_bit_at_half(n, (j - 1) as nat);
            }
        }
    }
}

/// Exchanging two opposed digits keeps a number below `2^e` below `2^e`
/// and keeps its digit sum.
pub proof fn lemma_exchange_conserves(n: nat, i: nat, j: nat, e: nat)
    requires
        i < e,
        j < e,
        n < pow2(e),
        bit_at(n, i) != bit_at(n, j),
    ensures
        flip_pair(n, i, j) < pow2(e),
        popcount(flip_pair(n, i, j)) == popcount(n),
{
    lemma_toggle_bit(n, i, e);
    lemma_toggle_bit(toggle_bit(n, i), j, e);
    lemma_toggle_bit(n, j, e);
}

} // verus!
