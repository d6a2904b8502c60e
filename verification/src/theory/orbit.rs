//! One-site translation of a periodic chain: the rotation of an `L`-digit
//! number, its iterates, the period of a configuration and the
//! representative of an orbit.

use vstd::prelude::*;
use vstd::arithmetic::power2::{pow2, lemma_pow2_pos, lemma_pow2_adds};
use vstd::arithmetic::div_mod::{
    lemma_div_denominator, lemma_mod_breakdown, lemma_small_mod, lemma_basic_div,
    lemma_fundamental_div_mod, lemma_fundamental_div_mod_converse, lemma_hoist_over_denominator,
    lemma_add_mod_noop,
};
use crate::theory::bits::{
    popcount, bit_at, lemma_pow2_double, lemma_popcount_high_bit, lemma_bit_at_half,
    lemma_bit_at_zero,
};

verus! {

/// `n` is a configuration of a chain with `length` sites.
pub open spec fn fits(n: nat, length: nat) -> bool {
    n < pow2(length)
}

/// Translation by one site: the lowest digit moves to the top position
/// `length - 1`, every other digit moves one position down.
pub open spec fn rotate(n: nat, length: nat) -> nat {
    n / 2 + (n % 2) * pow2((length - 1) as nat)
}

/// Translation by `k` sites.
pub open spec fn rotate_by(n: nat, length: nat, k: nat) -> nat
    decreases k,
{
    if k == 0 {
        n
    } else {
        rotate(rotate_by(n, length, (k - 1) as nat), length)
    }
}

/// The least `q` with `p <= q < length` for which `q` translations map `n`
/// to itself, and `length` if there is none.
pub open spec fn first_return_from(n: nat, length: nat, p: nat) -> nat
    decreases length - p,
{
    if p >= length {
        length
    } else if rotate_by(n, length, p) == n {
        p
    } else {
        first_return_from(n, length, p + 1)
    }
}

/// The period of `n`: the least positive number of translations that maps
/// `n` to itself.
pub open spec fn period_of(n: nat, length: nat) -> nat {
    first_return_from(n, length, 1)
}

/// `n` is the smallest member of its orbit.
pub open spec fn is_representative(n: nat, length: nat) -> bool {
    forall|k: nat| n <= #[trigger] rotate_by(n, length, k)
}

/// A momentum index `k` is compatible with an orbit of period `period`.
pub open spec fn commensurate(k: nat, period: nat, length: nat) -> bool {
    (k * period) % length == 0
}

/// A translation keeps a configuration within the chain.
pub proof fn lemma_rotate_fits(n: nat, length: nat)
    requires
        length >= 1,
        fits(n, length),
    ensures
        fits(rotate(n, length), length),
{
    lemma_pow2_double((length - 1) as nat);
    let h = pow2((length - 1) as nat);
    assert(n / 2 < h);
    assert((n % 2) * h <= h) by (nonlinear_arith)
        requires
            n % 2 <= 1,
            h > 0,
    ;
}

/// Every iterate of a translation keeps a configuration within the chain.
pub proof fn lemma_rotate_by_fits(n: nat, length: nat, k: nat)
    requires
        length >= 1,
        fits(n, length),
    ensures
        fits(rotate_by(n, length, k), length),
    decreases k,
{
    if k > 0 {
        lemma_rotate_by_fits(n, length, (k - 1) as nat);
        lemma_rotate_fits(rotate_by(n, length, (k - 1) as nat), length);
    }
}

/// Translations compose: `a + b` sites is `a` sites followed by `b` sites.
pub proof fn lemma_rotate_by_add(n: nat, length: nat, a: nat, b: nat)
    ensures
        rotate_by(n, length, a + b) == rotate_by(rotate_by(n, length, a), length, b),
    decreases b,
{
    if b > 0 {
        lemma_rotate_by_add(n, length, a, (b - 1) as nat);
        assert(a + b - 1 == a + (b - 1));
    }
}

/// Translation by `k <= length` sites in closed form: the low `k` digits
/// move to the top, the remaining digits move down by `k`.
pub proof fn lemma_rotate_by_closed_form(n: nat, length: nat, k: nat)
    requires
        fits(n, length),
        k <= length,
    ensures
        rotate_by(n, length, k) == n / pow2(k) + (n % pow2(k)) * pow2((length - k) as nat),
    decreases k,
{
    if k == 0 {
        vstd::arithmetic::power2::lemma2_to64();
        assert(pow2(0) == 1);
        assert((n % 1) * pow2(length) == 0) by (nonlinear_arith)
            requires
                n % 1 == 0,
        ;
    } else {
        let j = (k - 1) as nat;
        lemma_rotate_by_closed_form(n, length, j);
        let pj = pow2(j);
        let q = n / pj;
        let r = n % pj;
        let low = pow2((length - k) as nat);
        lemma_pow2_double(j);
        lemma_pow2_double((length - k) as nat);
        assert(pow2((length - j) as nat) == 2 * low);
        let t = r * low;
        let a = rotate_by(n, length, j);
        assert(a == q + 2 * t) by (nonlinear_arith)
            requires
                a == q + r * (2 * low),
                t == r * low,
        ;
        assert(a / 2 == q / 2 + t);
        assert(a % 2 == q % 2);
        lemma_div_denominator(n as int, pj as int, 2);
        assert(n / pow2(k) == q / 2) by {
            assert(pow2(k) == pj * 2);
        }
        lemma_mod_breakdown(n as int, pj as int, 2);
        assert(n % pow2(k) == pj * (q % 2) + r) by {
            assert(pow2(k) == pj * 2);
        }
        let top = pow2((length - 1) as nat);
        lemma_pow2_adds(j, (length - k) as nat);
        assert(pj * low == top) by {
            assert(j + (length - k) == length - 1);
        }
        assert((pj * (q % 2) + r) * low == (q % 2) * top + t) by (nonlinear_arith)
            requires
                pj * low == top,
                t == r * low,
        ;
    }
}

/// Translating all the way around the chain is the identity.
pub proof fn lemma_rotate_full_cycle(n: nat, length: nat)
    requires
        fits(n, length),
    ensures
        rotate_by(n, length, length) == n,
{
    lemma_rotate_by_closed_form(n, length, length);
    lemma_pow2_pos(length);
    lemma_basic_div(n as int, pow2(length) as int);
    lemma_small_mod(n, pow2(length));
    vstd::arithmetic::power2::lemma2_to64();
    assert(pow2(0) == 1);
    assert((n % pow2(length)) * pow2(0) == n) by (nonlinear_arith)
        requires
            n % pow2(length) == n,
            pow2(0) == 1,
    ;
}

/// A translation preserves the number of ones.
pub proof fn lemma_rotate_popcount(n: nat, length: nat)
    requires
        length >= 1,
        fits(n, length),
    ensures
        popcount(rotate(n, length)) == popcount(n),
{
    let h = pow2((length - 1) as nat);
    lemma_pow2_double((length - 1) as nat);
    assert(n / 2 < h);
    if n % 2 == 1 {
        assert((n % 2) * h == h) by (nonlinear_arith)
            requires
                n % 2 == 1,
        ;
        lemma_popcount_high_bit(n / 2, (length - 1) as nat);
    } else {
        assert((n % 2) * h == 0) by (nonlinear_arith)
            requires
                n % 2 == 0,
        ;
    }
}

/// Every iterate of a translation preserves the number of ones.
pub proof fn lemma_rotate_by_popcount(n: nat, length: nat, k: nat)
    requires
        length >= 1,
        fits(n, length),
    ensures
        popcount(rotate_by(n, length, k)) == popcount(n),
    decreases k,
{
    if k > 0 {
        lemma_rotate_by_popcount(n, length, (k - 1) as nat);
        lemma_rotate_by_fits(n, length, (k - 1) as nat);
        lemma_rotate_popcount(rotate_by(n, length, (k - 1) as nat), length);
    }
}

/// What `first_return_from` finds: a return to `n`, and none before it.
pub proof fn lemma_first_return_from(n: nat, length: nat, p: nat)
    requires
        fits(n, length),
        1 <= p <= length,
    ensures
        p <= first_return_from(n, length, p) <= length,
        rotate_by(n, length, first_return_from(n, length, p)) == n,
        forall|q: nat|
            p <= q < first_return_from(n, length, p) ==> #[trigger] rotate_by(n, length, q) != n,
    decreases length - p,
{
    if p >= length {
        lemma_rotate_full_cycle(n, length);
    } else if rotate_by(n, length, p) == n {
    } else {
        lemma_first_return_from(n, length, p + 1);
    }
}

/// The period is positive, at most the chain length, returns `n` to
/// itself, and no smaller positive number of translations does.
pub proof fn lemma_period(n: nat, length: nat)
    requires
        length >= 1,
        fits(n, length),
    ensures
        1 <= period_of(n, length) <= length,
        rotate_by(n, length, period_of(n, length)) == n,
        forall|q: nat| 1 <= q < period_of(n, length) ==> #[trigger] rotate_by(n, length, q) != n,
{
    lemma_first_return_from(n, length, 1);
}

/// The period is the only number with the two defining properties.
pub proof fn lemma_period_unique(n: nat, length: nat, p: nat)
    requires
        length >= 1,
        fits(n, length),
        p >= 1,
        rotate_by(n, length, p) == n,
        forall|q: nat| 1 <= q < p ==> #[trigger] rotate_by(n, length, q) != n,
    ensures
        p == period_of(n, length),
{
    lemma_period(n, length);
    let r = period_of(n, length);
    if p < r {
        assert(rotate_by(n, length, p) != n);
    } else if r < p {
        assert(rotate_by(n, length, r) != n);
    }
}

/// If `p` translations return `n` to itself, so does every multiple of `p`.
pub proof fn lemma_rotate_by_multiple(n: nat, length: nat, p: nat, a: nat)
    requires
        rotate_by(n, length, p) == n,
    ensures
        rotate_by(n, length, a * p) == n,
    decreases a,
{
    if a == 0 {
        assert(a * p == 0) by (nonlinear_arith)
            requires
                a == 0,
        ;
    } else {
        lemma_rotate_by_multiple(n, length, p, (a - 1) as nat);
        assert(a * p == (a - 1) * p + p) by (nonlinear_arith);
        lemma_rotate_by_add(n, length, ((a - 1) * p) as nat, p);
    }
}

/// If `p` translations return `n` to itself, translating by `k` sites is
/// translating by `k mod p` sites.
pub proof fn lemma_rotate_by_mod(n: nat, length: nat, p: nat, k: nat)
    requires
        p >= 1,
        rotate_by(n, length, p) == n,
    ensures
        rotate_by(n, length, k) == rotate_by(n, length, k % p),
{
    lemma_fundamental_div_mod(k as int, p as int);
    let a = k / p;
    let r = k % p;
    assert(k == a * p + r) by (nonlinear_arith)
        requires
            k == p * a + r,
    ;
    lemma_rotate_by_multiple(n, length, p, a);
    lemma_rotate_by_add(n, length, a * p, r);
}

/// The period divides the chain length.
pub proof fn lemma_period_divides_length(n: nat, length: nat)
    requires
        length >= 1,
        fits(n, length),
    ensures
        length % period_of(n, length) == 0,
{
    lemma_period(n, length);
    let p = period_of(n, length);
    lemma_rotate_full_cycle(n, length);
    lemma_rotate_by_mod(n, length, p, length);
    let r = length % p;
    if r != 0 {
        assert(rotate_by(n, length, r) != n);
    }
}

/// The first `period` iterates of `n` are pairwise distinct.
pub proof fn lemma_orbit_distinct(n: nat, length: nat, i: nat, j: nat)
    requires
        length >= 1,
        fits(n, length),
        i < j < period_of(n, length),
    ensures
        rotate_by(n, length, i) != rotate_by(n, length, j),
{
    lemma_period(n, length);
    let p = period_of(n, length);
    if rotate_by(n, length, i) == rotate_by(n, length, j) {
        let d = (p - j) as nat;
        lemma_rotate_by_add(n, length, i, d);
        lemma_rotate_by_add(n, length, j, d);
        assert(j + d == p);
        assert(1 <= i + d < p);
        assert(rotate_by(n, length, i + d) != n);
    }
}

/// Translations can be undone: from any iterate of `n` some number of
/// further translations leads back to `n`.
pub proof fn lemma_rotate_back(n: nat, length: nat, i: nat) -> (back: nat)
    requires
        length >= 1,
        fits(n, length),
    ensures
        rotate_by(rotate_by(n, length, i), length, back) == n,
{
    lemma_rotate_full_cycle(n, length);
    lemma_rotate_by_mod(n, length, length, i);
    let r = i % length;
    let back = (length - r) as nat;
    lemma_rotate_by_add(n, length, r, back);
    assert(r + back == length);
    back
}

/// Two representatives whose orbits meet are equal.
pub proof fn lemma_representatives_disjoint(a: nat, b: nat, length: nat, i: nat, j: nat)
    requires
        length >= 1,
        fits(a, length),
        fits(b, length),
        is_representative(a, length),
        is_representative(b, length),
        rotate_by(a, length, i) == rotate_by(b, length, j),
    ensures
        a == b,
{
    let x = rotate_by(a, length, i);
    let to_a = lemma_rotate_back(a, length, i);
    let to_b = lemma_rotate_back(b, length, j);
    lemma_rotate_by_add(b, length, j, to_a);
    lemma_rotate_by_add(a, length, i, to_b);
    assert(rotate_by(b, length, j + to_a) == a);
    assert(rotate_by(a, length, i + to_b) == b);
}

/// To be a representative it is enough to be no larger than the first
/// `period` iterates.
pub proof fn lemma_representative_from_cycle(n: nat, length: nat)
    requires
        length >= 1,
        fits(n, length),
        forall|k: nat| k < period_of(n, length) ==> n <= #[trigger] rotate_by(n, length, k),
    ensures
        is_representative(n, length),
{
    lemma_period(n, length);
    let p = period_of(n, length);
    assert forall|k: nat| n <= #[trigger] rotate_by(n, length, k) by {
        lemma_rotate_by_mod(n, length, p, k);
        assert(k % p < p);
    }
}

/// A translation moves the digit of site `t + 1` to site `t`, and the digit
/// of site `0` to the last site.
pub proof fn lemma_rotate_bit(n: nat, length: nat, t: nat)
    requires
        length >= 1,
        fits(n, length),
        t < length,
    ensures
        bit_at(rotate(n, length), t) == bit_at(n, (t + 1) % length),
{
    let top = pow2((length - 1) as nat);
    let b = n % 2;
    let r = rotate(n, length);
    lemma_pow2_double((length - 1) as nat);
    assert(n / 2 < top);
    if t + 1 < length {
        let rest = (length - 1 - t) as nat;
        lemma_pow2_adds(t, rest);
        lemma_pow2_double((rest - 1) as nat);
        lemma_pow2_pos(t);
        let c = b * pow2(rest);
        assert(b * top == c * pow2(t)) by (nonlinear_arith)
            requires
                top == pow2(t) * pow2(rest),
                c == b * pow2(rest),
        ;
        lemma_hoist_over_denominator((n / 2) as int, c as int, pow2(t));
        assert(r / pow2(t) == (n / 2) / pow2(t) + c);
        let e = b * pow2((rest - 1) as nat);
        assert(c == 2 * e) by (nonlinear_arith)
            requires
                c == b * pow2(rest),
                pow2(rest) == 2 * pow2((rest - 1) as nat),
                e == b * pow2((rest - 1) as nat),
        ;
        assert(c % 2 == 0);
        lemma_bit_at_half(n, t);
        lemma_small_mod(t + 1, length);
    } else {
        assert(b * top == top * b) by (nonlinear_arith);
        lemma_fundamental_div_mod_converse(r as int, top as int, b as int, (n / 2) as int);
        lemma_bit_at_zero(n);
        assert((t + 1) % length == 0) by {
            vstd::arithmetic::div_mod::lemma_mod_self_0(length as int);
        }
    }
}

/// A translation by `d` sites moves the digit of site `t + d` (around the
/// chain) to site `t`.
pub proof fn lemma_rotate_by_bit(n: nat, length: nat, d: nat, t: nat)
    requires
        length >= 1,
        fits(n, length),
        t < length,
    ensures
        bit_at(rotate_by(n, length, d), t) == bit_at(n, (t + d) % length),
    decreases d,
{
    if d == 0 {
        lemma_small_mod(t, length);
    } else {
        let y = rotate_by(n, length, (d - 1) as nat);
        lemma_rotate_by_fits(n, length, (d - 1) as nat);
        lemma_rotate_bit(y, length, t);
        let u = (t + 1) % length;
        lemma_rotate_by_bit(n, length, (d - 1) as nat, u);
        lemma_add_mod_noop((t + 1) as int, (d - 1) as int, length as int);
        lemma_add_mod_noop(u as int, (d - 1) as int, length as int);
        vstd::arithmetic::div_mod::lemma_mod_twice((t + 1) as int, length as int);
    }
}

/// The smallest of the iterates `0, .., count` of `n`.
pub open spec fn least_rotation(n: nat, length: nat, count: nat) -> nat
    decreases count,
{
    if count == 0 {
        n
    } else {
        let rest = least_rotation(n, length, (count - 1) as nat);
        let last = rotate_by(n, length, count);
        if last < rest {
            last
        } else {
            rest
        }
    }
}

/// The smallest member of the orbit of `n`.
pub open spec fn orbit_min(n: nat, length: nat) -> nat {
    least_rotation(n, length, length)
}

/// `least_rotation` is one of the iterates it ranges over, and no larger
/// than any of them.
pub proof fn lemma_least_rotation(n: nat, length: nat, count: nat) -> (at: nat)
    ensures
        at <= count,
        rotate_by(n, length, at) == least_rotation(n, length, count),
        forall|k: nat|
            k <= count ==> least_rotation(n, length, count) <= #[trigger] rotate_by(n, length, k),
    decreases count,
{
    if count == 0 {
        0
    } else {
        let at = lemma_least_rotation(n, length, (count - 1) as nat);
        if rotate_by(n, length, count) < least_rotation(n, length, (count - 1) as nat) {
            count
        } else {
            at
        }
    }
}

/// The smallest member of an orbit lies on the orbit, is no larger than
/// any member, and is the representative of the orbit.
pub proof fn lemma_orbit_min(n: nat, length: nat) -> (at: nat)
    requires
        length >= 1,
        fits(n, length),
    ensures
        at < period_of(n, length),
        rotate_by(n, length, at) == orbit_min(n, length),
        forall|k: nat| orbit_min(n, length) <= #[trigger] rotate_by(n, length, k),
        fits(orbit_min(n, length), length),
        is_representative(orbit_min(n, length), length),
{
    let m = orbit_min(n, length);
    let first = lemma_least_rotation(n, length, length);
    lemma_period(n, length);
    let p = period_of(n, length);
    lemma_rotate_by_mod(n, length, p, first);
    let at = first % p;
    assert forall|k: nat| m <= #[trigger] rotate_by(n, length, k) by {
        lemma_rotate_by_mod(n, length, p, k);
        assert(k % p < p);
    }
    lemma_rotate_by_fits(n, length, at);
    assert forall|k: nat| m <= #[trigger] rotate_by(m, length, k) by {
        lemma_rotate_by_add(n, length, at, k);
    }
    at
}

/// A member of the orbit that is no larger than any member is the smallest
/// member.
pub proof fn lemma_orbit_min_unique(n: nat, length: nat, m: nat, at: nat)
    requires
        length >= 1,
        fits(n, length),
        rotate_by(n, length, at) == m,
        forall|k: nat| m <= #[trigger] rotate_by(n, length, k),
    ensures
        m == orbit_min(n, length),
{
    let other = lemma_orbit_min(n, length);
    assert(m <= rotate_by(n, length, other));
    assert(orbit_min(n, length) <= rotate_by(n, length, at));
}

} // verus!
