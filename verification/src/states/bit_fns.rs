//! The primitives on bit-encoded spin configurations.  Every other module
//! reaches the raw integers through these functions only.

use vstd::prelude::*;
use vstd::arithmetic::power2::pow2;
use vstd::bits::{lemma_usize_shr_is_div, lemma_usize_shl_is_mul, lemma_usize_pow2_no_overflow};
use crate::error::{Error, ErrorCode, fails_with};
use crate::theory::bits::{popcount, bit_at, toggle_bit, flip_pair, lemma_popcount_le};
use crate::theory::orbit::{
    fits, rotate, rotate_by, period_of, is_representative, lemma_rotate_fits, lemma_period,
    lemma_period_unique, lemma_representative_from_cycle,
};

verus! {

/// A single set digit, as the machine computes it, is the matching power of
/// two.
pub proof fn lemma_one_shl(i: usize)
    requires
        i < usize::BITS,
    ensures
        (1usize << i) == pow2(i as nat),
        pow2(i as nat) <= usize::MAX,
{
    lemma_usize_pow2_no_overflow(i as nat);
    lemma_usize_shl_is_mul(1usize, i);
}

/// Shifting down by one position halves a number.
pub proof fn lemma_shr_one(x: usize)
    ensures
        (x >> 1) == x / 2,
{
    assert(x >> 1 == x / 2) by (bit_vector);
}

/// Exclusive-or with a single set digit inverts that digit.
pub proof fn lemma_xor_toggles(x: usize, i: usize)
    requires
        i < usize::BITS,
    ensures
        (x ^ (1usize << i)) == toggle_bit(x as nat, i as nat),
{
    let mask = 1usize << i;
    let d = x >> i;
    lemma_one_shl(i);
    lemma_usize_shr_is_div(x, i);
    assert(d & 1 == d % 2) by (bit_vector);
    assert(bit_at(x as nat, i as nat) == d % 2);
    assert((d & 1 == 1) ==> x >= mask && (x ^ mask) == x - mask) by (bit_vector)
        requires
            i < usize::BITS,
            mask == 1usize << i,
            d == x >> i,
    ;
    assert((d & 1 != 1) ==> (x ^ mask) == x + mask) by (bit_vector)
        requires
            i < usize::BITS,
            mask == 1usize << i,
            d == x >> i,
    ;
}

/// Exclusive-or with two distinct set digits inverts both digits.
pub proof fn lemma_xor_flips_pair(x: usize, i: usize, j: usize)
    requires
        i < usize::BITS,
        j < usize::BITS,
        i != j,
    ensures
        (1usize << i) + (1usize << j) <= usize::MAX,
        (x ^ (((1usize << i) + (1usize << j)) as usize)) == flip_pair(x as nat, i as nat, j as nat),
{
    let a = 1usize << i;
    let b = 1usize << j;
    assert(a & b == 0) by (bit_vector)
        requires
            i < usize::BITS,
            j < usize::BITS,
            i != j,
            a == 1usize << i,
            b == 1usize << j,
    ;
    assert(a & b == 0 ==> a + b == (a | b)) by (bit_vector);
    assert(a & b == 0 ==> x ^ (a | b) == (x ^ a) ^ b) by (bit_vector);
    lemma_xor_toggles(x, i);
    lemma_xor_toggles((x ^ a), j);
}

/// Inverting the same two digits twice gives the number back.
pub proof fn lemma_flip_pair_involution(num: usize, i: usize, j: usize)
    requires
        i < usize::BITS,
        j < usize::BITS,
        i != j,
    ensures
        flip_pair(num as nat, i as nat, j as nat) <= usize::MAX,
        flip_pair(flip_pair(num as nat, i as nat, j as nat), i as nat, j as nat) == num,
{
    let mask = ((1usize << i) + (1usize << j)) as usize;
    let once = num ^ mask;
    lemma_xor_flips_pair(num, i, j);
    lemma_xor_flips_pair(once, i, j);
    assert((num ^ mask) ^ mask == num) by (bit_vector);
}

/// Inverts the digits `i` and `j` of `num`; `Err(InvalidBitIndex)` if one
/// of them is not a site of the chain or if they coincide.
pub fn bit_flip(num: usize, length: usize, i: usize, j: usize) -> (r: Result<usize, Error>)
    requires
        length <= usize::BITS,
    ensures
        (length <= i || length <= j || i == j) ==> fails_with(r, ErrorCode::InvalidBitIndex),
        (i < length && j < length && i != j) ==> r == Ok::<usize, Error>(
            flip_pair(num as nat, i as nat, j as nat) as usize,
        ) && flip_pair(num as nat, i as nat, j as nat) <= usize::MAX,
{
    if length <= i || length <= j || i == j {
        return Err(Error::make_error_syntax(ErrorCode::InvalidBitIndex));
    }
    Ok(bit_flip_unsafe(num, i, j))
}

/// Inverts the digits `i` and `j` of `num` without validating the indices.
pub fn bit_flip_unsafe(num: usize, i: usize, j: usize) -> (flipped: usize)
    requires
        i < usize::BITS,
        j < usize::BITS,
        i != j,
    ensures
        flipped == flip_pair(num as nat, i as nat, j as nat),
{
    proof {
        lemma_xor_flips_pair(num, i, j);
    }
    num ^ ((1usize << i) + (1usize << j))
}

/// The digit of `num` at site `idx`; `Err(InvalidBitIndex)` if `idx` is not
/// a site of the chain.
pub fn pick_bit(num: usize, length: usize, idx: usize) -> (r: Result<usize, Error>)
    requires
        length <= usize::BITS,
    ensures
        length <= idx ==> fails_with(r, ErrorCode::InvalidBitIndex),
        idx < length ==> r == Ok::<usize, Error>(bit_at(num as nat, idx as nat) as usize),
{
    if length <= idx {
        return Err(Error::make_error_syntax(ErrorCode::InvalidBitIndex));
    }
    proof {
        lemma_usize_shr_is_div(num, idx);
    }
    Ok((num >> idx) % 2)
}

/// The number of set digits of `num`.
pub fn sum_bit(num: usize) -> (count: usize)
    ensures
        count == popcount(num as nat),
{
    let mut temp = num;
    let mut count: usize = 0;
    proof {
        lemma_popcount_le(num as nat);
    }
    while temp > 0
        invariant
            count + popcount(temp as nat) == popcount(num as nat),
            popcount(num as nat) <= usize::MAX,
        decreases temp,
    {
        proof {
            lemma_shr_one(temp);
        }
        count += temp % 2;
        temp = temp >> 1;
    }
    count
}

/// Translates `num` by one site; `Err(OverFlow)` if `num` is not a
/// configuration of a chain with `length` sites.
pub fn cyclic_move(num: usize, length: usize) -> (r: Result<usize, Error>)
    requires
        0 < length < usize::BITS,
    ensures
        !fits(num as nat, length as nat) ==> fails_with(r, ErrorCode::OverFlow),
        fits(num as nat, length as nat) ==> r == Ok::<usize, Error>(
            rotate(num as nat, length as nat) as usize,
        ),
{
    proof {
        lemma_one_shl(length);
    }
    if num >= (1usize << length) {
        return Err(Error::make_error_syntax(ErrorCode::OverFlow));
    }
    Ok(cyclic_move_unsafe(num, length))
}

/// Translates `num` by one site without validating it.
pub fn cyclic_move_unsafe(num: usize, length: usize) -> (moved: usize)
    requires
        0 < length < usize::BITS,
        fits(num as nat, length as nat),
    ensures
        moved == rotate(num as nat, length as nat),
        fits(moved as nat, length as nat),
{
    let low: usize = num % 2;
    let shift: usize = length - 1;
    proof {
        lemma_usize_pow2_no_overflow(shift as nat);
        assert(low * pow2(shift as nat) <= pow2(shift as nat)) by (nonlinear_arith)
            requires
                low <= 1,
        ;
        lemma_usize_shl_is_mul(low, shift);
        lemma_shr_one(num);
        lemma_rotate_fits(num as nat, length as nat);
        lemma_usize_pow2_no_overflow(length as nat);
    }
    (num >> 1) + (low << shift)
}

/// The period of `num` under translation; `Err(OverFlow)` if `num` is not a
/// configuration of a chain with `length` sites.
pub fn period(num: usize, length: usize) -> (r: Result<usize, Error>)
    requires
        0 < length < usize::BITS,
    ensures
        !fits(num as nat, length as nat) ==> fails_with(r, ErrorCode::OverFlow),
        fits(num as nat, length as nat) ==> r == Ok::<usize, Error>(
            period_of(num as nat, length as nat) as usize,
        ),
        fits(num as nat, length as nat) ==> {
            let p = period_of(num as nat, length as nat);
            &&& 1 <= p <= length
            &&& length as nat % p == 0
            &&& rotate_by(num as nat, length as nat, p) == num
            &&& forall|q: nat| 1 <= q < p ==> #[trigger] rotate_by(num as nat, length as nat, q) != num
        },
{
    proof {
        lemma_one_shl(length);
    }
    if num >= (1usize << length) {
        return Err(Error::make_error_syntax(ErrorCode::OverFlow));
    }
    proof {
        lemma_period(num as nat, length as nat);
        crate::theory::orbit::lemma_period_divides_length(num as nat, length as nat);
    }
    Ok(period_unsafe(num, length))
}

/// The period of `num` under translation, without validating `num`.
pub fn period_unsafe(num: usize, length: usize) -> (count: usize)
    requires
        0 < length < usize::BITS,
        fits(num as nat, length as nat),
    ensures
        count == period_of(num as nat, length as nat),
        1 <= count <= length,
{
    let mut temp = num;
    let mut count: usize = 0;
    proof {
        lemma_period(num as nat, length as nat);
    }
    loop
        invariant
            0 < length < usize::BITS,
            fits(num as nat, length as nat),
            fits(temp as nat, length as nat),
            count < period_of(num as nat, length as nat) <= length,
            temp == rotate_by(num as nat, length as nat, count as nat),
            forall|q: nat| 1 <= q <= count ==> #[trigger] rotate_by(num as nat, length as nat, q) != num,
        decreases period_of(num as nat, length as nat) - count,
    {
        temp = cyclic_move_unsafe(temp, length);
        count += 1;
        if temp == num {
            proof {
                lemma_period_unique(num as nat, length as nat, count as nat);
            }
            return count;
        }
        proof {
            lemma_period(num as nat, length as nat);
        }
    }
}

/// Whether `num` is the smallest member of its orbit under translation.
pub fn is_rep(num: usize, length: usize) -> (b: bool)
    requires
        0 < length < usize::BITS,
        fits(num as nat, length as nat),
    ensures
        b == is_representative(num as nat, length as nat),
{
    let mut temp = cyclic_move_unsafe(num, length);
    let mut count: usize = 1;
    proof {
        lemma_period(num as nat, length as nat);
        assert(rotate_by(num as nat, length as nat, 0) == num);
        assert(rotate_by(num as nat, length as nat, 1) == rotate(num as nat, length as nat));
    }
    while temp != num
        invariant
            0 < length < usize::BITS,
            fits(num as nat, length as nat),
            fits(temp as nat, length as nat),
            1 <= count <= period_of(num as nat, length as nat) <= length,
            temp == rotate_by(num as nat, length as nat, count as nat),
            forall|q: nat| q < count ==> num <= #[trigger] rotate_by(num as nat, length as nat, q),
        decreases period_of(num as nat, length as nat) - count,
    {
        proof {
            lemma_period(num as nat, length as nat);
        }
        if temp < num {
            return false;
        }
        temp = cyclic_move_unsafe(temp, length);
        count += 1;
    }
    proof {
        lemma_period(num as nat, length as nat);
        lemma_representative_from_cycle(num as nat, length as nat);
    }
    true
}

} // verus!
