//! Finite walks over a configuration.  Each walker is created for one
//! `(num, length)` pair and hands out its items one by one through `next`;
//! its view is the sequence of items it has not handed out yet.

use vstd::prelude::*;
use vstd::arithmetic::power2::{pow2, lemma_pow2_pos, lemma_pow2_adds};
use vstd::arithmetic::div_mod::{lemma_small_mod, lemma_mod_self_0};
use vstd::bits::{lemma_usize_shr_is_div, lemma_usize_shl_is_mul, lemma_usize_pow2_no_overflow};
use crate::error::{Error, ErrorCode, fails_with};
use crate::states::bit_fns::{lemma_one_shl, lemma_shr_one, cyclic_move_unsafe};
use crate::theory::bits::{bit_at, lemma_bit_at_half, lemma_bit_at_zero};
use crate::theory::orbit::{
    fits, rotate, rotate_by, period_of, commensurate, lemma_rotate_bit, lemma_rotate_by_bit,
    lemma_rotate_by_closed_form, lemma_rotate_by_fits, lemma_period,
};
use crate::theory::scan::{
    bits_of, open_pairs, periodic_pairs, periodic_bonds, orbit_of, commensurate_from,
    commensurate_indices,
};

verus! {

/// Walks over the digits of a configuration, site `0` first.
#[derive(Copy, Clone, Debug, Eq, PartialEq, PartialOrd)]
pub struct BitIterator {
    num: usize,
    idx: usize,
    length: usize,
}

impl View for BitIterator {
    type V = Seq<nat>;

    closed spec fn view(&self) -> Seq<nat> {
        Seq::new((self.length - self.idx) as nat, |t: int| bit_at(self.num as nat, t as nat))
    }
}

impl BitIterator {
    #[verifier::type_invariant]
    spec fn inv(self) -> bool {
        self.idx <= self.length
    }

    pub fn new(num: usize, length: usize) -> (r: Result<Self, Error>)
        requires
            length < usize::BITS,
        ensures
            !fits(num as nat, length as nat) ==> fails_with(r, ErrorCode::OverFlow),
            fits(num as nat, length as nat) ==> r is Ok && r->Ok_0@ == bits_of(
                num as nat,
                length as nat,
            ),
    {
        proof {
            lemma_one_shl(length);
        }
        if num >= (1usize << length) {
            return Err(Error::make_error_syntax(ErrorCode::OverFlow));
        }
        let it = Self { num, idx: 0, length };
        assert(it@ =~= bits_of(num as nat, length as nat));
        Ok(it)
    }

    /// Hands out the next digit, or `None` when every site has been visited.
    pub fn next(&mut self) -> (item: Option<usize>)
        ensures
            old(self)@.len() == 0 ==> item is None && final(self)@ == old(self)@,
            old(self)@.len() > 0 ==> item == Some(old(self)@[0] as usize) && final(self)@ == old(
                self,
            )@.skip(1),
    {
        proof {
            use_type_invariant(&*self);
        }
        if self.idx == self.length {
            None
        } else {
            let temp = self.num % 2;
            proof {
                lemma_bit_at_zero(self.num as nat);
                lemma_shr_one(self.num);
                assert forall|t: nat| #[trigger]
                    bit_at((self.num / 2) as nat, t) == bit_at(self.num as nat, t + 1) by {
                    lemma_bit_at_half(self.num as nat, t);
                }
            }
            let ghost before = self@;
            *self = Self { num: self.num >> 1, idx: self.idx + 1, length: self.length };
            assert(self@ =~= before.skip(1));
            Some(temp)
        }
    }
}

/// The digits of two neighbouring sites that a pair walker with lowest
/// pending digit `temp` and remaining digits `num` hands out at step `t`.
pub open spec fn pending_pair(temp: nat, num: nat, t: nat) -> (nat, nat) {
    (
        if t == 0 {
            temp
        } else {
            bit_at(num, (t - 1) as nat)
        },
        bit_at(num, t),
    )
}

/// Dropping the lowest digit of `num` advances a pair walker by one step.
proof fn lemma_pending_pair_advance(temp: nat, num: nat, t: nat)
    ensures
        pending_pair(num % 2, num / 2, t) == pending_pair(temp, num, t + 1),
{
    lemma_bit_at_zero(num);
    lemma_bit_at_half(num, t);
    if t > 0 {
        lemma_bit_at_half(num, (t - 1) as nat);
    }
}

/// Walks over the digits of neighbouring sites `(i, i + 1)` of an open
/// chain.
#[derive(Copy, Clone, Debug, Eq, PartialEq, PartialOrd)]
pub struct PairIterator {
    num: usize,
    temp: usize,
    idx: usize,
    length: usize,
}

impl View for PairIterator {
    type V = Seq<(nat, nat)>;

    closed spec fn view(&self) -> Seq<(nat, nat)> {
        Seq::new(
            (self.length - self.idx) as nat,
            |t: int| pending_pair(self.temp as nat, self.num as nat, t as nat),
        )
    }
}

impl PairIterator {
    #[verifier::type_invariant]
    spec fn inv(self) -> bool {
        self.idx <= self.length
    }

    pub fn new(num: usize, length: usize) -> (r: Result<Self, Error>)
        requires
            0 < length < usize::BITS,
        ensures
            !fits(num as nat, length as nat) ==> fails_with(r, ErrorCode::OverFlow),
            fits(num as nat, length as nat) ==> r is Ok && r->Ok_0@ == open_pairs(
                num as nat,
                length as nat,
            ),
    {
        proof {
            lemma_one_shl(length);
        }
        if num >= (1usize << length) {
            return Err(Error::make_error_syntax(ErrorCode::OverFlow));
        }
        proof {
            lemma_shr_one(num);
        }
        let it = Self { num: num >> 1, temp: num % 2, idx: 0, length: length - 1 };
        proof {
            assert forall|t: int| 0 <= t < length - 1 implies it@[t] == open_pairs(
                num as nat,
                length as nat,
            )[t] by {
                lemma_bit_at_zero(num as nat);
                lemma_bit_at_half(num as nat, t as nat);
                if t > 0 {
                    lemma_bit_at_half(num as nat, (t - 1) as nat);
                }
            }
            assert(it@ =~= open_pairs(num as nat, length as nat));
        }
        Ok(it)
    }

    /// Hands out the next pair, or `None` when every bond has been visited.
    pub fn next(&mut self) -> (item: Option<(usize, usize)>)
        ensures
            old(self)@.len() == 0 ==> item is None && final(self)@ == old(self)@,
            old(self)@.len() > 0 ==> item == Some(
                (old(self)@[0].0 as usize, old(self)@[0].1 as usize),
            ) && final(self)@ == old(self)@.skip(1),
    {
        proof {
            use_type_invariant(&*self);
        }
        if self.idx == self.length {
            None
        } else {
            let result = (self.temp, self.num % 2);
            let ghost before = self@;
            let ghost temp = self.temp as nat;
            let ghost num = self.num as nat;
            proof {
                lemma_bit_at_zero(num);
                lemma_shr_one(self.num);
            }
            *self = Self {
                num: self.num >> 1,
                temp: self.num % 2,
                idx: self.idx + 1,
                length: self.length,
            };
            proof {
                assert forall|t: int| 0 <= t < self@.len() implies self@[t] == before.skip(1)[t] by {
                    lemma_pending_pair_advance(temp, num, t as nat);
                }
                assert(self@ =~= before.skip(1));
            }
            Some(result)
        }
    }
}

/// Walks over the digits of neighbouring sites `(i, i + 1)` of a periodic
/// chain; the last pair joins the last site with site `0`.
#[derive(Copy, Clone, Debug, Eq, PartialEq, PartialOrd)]
pub struct PeriodicPairIterator {
    num: usize,
    temp: usize,
    idx: usize,
    length: usize,
}

impl View for PeriodicPairIterator {
    type V = Seq<(nat, nat)>;

    closed spec fn view(&self) -> Seq<(nat, nat)> {
        Seq::new(
            (self.length - self.idx) as nat,
            |t: int| pending_pair(self.temp as nat, self.num as nat, t as nat),
        )
    }
}

/// The pairs that a walker started on the translated configuration hands
/// out are the neighbouring pairs of the periodic chain.
proof fn lemma_periodic_start(num: nat, length: nat, t: nat)
    requires
        length >= 1,
        fits(num, length),
        t < length,
    ensures
        pending_pair(num % 2, rotate(num, length), t) == (
            bit_at(num, t),
            bit_at(num, (t + 1) % length),
        ),
{
    lemma_bit_at_zero(num);
    lemma_rotate_bit(num, length, t);
    if t > 0 {
        lemma_rotate_bit(num, length, (t - 1) as nat);
        lemma_small_mod(t, length);
    }
}

impl PeriodicPairIterator {
    #[verifier::type_invariant]
    spec fn inv(self) -> bool {
        self.idx <= self.length
    }

    pub fn new(num: usize, length: usize) -> (r: Result<Self, Error>)
        requires
            0 < length < usize::BITS,
        ensures
            !fits(num as nat, length as nat) ==> fails_with(r, ErrorCode::OverFlow),
            fits(num as nat, length as nat) ==> r is Ok && r->Ok_0@ == periodic_pairs(
                num as nat,
                length as nat,
                1,
            ),
    {
        proof {
            lemma_one_shl(length);
        }
        if num >= (1usize << length) {
            return Err(Error::make_error_syntax(ErrorCode::OverFlow));
        }
        let it = Self { num: cyclic_move_unsafe(num, length), temp: num % 2, idx: 0, length };
        proof {
            assert forall|t: int| 0 <= t < length implies it@[t] == periodic_pairs(
                num as nat,
                length as nat,
                1,
            )[t] by {
                lemma_periodic_start(num as nat, length as nat, t as nat);
            }
            assert(it@ =~= periodic_pairs(num as nat, length as nat, 1));
        }
        Ok(it)
    }

    /// Hands out the next pair, or `None` when every bond has been visited.
    pub fn next(&mut self) -> (item: Option<(usize, usize)>)
        ensures
            old(self)@.len() == 0 ==> item is None && final(self)@ == old(self)@,
            old(self)@.len() > 0 ==> item == Some(
                (old(self)@[0].0 as usize, old(self)@[0].1 as usize),
            ) && final(self)@ == old(self)@.skip(1),
    {
        proof {
            use_type_invariant(&*self);
        }
        if self.idx == self.length {
            None
        } else {
            let result = (self.temp, self.num % 2);
            let ghost before = self@;
            let ghost temp = self.temp as nat;
            let ghost num = self.num as nat;
            proof {
                lemma_bit_at_zero(num);
                lemma_shr_one(self.num);
            }
            *self = Self {
                num: self.num >> 1,
                temp: self.num % 2,
                idx: self.idx + 1,
                length: self.length,
            };
            proof {
                assert forall|t: int| 0 <= t < self@.len() implies self@[t] == before.skip(1)[t] by {
                    lemma_pending_pair_advance(temp, num, t as nat);
                }
                assert(self@ =~= before.skip(1));
            }
            Some(result)
        }
    }
}

/// As [`PeriodicPairIterator`], each digit together with its site.
#[derive(Copy, Clone, Debug, Eq, PartialEq, PartialOrd)]
pub struct PeriodicPairEnumerator {
    num: usize,
    temp: usize,
    idx: usize,
    length: usize,
}

impl View for PeriodicPairEnumerator {
    type V = Seq<((nat, nat), (nat, nat))>;

    closed spec fn view(&self) -> Seq<((nat, nat), (nat, nat))> {
        Seq::new(
            (self.length - self.idx) as nat,
            |t: int|
                {
                    let pair = pending_pair(self.temp as nat, self.num as nat, t as nat);
                    (
                        ((self.idx + t) as nat, pair.0),
                        (((self.idx + t + 1) % (self.length as int)) as nat, pair.1),
                    )
                },
        )
    }
}

impl PeriodicPairEnumerator {
    #[verifier::type_invariant]
    spec fn inv(self) -> bool {
        self.idx <= self.length
    }

    pub fn new(num: usize, length: usize) -> (r: Result<Self, Error>)
        requires
            0 < length < usize::BITS,
        ensures
            !fits(num as nat, length as nat) ==> fails_with(r, ErrorCode::OverFlow),
            fits(num as nat, length as nat) ==> r is Ok && r->Ok_0@ == periodic_bonds(
                num as nat,
                length as nat,
                1,
            ),
    {
        proof {
            lemma_one_shl(length);
        }
        if num >= (1usize << length) {
            return Err(Error::make_error_syntax(ErrorCode::OverFlow));
        }
        let it = Self { num: cyclic_move_unsafe(num, length), temp: num % 2, idx: 0, length };
        proof {
            assert forall|t: int| 0 <= t < length implies it@[t] == periodic_bonds(
                num as nat,
                length as nat,
                1,
            )[t] by {
                lemma_periodic_start(num as nat, length as nat, t as nat);
            }
            assert(it@ =~= periodic_bonds(num as nat, length as nat, 1));
        }
        Ok(it)
    }

    /// Hands out the next bond, or `None` when every bond has been visited.
    pub fn next(&mut self) -> (item: Option<((usize, usize), (usize, usize))>)
        ensures
            old(self)@.len() == 0 ==> item is None && final(self)@ == old(self)@,
            old(self)@.len() > 0 ==> item == Some(
                (
                    (old(self)@[0].0.0 as usize, old(self)@[0].0.1 as usize),
                    (old(self)@[0].1.0 as usize, old(self)@[0].1.1 as usize),
                ),
            ) && final(self)@ == old(self)@.skip(1),
    {
        proof {
            use_type_invariant(&*self);
        }
        let ghost before = self@;
        let ghost temp = self.temp as nat;
        let ghost num = self.num as nat;
        proof {
            lemma_bit_at_zero(num);
        }
        if self.idx == self.length {
            None
        } else if self.idx == self.length - 1 {
            let result = ((self.idx, self.temp), (0, self.num % 2));
            proof {
                lemma_mod_self_0(self.length as int);
            }
            *self = Self { num: self.num, temp: self.temp, idx: self.idx + 1, length: self.length };
            assert(self@ =~= before.skip(1));
            Some(result)
        } else {
            let result = ((self.idx, self.temp), (self.idx + 1, self.num % 2));
            proof {
                lemma_small_mod((self.idx + 1) as nat, self.length as nat);
                lemma_shr_one(self.num);
            }
            *self = Self {
                num: self.num >> 1,
                temp: self.num % 2,
                idx: self.idx + 1,
                length: self.length,
            };
            proof {
                assert forall|t: int| 0 <= t < self@.len() implies self@[t] == before.skip(1)[t] by {
                    lemma_pending_pair_advance(temp, num, t as nat);
                }
                assert(self@ =~= before.skip(1));
            }
            Some(result)
        }
    }
}

/// Translates a configuration by `dist` sites at once.
fn cyclic_move_by(num: usize, length: usize, dist: usize) -> (moved: usize)
    requires
        length < usize::BITS,
        dist < length,
        fits(num as nat, length as nat),
    ensures
        moved == rotate_by(num as nat, length as nat, dist as nat),
        fits(moved as nat, length as nat),
{
    let up: usize = length - dist;
    proof {
        lemma_one_shl(dist);
        lemma_pow2_pos(dist as nat);
        lemma_usize_shr_is_div(num, dist);
    }
    let low: usize = num % (1usize << dist);
    proof {
        let d = pow2(dist as nat);
        let u = pow2(up as nat);
        lemma_pow2_adds(dist as nat, up as nat);
        lemma_usize_pow2_no_overflow(length as nat);
        lemma_pow2_pos(up as nat);
        assert(low * u < d * u) by (nonlinear_arith)
            requires
                low < d,
                u > 0,
        ;
        lemma_usize_shl_is_mul(low, up);
        lemma_rotate_by_closed_form(num as nat, length as nat, dist as nat);
        lemma_rotate_by_fits(num as nat, length as nat, dist as nat);
    }
    (num >> dist) + (low << up)
}

/// Walks over the digits of the sites `(i, i + dist)` of a periodic chain,
/// for every site `i`.
#[derive(Copy, Clone, Debug, Eq, PartialEq, PartialOrd)]
pub struct PeriodicDistancedPairIterator {
    num1: usize,
    num2: usize,
    idx: usize,
    length: usize,
    dist: usize,
}

impl View for PeriodicDistancedPairIterator {
    type V = Seq<(nat, nat)>;

    closed spec fn view(&self) -> Seq<(nat, nat)> {
        Seq::new(
            (self.length - self.idx) as nat,
            |t: int| (bit_at(self.num1 as nat, t as nat), bit_at(self.num2 as nat, t as nat)),
        )
    }
}

impl PeriodicDistancedPairIterator {
    #[verifier::type_invariant]
    spec fn inv(self) -> bool {
        self.idx <= self.length
    }

    pub fn new(num: usize, length: usize, dist: usize) -> (r: Result<Self, Error>)
        requires
            length < usize::BITS,
        ensures
            (!fits(num as nat, length as nat) || dist >= length) ==> fails_with(
                r,
                ErrorCode::OverFlow,
            ),
            (fits(num as nat, length as nat) && dist < length) ==> r is Ok && r->Ok_0@
                == periodic_pairs(num as nat, length as nat, dist as nat),
    {
        proof {
            lemma_one_shl(length);
        }
        if num >= (1usize << length) || dist >= length {
            return Err(Error::make_error_syntax(ErrorCode::OverFlow));
        }
        let it = Self { num1: num, num2: cyclic_move_by(num, length, dist), idx: 0, length, dist };
        proof {
            assert forall|t: int| 0 <= t < length implies it@[t] == periodic_pairs(
                num as nat,
                length as nat,
                dist as nat,
            )[t] by {
                lemma_rotate_by_bit(num as nat, length as nat, dist as nat, t as nat);
            }
            assert(it@ =~= periodic_pairs(num as nat, length as nat, dist as nat));
        }
        Ok(it)
    }

    /// Hands out the next pair, or `None` when every site has been visited.
    pub fn next(&mut self) -> (item: Option<(usize, usize)>)
        ensures
            old(self)@.len() == 0 ==> item is None && final(self)@ == old(self)@,
            old(self)@.len() > 0 ==> item == Some(
                (old(self)@[0].0 as usize, old(self)@[0].1 as usize),
            ) && final(self)@ == old(self)@.skip(1),
    {
        proof {
            use_type_invariant(&*self);
        }
        if self.idx == self.length {
            None
        } else {
            let result = (self.num1 % 2, self.num2 % 2);
            let ghost before = self@;
            let ghost num1 = self.num1 as nat;
            let ghost num2 = self.num2 as nat;
            proof {
                lemma_bit_at_zero(num1);
                lemma_bit_at_zero(num2);
                lemma_shr_one(self.num1);
                lemma_shr_one(self.num2);
            }
            *self = Self {
                num1: self.num1 >> 1,
                num2: self.num2 >> 1,
                idx: self.idx + 1,
                length: self.length,
                dist: self.dist,
            };
            proof {
                assert forall|t: int| 0 <= t < self@.len() implies self@[t] == before.skip(1)[t] by {
                    lemma_bit_at_half(num1, t as nat);
                    lemma_bit_at_half(num2, t as nat);
                }
                assert(self@ =~= before.skip(1));
            }
            Some(result)
        }
    }
}

/// As [`PeriodicDistancedPairIterator`], each digit together with its site.
#[derive(Copy, Clone, Debug, Eq, PartialEq, PartialOrd)]
pub struct PeriodicDistancedPairEnumerator {
    num1: usize,
    num2: usize,
    idx: usize,
    length: usize,
    dist: usize,
}

impl View for PeriodicDistancedPairEnumerator {
    type V = Seq<((nat, nat), (nat, nat))>;

    closed spec fn view(&self) -> Seq<((nat, nat), (nat, nat))> {
        Seq::new(
            (self.length - self.idx) as nat,
            |t: int|
                (
                    ((self.idx + t) as nat, bit_at(self.num1 as nat, t as nat)),
                    (
                        ((self.idx + t + self.dist) % (self.length as int)) as nat,
                        bit_at(self.num2 as nat, t as nat),
                    ),
                ),
        )
    }
}

impl PeriodicDistancedPairEnumerator {
    #[verifier::type_invariant]
    spec fn inv(self) -> bool {
        self.idx <= self.length && self.dist < self.length && self.length < usize::BITS
    }

    pub fn new(num: usize, length: usize, dist: usize) -> (r: Result<Self, Error>)
        requires
            length < usize::BITS,
        ensures
            (!fits(num as nat, length as nat) || dist >= length) ==> fails_with(
                r,
                ErrorCode::OverFlow,
            ),
            (fits(num as nat, length as nat) && dist < length) ==> r is Ok && r->Ok_0@
                == periodic_bonds(num as nat, length as nat, dist as nat),
    {
        proof {
            lemma_one_shl(length);
        }
        if num >= (1usize << length) || dist >= length {
            return Err(Error::make_error_syntax(ErrorCode::OverFlow));
        }
        let it = Self { num1: num, num2: cyclic_move_by(num, length, dist), idx: 0, length, dist };
        proof {
            assert forall|t: int| 0 <= t < length implies it@[t] == periodic_bonds(
                num as nat,
                length as nat,
                dist as nat,
            )[t] by {
                lemma_rotate_by_bit(num as nat, length as nat, dist as nat, t as nat);
            }
            assert(it@ =~= periodic_bonds(num as nat, length as nat, dist as nat));
        }
        Ok(it)
    }

    /// Hands out the next bond, or `None` when every site has been visited.
    pub fn next(&mut self) -> (item: Option<((usize, usize), (usize, usize))>)
        ensures
            old(self)@.len() == 0 ==> item is None && final(self)@ == old(self)@,
            old(self)@.len() > 0 ==> item == Some(
                (
                    (old(self)@[0].0.0 as usize, old(self)@[0].0.1 as usize),
                    (old(self)@[0].1.0 as usize, old(self)@[0].1.1 as usize),
                ),
            ) && final(self)@ == old(self)@.skip(1),
    {
        proof {
            use_type_invariant(&*self);
        }
        if self.idx == self.length {
            None
        } else {
            let result = (
                (self.idx, self.num1 % 2),
                ((self.idx + self.dist) % self.length, self.num2 % 2),
            );
            let ghost before = self@;
            let ghost num1 = self.num1 as nat;
            let ghost num2 = self.num2 as nat;
            proof {
                lemma_bit_at_zero(num1);
                lemma_bit_at_zero(num2);
                lemma_shr_one(self.num1);
                lemma_shr_one(self.num2);
            }
            *self = Self {
                num1: self.num1 >> 1,
                num2: self.num2 >> 1,
                idx: self.idx + 1,
                length: self.length,
                dist: self.dist,
            };
            proof {
                assert forall|t: int| 0 <= t < self@.len() implies self@[t] == before.skip(1)[t] by {
                    lemma_bit_at_half(num1, t as nat);
                    lemma_bit_at_half(num2, t as nat);
                }
                assert(self@ =~= before.skip(1));
            }
            Some(result)
        }
    }
}

/// Walks over the orbit of a configuration under translation, starting
/// with the configuration itself and stopping before it would come back.
#[derive(Copy, Clone, Debug, Eq, PartialEq, PartialOrd)]
pub struct CycleIterator {
    start: usize,
    num: usize,
    idx: usize,
    length: usize,
}

impl View for CycleIterator {
    type V = Seq<nat>;

    closed spec fn view(&self) -> Seq<nat> {
        Seq::new(
            (period_of(self.start as nat, self.length as nat) - self.idx) as nat,
            |t: int| rotate_by(self.start as nat, self.length as nat, (self.idx + t) as nat),
        )
    }
}

impl CycleIterator {
    #[verifier::type_invariant]
    spec fn inv(self) -> bool {
        &&& 0 < self.length < usize::BITS
        &&& fits(self.start as nat, self.length as nat)
        &&& self.idx <= period_of(self.start as nat, self.length as nat)
        &&& self.num == rotate_by(self.start as nat, self.length as nat, self.idx as nat)
    }

    pub fn new(num: usize, length: usize) -> (r: Result<Self, Error>)
        requires
            0 < length < usize::BITS,
        ensures
            !fits(num as nat, length as nat) ==> fails_with(r, ErrorCode::OverFlow),
            fits(num as nat, length as nat) ==> r is Ok && r->Ok_0@ == orbit_of(
                num as nat,
                length as nat,
            ),
    {
        proof {
            lemma_one_shl(length);
        }
        if num >= (1usize << length) {
            return Err(Error::make_error_syntax(ErrorCode::OverFlow));
        }
        let it = Self { start: num, num, idx: 0, length };
        assert(it@ =~= orbit_of(num as nat, length as nat));
        Ok(it)
    }

    /// Hands out the next member of the orbit, or `None` when the orbit is
    /// complete.
    pub fn next(&mut self) -> (item: Option<usize>)
        ensures
            old(self)@.len() == 0 ==> item is None && final(self)@ == old(self)@,
            old(self)@.len() > 0 ==> item == Some(old(self)@[0] as usize) && final(self)@ == old(
                self,
            )@.skip(1),
    {
        proof {
            use_type_invariant(&*self);
            lemma_period(self.start as nat, self.length as nat);
            lemma_rotate_by_fits(self.start as nat, self.length as nat, self.idx as nat);
        }
        let ghost before = self@;
        if self.idx == 0 {
            let moved = cyclic_move_unsafe(self.num, self.length);
            *self = Self { start: self.start, num: moved, idx: 1, length: self.length };
            assert(self@ =~= before.skip(1));
            Some(self.start)
        } else if self.idx == self.length || self.start == self.num {
            None
        } else {
            let result = self.num;
            let moved = cyclic_move_unsafe(self.num, self.length);
            *self = Self { start: self.start, num: moved, idx: self.idx + 1, length: self.length };
            assert(self@ =~= before.skip(1));
            Some(result)
        }
    }
}

/// Walks over the momentum indices of a chain that are compatible with an
/// orbit of a given period, in increasing order.
#[derive(Copy, Clone, Debug, Eq, PartialEq, PartialOrd)]
pub struct CommenIterator {
    current: usize,
    period: usize,
    length: usize,
}

impl View for CommenIterator {
    type V = Seq<nat>;

    closed spec fn view(&self) -> Seq<nat> {
        commensurate_from(self.period as nat, self.length as nat, self.current as nat)
    }
}

impl CommenIterator {
    pub fn new(period: usize, length: usize) -> (it: Self)
        ensures
            it@ == commensurate_indices(period as nat, length as nat),
    {
        Self { current: 0, period, length }
    }

    /// Hands out the next compatible index, or `None` when there is none
    /// left below the chain length.
    pub fn next(&mut self) -> (item: Option<usize>)
        ensures
            old(self)@.len() == 0 ==> item is None && final(self)@ == old(self)@,
            old(self)@.len() > 0 ==> item == Some(old(self)@[0] as usize) && final(self)@ == old(
                self,
            )@.skip(1),
    {
        let mut num = self.current;
        while num < self.length
            invariant
                self.current <= num,
                *self == *old(self),
                commensurate_from(self.period as nat, self.length as nat, num as nat) == self@,
            decreases self.length - num,
        {
            if is_commensurate(num, self.period, self.length) {
                let ghost before = self@;
                self.current = num + 1;
                assert(self@ =~= before.skip(1));
                return Some(num);
            }
            num += 1;
        }
        None
    }
}

/// Whether the momentum index `k` is compatible with an orbit of period
/// `period` on a chain with `length` sites.
pub fn is_commensurate(k: usize, period: usize, length: usize) -> (b: bool)
    requires
        length > 0,
    ensures
        b == commensurate(k as nat, period as nat, length as nat),
{
    let wide_k: u128 = k as u128;
    let wide_period: u128 = period as u128;
    assert(wide_k * wide_period <= u128::MAX) by (nonlinear_arith)
        requires
            wide_k <= 0xffff_ffff_ffff_ffff,
            wide_period <= 0xffff_ffff_ffff_ffff,
    ;
    (wide_k * wide_period) % (length as u128) == 0
}

} // verus!
