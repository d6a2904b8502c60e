//! Spin configurations and the states built from them.

use vstd::prelude::*;
use vstd::std_specs::cmp::PartialEqSpecImpl;
use fnv::FnvHashMap;
use crate::error::{Error, ErrorCode, fails_with};
use crate::states::bit_fns::{sum_bit, period_unsafe, cyclic_move_unsafe, bit_flip, pick_bit, is_rep};
use crate::states::representation::Representation;
use crate::tables::table_get;
use crate::theory::bits::{bit_at, flip_pair};
use crate::theory::orbit::{
    orbit_min, lemma_period, lemma_rotate_by_mod, lemma_orbit_min, lemma_orbit_min_unique,
};
use crate::states::iterator::{
    BitIterator, PairIterator, PeriodicPairIterator, PeriodicPairEnumerator,
    PeriodicDistancedPairIterator, PeriodicDistancedPairEnumerator, CycleIterator,
};
use crate::states::symmetry::{EigenValue, EmptyValue};
use crate::theory::bits::popcount;
use crate::theory::orbit::{fits, rotate, rotate_by, period_of, is_representative};
use crate::theory::scan::{bits_of, open_pairs, periodic_pairs, periodic_bonds, orbit_of};

pub mod bit_fns;
pub mod iterator;
pub mod symmetry;
pub mod representation;
pub mod number;
pub mod momentum;

verus! {

/// `rep` is a configuration of a chain with `length` sites, and the machine
/// can hold every configuration of that chain.
pub open spec fn fits_chain(rep: usize, length: usize) -> bool {
    &&& 0 < length < usize::BITS
    &&& fits(rep as nat, length as nat)
}

/// A state of the chain that is labelled by a quantum number of type `T`
/// and stands for the orbit of one configuration.
pub trait State<T: EigenValue> {
    /// The configuration that stands for the state.
    spec fn rep_of(&self) -> usize;

    /// The number of sites of the chain.
    spec fn length_of(&self) -> usize;

    /// The quantum number of the state.
    spec fn value_of(&self) -> T;

    /// The position of a configuration within the state, if it occurs.
    spec fn where_of(&self, num: usize) -> Option<usize>;

    fn rep(&self) -> (r: usize)
        ensures
            r == self.rep_of(),
    ;

    fn length(&self) -> (l: usize)
        ensures
            l == self.length_of(),
    ;

    fn value(&self) -> (v: T)
        ensures
            v == self.value_of(),
    ;

    fn where_is(&self, num: usize) -> (position: Option<usize>)
        ensures
            position == self.where_of(num),
    ;

    /// The number of set sites of the configuration.
    fn bit_sum(&self) -> (sum: usize)
        requires
            fits_chain(self.rep_of(), self.length_of()),
        ensures
            sum == popcount(self.rep_of() as nat),
    {
        sum_bit(self.rep())
    }

    /// The period of the configuration under translation.
    fn period(&self) -> (p: usize)
        requires
            fits_chain(self.rep_of(), self.length_of()),
        ensures
            p == period_of(self.rep_of() as nat, self.length_of() as nat),
    {
        period_unsafe(self.rep(), self.length())
    }

    /// A walk over the digits of the configuration.
    fn bit_iter(&self) -> (it: BitIterator)
        requires
            fits_chain(self.rep_of(), self.length_of()),
        ensures
            it@ == bits_of(self.rep_of() as nat, self.length_of() as nat),
    {
        BitIterator::new(self.rep(), self.length()).unwrap()
    }

    /// A walk over the neighbouring pairs of the open chain.
    fn pair_iter(&self) -> (it: PairIterator)
        requires
            fits_chain(self.rep_of(), self.length_of()),
        ensures
            it@ == open_pairs(self.rep_of() as nat, self.length_of() as nat),
    {
        PairIterator::new(self.rep(), self.length()).unwrap()
    }

    /// A walk over the neighbouring pairs of the periodic chain.
    fn periodic_pair_iter(&self) -> (it: PeriodicPairIterator)
        requires
            fits_chain(self.rep_of(), self.length_of()),
        ensures
            it@ == periodic_pairs(self.rep_of() as nat, self.length_of() as nat, 1),
    {
        PeriodicPairIterator::new(self.rep(), self.length()).unwrap()
    }

    /// A walk over the neighbouring pairs of the periodic chain, with
    /// their sites.
    fn periodic_pair_enumerate(&self) -> (it: PeriodicPairEnumerator)
        requires
            fits_chain(self.rep_of(), self.length_of()),
        ensures
            it@ == periodic_bonds(self.rep_of() as nat, self.length_of() as nat, 1),
    {
        PeriodicPairEnumerator::new(self.rep(), self.length()).unwrap()
    }

    /// A walk over the pairs of sites at distance `dist` of the periodic
    /// chain.
    fn periodic_distanced_pair_iter(&self, dist: usize) -> (it: PeriodicDistancedPairIterator)
        requires
            fits_chain(self.rep_of(), self.length_of()),
            dist < self.length_of(),
        ensures
            it@ == periodic_pairs(self.rep_of() as nat, self.length_of() as nat, dist as nat),
    {
        PeriodicDistancedPairIterator::new(self.rep(), self.length(), dist).unwrap()
    }

    /// A walk over the pairs of sites at distance `dist` of the periodic
    /// chain, with their sites.
    fn periodic_distanced_pair_enumerate(&self, dist: usize) -> (it:
        PeriodicDistancedPairEnumerator)
        requires
            fits_chain(self.rep_of(), self.length_of()),
            dist < self.length_of(),
        ensures
            it@ == periodic_bonds(self.rep_of() as nat, self.length_of() as nat, dist as nat),
    {
        PeriodicDistancedPairEnumerator::new(self.rep(), self.length(), dist).unwrap()
    }

    /// A walk over the orbit of the configuration.
    fn cycle_iter(&self) -> (it: CycleIterator)
        requires
            fits_chain(self.rep_of(), self.length_of()),
        ensures
            it@ == orbit_of(self.rep_of() as nat, self.length_of() as nat),
    {
        CycleIterator::new(self.rep(), self.length()).unwrap()
    }
}

impl State<EmptyValue> for (usize, usize) {
    open spec fn rep_of(&self) -> usize {
        self.0
    }

    open spec fn length_of(&self) -> usize {
        self.1
    }

    open spec fn value_of(&self) -> EmptyValue {
        EmptyValue()
    }

    open spec fn where_of(&self, num: usize) -> Option<usize> {
        if self.0 == num {
            Some(0usize)
        } else {
            None
        }
    }

    fn rep(&self) -> (r: usize) {
        self.0
    }

    fn length(&self) -> (l: usize) {
        self.1
    }

    fn value(&self) -> (v: EmptyValue) {
        EmptyValue()
    }

    fn where_is(&self, num: usize) -> (position: Option<usize>) {
        if self.0 == num {
            Some(0)
        } else {
            None
        }
    }
}

/// A single configuration of a chain.
#[derive(Copy, Clone, Debug, Eq, PartialEq, PartialOrd, Hash, Structural)]
pub struct SimpleState {
    pub rep: usize,
    pub length: usize,
}

impl SimpleState {
    /// The configuration lies on its chain, and the machine can hold every
    /// configuration of that chain.
    pub open spec fn wf(&self) -> bool {
        fits_chain(self.rep, self.length)
    }

    pub fn new(rep: usize, length: usize) -> (s: Self)
        requires
            length < usize::BITS,
            fits(rep as nat, length as nat),
        ensures
            s.rep == rep,
            s.length == length,
    {
        Self { rep, length }
    }

    /// The period of the configuration under translation.
    pub fn period(&self) -> (p: usize)
        requires
            self.wf(),
        ensures
            p == period_of(self.rep as nat, self.length as nat),
    {
        period_unsafe(self.rep, self.length)
    }

    /// Whether the configuration is the smallest of its orbit.
    pub fn is_rep(&self) -> (b: bool)
        requires
            self.wf(),
        ensures
            b == is_representative(self.rep as nat, self.length as nat),
    {
        is_rep(self.rep, self.length)
    }

    /// The smallest configuration of the orbit, and the period.
    pub fn find_representative(&self) -> (found: (Self, usize))
        requires
            self.wf(),
        ensures
            found.0.length == self.length,
            found.0.rep == orbit_min(self.rep as nat, self.length as nat),
            found.0.wf(),
            is_representative(found.0.rep as nat, self.length as nat),
            found.1 == period_of(self.rep as nat, self.length as nat),
    {
        let ghost n = self.rep as nat;
        let ghost length = self.length as nat;
        let mut period: usize = 1;
        let mut min = self.rep;
        let mut temp = cyclic_move_unsafe(self.rep, self.length);
        let ghost mut at: nat = 0;
        proof {
            lemma_period(n, length);
            assert(rotate_by(n, length, 0) == n);
            assert(rotate_by(n, length, 1) == rotate(n, length));
        }
        while temp != self.rep
            invariant
                self.wf(),
                n == self.rep,
                length == self.length,
                fits(temp as nat, length),
                1 <= period <= period_of(n, length) <= length,
                temp == rotate_by(n, length, period as nat),
                at < period,
                rotate_by(n, length, at) == min,
                forall|q: nat| q < period ==> min <= #[trigger] rotate_by(n, length, q),
            decreases period_of(n, length) - period,
        {
            proof {
                lemma_period(n, length);
            }
            if temp < min {
                min = temp;
                proof {
                    at = period as nat;
                }
            }
            temp = cyclic_move_unsafe(temp, self.length);
            period += 1;
        }
        proof {
            lemma_period(n, length);
            let p = period_of(n, length);
            assert(period == p);
            assert forall|k: nat| min <= #[trigger] rotate_by(n, length, k) by {
                lemma_rotate_by_mod(n, length, p, k);
                assert(k % p < p);
            }
            lemma_orbit_min_unique(n, length, min as nat, at);
            lemma_orbit_min(n, length);
        }
        (Self { rep: min, length: self.length }, period)
    }

    /// The number of translations that lead from this configuration to
    /// `rep`, if `rep` lies on its orbit.
    pub fn way_to_representative(&self, rep: usize) -> (way: Option<usize>)
        requires
            self.wf(),
        ensures
            way is Some ==> way->Some_0 < period_of(self.rep as nat, self.length as nat)
                && rotate_by(self.rep as nat, self.length as nat, way->Some_0 as nat) == rep,
            way is None ==> forall|k: nat|
                #[trigger] rotate_by(self.rep as nat, self.length as nat, k) != rep,
    {
        let ghost n = self.rep as nat;
        let ghost length = self.length as nat;
        let mut i: usize = 0;
        let mut temp = self.rep;
        proof {
            lemma_period(n, length);
        }
        loop
            invariant
                self.wf(),
                n == self.rep,
                length == self.length,
                fits(temp as nat, length),
                i < period_of(n, length) <= length,
                temp == rotate_by(n, length, i as nat),
                forall|q: nat| q < i ==> #[trigger] rotate_by(n, length, q) != rep,
            decreases period_of(n, length) - i,
        {
            if temp == rep {
                return Some(i);
            }
            temp = cyclic_move_unsafe(temp, self.length);
            i += 1;
            assert(temp == rotate_by(n, length, i as nat));
            if temp == self.rep {
                proof {
                    lemma_period(n, length);
                    let p = period_of(n, length);
                    assert(i == p);
                    assert forall|k: nat| #[trigger] rotate_by(n, length, k) != rep by {
                        lemma_rotate_by_mod(n, length, p, k);
                        assert(k % p < p);
                    }
                }
                return None;
            }
            proof {
                lemma_period(n, length);
            }
        }
    }

    /// The configuration with the digits `i` and `j` inverted.
    pub fn bit_flip(&self, i: usize, j: usize) -> (r: Result<Self, Error>)
        requires
            self.length <= usize::BITS,
        ensures
            (self.length <= i || self.length <= j || i == j) ==> fails_with(
                r,
                ErrorCode::InvalidBitIndex,
            ),
            (i < self.length && j < self.length && i != j) ==> r is Ok && r->Ok_0.length
                == self.length && r->Ok_0.rep == flip_pair(self.rep as nat, i as nat, j as nat),
    {
        match bit_flip(self.rep, self.length, i, j) {
            Ok(x) => Ok(Self { rep: x, length: self.length }),
            Err(e) => Err(e),
        }
    }

    /// Inverts the digits `i` and `j` in place.
    pub fn bit_flip_mut(&mut self, i: usize, j: usize)
        requires
            old(self).length <= usize::BITS,
            i < old(self).length,
            j < old(self).length,
            i != j,
        ensures
            final(self).length == old(self).length,
            final(self).rep == flip_pair(old(self).rep as nat, i as nat, j as nat),
    {
        match bit_flip(self.rep, self.length, i, j) {
            Ok(x) => {
                self.rep = x;
            },
            Err(_) => {},
        }
    }

    /// The digit at site `idx`.
    pub fn pick_bit(&self, idx: usize) -> (r: Result<usize, Error>)
        requires
            self.length <= usize::BITS,
        ensures
            self.length <= idx ==> fails_with(r, ErrorCode::InvalidBitIndex),
            idx < self.length ==> r == Ok::<usize, Error>(
                bit_at(self.rep as nat, idx as nat) as usize,
            ),
    {
        pick_bit(self.rep, self.length, idx)
    }

    /// The configuration translated by one site.
    pub fn cyclic_move(&self) -> (moved: Self)
        requires
            self.wf(),
        ensures
            moved.length == self.length,
            moved.rep == rotate(self.rep as nat, self.length as nat),
            moved.wf(),
    {
        Self { rep: cyclic_move_unsafe(self.rep, self.length), length: self.length }
    }

    /// Translates the configuration by one site in place.
    pub fn cyclic_move_mut(&mut self)
        requires
            old(self).wf(),
        ensures
            final(self).length == old(self).length,
            final(self).rep == rotate(old(self).rep as nat, old(self).length as nat),
            final(self).wf(),
    {
        self.rep = cyclic_move_unsafe(self.rep, self.length);
    }
}

impl State<EmptyValue> for SimpleState {
    open spec fn rep_of(&self) -> usize {
        self.rep
    }

    open spec fn length_of(&self) -> usize {
        self.length
    }

    open spec fn value_of(&self) -> EmptyValue {
        EmptyValue()
    }

    open spec fn where_of(&self, num: usize) -> Option<usize> {
        if self.rep == num {
            Some(0usize)
        } else {
            None
        }
    }

    fn rep(&self) -> (r: usize) {
        self.rep
    }

    fn length(&self) -> (l: usize) {
        self.length
    }

    fn value(&self) -> (v: EmptyValue) {
        EmptyValue()
    }

    fn where_is(&self, num: usize) -> (position: Option<usize>) {
        if self.rep == num {
            Some(0)
        } else {
            None
        }
    }
}

/// A state of a sector: the orbit of its representative, each member with
/// its position on the orbit, and the label of the representative.
#[derive(Debug)]
pub struct EigenState<T: EigenValue> {
    pub state: FnvHashMap<usize, usize>,
    pub index: Representation<T>,
    pub length: usize,
}

impl<T: EigenValue> Clone for EigenState<T> {
    fn clone(&self) -> (copy: Self)
        ensures
            copy.state@ == self.state@,
            copy.index == self.index,
            copy.length == self.length,
    {
        Self { state: self.state.clone(), index: self.index, length: self.length }
    }
}

impl<T: EigenValue> EigenState<T> {
    pub fn index(&self) -> (index: Representation<T>)
        ensures
            index == self.index,
    {
        self.index
    }

    pub fn get_eigenvalue(&self) -> (v: &T)
        ensures
            *v == self.index.0,
    {
        self.index.get_eigenvalue()
    }

    pub fn get_mut_eigenvalue(&mut self) -> (v: &mut T)
        ensures
            *v == old(self).index.0,
            final(self).index == Representation(*final(v), old(self).index.1),
            final(self).state == old(self).state,
            final(self).length == old(self).length,
    {
        &mut self.index.0
    }

    pub fn state(&self) -> (positions: &FnvHashMap<usize, usize>)
        ensures
            *positions == self.state,
    {
        &self.state
    }
}

impl<T: EigenValue> PartialEq for EigenState<T> {
    fn eq(&self, other: &Self) -> (equal: bool) {
        let mine = self.index.key();
        let theirs = other.index.key();
        proof {
            if mine == theirs {
                self.index.0.label_is_faithful(&other.index.0);
            }
        }
        mine.0 == theirs.0 && mine.1 == theirs.1 && mine.2 == theirs.2
    }
}

impl<T: EigenValue> PartialEqSpecImpl for EigenState<T> {
    open spec fn obeys_eq_spec() -> bool {
        true
    }

    open spec fn eq_spec(&self, other: &Self) -> bool {
        self.index == other.index
    }
}

impl<T: EigenValue> State<T> for EigenState<T> {
    open spec fn rep_of(&self) -> usize {
        self.index.1
    }

    open spec fn length_of(&self) -> usize {
        self.length
    }

    open spec fn value_of(&self) -> T {
        self.index.0
    }

    open spec fn where_of(&self, num: usize) -> Option<usize> {
        if self.state@.contains_key(num) {
            Some(self.state@[num])
        } else {
            None
        }
    }

    fn rep(&self) -> (r: usize) {
        self.index.get_rep()
    }

    fn length(&self) -> (l: usize) {
        self.length
    }

    fn value(&self) -> (v: T) {
        self.index.0
    }

    fn where_is(&self, num: usize) -> (position: Option<usize>) {
        match table_get(&self.state, &num) {
            Some(position) => Some(*position),
            None => None,
        }
    }
}

} // verus!
