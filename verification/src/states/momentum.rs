//! States of a momentum sector.

use vstd::prelude::*;
use fnv::FnvHashMap;
use crate::states::{EigenState, State, fits_chain};
use crate::states::bit_fns::{cyclic_move_unsafe, period_unsafe};
use crate::states::representation::{Representation, FindRepresentation};
use crate::states::symmetry::{
    EigenNumMomentum, EigenValue, LowerThan, NumberConservation, TranslationalSymmetry,
};
use crate::tables::{table_new, table_insert};
use crate::theory::orbit::{
    fits, rotate_by, period_of, is_representative, commensurate, lemma_period,
    lemma_orbit_distinct, lemma_rotate_by_fits,
};

verus! {

pub type NumMomentumState = EigenState<EigenNumMomentum>;

/// `positions` files every member of the orbit of `rep` under its
/// position on the orbit, and nothing else.
pub open spec fn holds_orbit(positions: Map<usize, usize>, rep: nat, length: nat) -> bool {
    &&& forall|i: nat|
        i < period_of(rep, length) ==> positions.contains_key(
            #[trigger] rotate_by(rep, length, i) as usize,
        ) && positions[rotate_by(rep, length, i) as usize] == i
    &&& forall|x: usize| #[trigger]
        positions.contains_key(x) ==> positions[x] < period_of(rep, length) && rotate_by(
            rep,
            length,
            positions[x] as nat,
        ) == x
}

/// `state` is the orbit of `rep`, labelled by the sector `sector`.
pub open spec fn is_momentum_state(
    state: NumMomentumState,
    sector: EigenNumMomentum,
    rep: usize,
    length: usize,
) -> bool {
    &&& state.index == Representation(sector, rep)
    &&& state.length == length
    &&& holds_orbit(state.state@, rep as nat, length as nat)
}

/// Files the orbit of `rep` in a fresh table.
fn orbit_positions(rep: usize, length: usize) -> (positions: FnvHashMap<usize, usize>)
    requires
        fits_chain(rep, length),
    ensures
        holds_orbit(positions@, rep as nat, length as nat),
{
    let ghost n = rep as nat;
    let ghost l = length as nat;
    let mut positions: FnvHashMap<usize, usize> = table_new();
    let mut temp = rep;
    let mut idx: usize = 0;
    proof {
        lemma_period(n, l);
    }
    loop
        invariant
            fits_chain(rep, length),
            n == rep,
            l == length,
            fits(temp as nat, l),
            idx < period_of(n, l) <= l,
            temp == rotate_by(n, l, idx as nat),
            forall|i: nat|
                i < idx ==> positions@.contains_key(#[trigger] rotate_by(n, l, i) as usize)
                    && positions@[rotate_by(n, l, i) as usize] == i,
            forall|x: usize| #[trigger]
                positions@.contains_key(x) ==> positions@[x] < idx && rotate_by(
                    n,
                    l,
                    positions@[x] as nat,
                ) == x,
        decreases period_of(n, l) - idx,
    {
        proof {
            assert forall|i: nat| i < idx implies #[trigger] rotate_by(n, l, i) != temp by {
                lemma_orbit_distinct(n, l, i, idx as nat);
            }
            assert forall|i: nat| i < idx implies rotate_by(n, l, i) <= usize::MAX by {
                lemma_rotate_by_fits(n, l, i);
                vstd::bits::lemma_usize_pow2_no_overflow(l);
            }
        }
        table_insert(&mut positions, temp, idx);
        temp = cyclic_move_unsafe(temp, length);
        idx += 1;
        assert(temp == rotate_by(n, l, idx as nat));
        if temp == rep {
            proof {
                lemma_period(n, l);
                assert(idx == period_of(n, l));
            }
            return positions;
        }
        proof {
            lemma_period(n, l);
        }
    }
}

impl NumMomentumState {
    /// The orbit of the configuration of `s` as a state of the sector
    /// `eigen_v`, or `None` if the configuration is not the representative
    /// of its orbit or if the orbit carries no state of that momentum.
    pub fn new<S, T>(s: &S, eigen_v: &EigenNumMomentum) -> (state: Option<Self>) where
        S: State<T>,
        T: EigenValue + LowerThan<EigenNumMomentum>,

        requires
            fits_chain(s.rep_of(), s.length_of()),
        ensures
            state is Some <==> is_representative(s.rep_of() as nat, s.length_of() as nat)
                && commensurate(
                eigen_v.1 as nat,
                period_of(s.rep_of() as nat, s.length_of() as nat),
                s.length_of() as nat,
            ),
            state is Some ==> is_momentum_state(
                state->Some_0,
                *eigen_v,
                s.rep_of(),
                s.length_of(),
            ),
    {
        if !eigen_v.is_rep(s) {
            return None;
        }
        Some(Self::new_unsafe(s, eigen_v))
    }

    /// The orbit of the configuration of `s` as a state of the sector
    /// `eigen_v`, without asking whether the sector holds such a state.
    pub fn new_unsafe<S, T>(s: &S, eigen_v: &EigenNumMomentum) -> (state: Self) where
        S: State<T>,
        T: EigenValue + LowerThan<EigenNumMomentum>,

        requires
            fits_chain(s.rep_of(), s.length_of()),
        ensures
            is_momentum_state(state, *eigen_v, s.rep_of(), s.length_of()),
    {
        let rep = s.rep();
        let length = s.length();
        Self { state: orbit_positions(rep, length), index: Representation(*eigen_v, rep), length }
    }

    /// The number of set sites of every configuration of the state.
    pub fn total_number(&self) -> (m: usize)
        ensures
            m == self.index.0.0,
    {
        self.index.get_eigenvalue().total_number()
    }

    /// The momentum index of the state.
    pub fn wave_number(&self) -> (k: usize)
        ensures
            k == self.index.0.1,
    {
        self.index.get_eigenvalue().wave_number()
    }

    /// The period of the orbit; the norm of the state is its square root
    /// over the chain length.
    pub fn orbit_period(&self) -> (p: usize)
        requires
            fits_chain(self.index.1, self.length),
        ensures
            p == period_of(self.index.1 as nat, self.length as nat),
    {
        period_unsafe(self.index.get_rep(), self.length)
    }
}

} // verus!
