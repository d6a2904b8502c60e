//! States of a number sector.

use vstd::prelude::*;
use fnv::FnvHashMap;
use crate::states::{EigenState, State, fits_chain};
use crate::states::representation::Representation;
use crate::states::symmetry::{EigenNumber, EigenValue};
use crate::tables::{table_new, table_insert};
use crate::theory::bits::popcount;

verus! {

pub type NumberState = EigenState<EigenNumber>;

/// `state` is the configuration `rep` of a chain with `length` sites, read
/// as a state of its number sector.
pub open spec fn is_number_state(state: NumberState, rep: usize, length: usize) -> bool {
    &&& state.index == Representation(EigenNumber(popcount(rep as nat) as usize), rep)
    &&& state.length == length
    &&& state.state@ =~= Map::<usize, usize>::empty().insert(rep, 0)
}

impl NumberState {
    /// The configuration of `s`, read as a state of its number sector.
    pub fn new<S, T>(s: &S) -> (state: Self) where S: State<T>, T: EigenValue
        requires
            fits_chain(s.rep_of(), s.length_of()),
        ensures
            is_number_state(state, s.rep_of(), s.length_of()),
    {
        let m = s.bit_sum();
        let mut state: FnvHashMap<usize, usize> = table_new();
        table_insert(&mut state, s.rep(), 0);
        Self { state, index: Representation(EigenNumber(m), s.rep()), length: s.length() }
    }

    /// The configuration `rep`, read as a state of its number sector.
    pub fn from_rep(rep: usize, length: usize) -> (state: Self)
        requires
            fits_chain(rep, length),
        ensures
            is_number_state(state, rep, length),
    {
        NumberState::new(&(rep, length))
    }
}

} // verus!
