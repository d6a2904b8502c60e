//! A configuration together with the sector it is read in.

use vstd::prelude::*;
use crate::states::{State, SimpleState, fits_chain};
use crate::states::symmetry::{
    EigenValue, EmptyValue, EigenNumber, EigenNumMomentum, LowerThan, TranslationalSymmetry,
};
use crate::theory::orbit::{is_representative, orbit_min, period_of, commensurate};

verus! {

/// The configuration `self.1`, read as a member of the sector `self.0`.
#[derive(Debug, Eq, PartialEq, PartialOrd, Ord, Hash)]
pub struct Representation<T: EigenValue>(pub T, pub usize);

impl<T: EigenValue> Clone for Representation<T> {
    fn clone(&self) -> (copy: Self)
        ensures
            copy == *self,
    {
        *self
    }
}

impl<T: EigenValue> Copy for Representation<T> {

}

/// The key under which the configuration `rep` of the sector with the given
/// label is filed in a table.
pub open spec fn table_key(label: (usize, usize), rep: usize) -> (usize, usize, usize) {
    (label.0, label.1, rep)
}

impl<T: EigenValue> Representation<T> {
    pub fn new(egn_v: T, rep: usize) -> (r: Self)
        ensures
            r == Representation(egn_v, rep),
    {
        Self(egn_v, rep)
    }

    pub fn get_eigenvalue(&self) -> (v: &T)
        ensures
            *v == self.0,
    {
        &self.0
    }

    pub fn get_rep(&self) -> (rep: usize)
        ensures
            rep == self.1,
    {
        self.1
    }

    pub fn get_mut_eigenvalue(&mut self) -> (v: &mut T)
        ensures
            *v == old(self).0,
            *final(self) == Representation(*final(v), old(self).1),
    {
        &mut self.0
    }

    pub fn get_mut_rep(&mut self) -> (rep: &mut usize)
        ensures
            *rep == old(self).1,
            *final(self) == Representation(old(self).0, *final(rep)),
    {
        &mut self.1
    }

    /// The key under which the representation is filed in a table: the
    /// label of its sector, followed by the configuration.
    pub fn key(&self) -> (k: (usize, usize, usize))
        ensures
            k == table_key(self.0.label_of(), self.1),
    {
        let label = self.0.label();
        (label.0, label.1, self.1)
    }
}

/// A label that can say which configuration stands for the orbit of a
/// `T`-labelled state within its own sector.
pub trait FindRepresentation<T: LowerThan<Self>>: EigenValue {
    /// The configuration that stands for the orbit of `rep` in the sector,
    /// if the sector holds a state on that orbit.
    spec fn representative_of(&self, rep: nat, length: nat) -> Option<nat>;

    /// `rep` itself stands for a state of the sector.
    spec fn selects(&self, rep: nat, length: nat) -> bool;

    fn find_rep<S: State<T>>(&self, state: &S) -> (found: Option<usize>)
        requires
            fits_chain(state.rep_of(), state.length_of()),
        ensures
            found is Some <==> self.representative_of(
                state.rep_of() as nat,
                state.length_of() as nat,
            ) is Some,
            found is Some ==> found->Some_0 == self.representative_of(
                state.rep_of() as nat,
                state.length_of() as nat,
            )->Some_0,
    ;

    fn is_rep<S: State<T>>(&self, state: &S) -> (b: bool)
        requires
            fits_chain(state.rep_of(), state.length_of()),
        ensures
            b == self.selects(state.rep_of() as nat, state.length_of() as nat),
    ;
}

impl<T> FindRepresentation<T> for EmptyValue where T: EigenValue + LowerThan<EmptyValue> {
    open spec fn representative_of(&self, rep: nat, length: nat) -> Option<nat> {
        Some(rep)
    }

    open spec fn selects(&self, rep: nat, length: nat) -> bool {
        true
    }

    fn find_rep<S: State<T>>(&self, state: &S) -> (found: Option<usize>) {
        Some(state.rep())
    }

    fn is_rep<S: State<T>>(&self, _state: &S) -> (b: bool) {
        true
    }
}

impl<T> FindRepresentation<T> for EigenNumber where T: EigenValue + LowerThan<EigenNumber> {
    open spec fn representative_of(&self, rep: nat, length: nat) -> Option<nat> {
        Some(rep)
    }

    open spec fn selects(&self, rep: nat, length: nat) -> bool {
        true
    }

    fn find_rep<S: State<T>>(&self, state: &S) -> (found: Option<usize>) {
        Some(state.rep())
    }

    fn is_rep<S: State<T>>(&self, _state: &S) -> (b: bool) {
        true
    }
}

impl<T> FindRepresentation<T> for EigenNumMomentum where
    T: EigenValue + LowerThan<EigenNumMomentum>,
 {
    open spec fn representative_of(&self, rep: nat, length: nat) -> Option<nat> {
        if commensurate(self.1 as nat, period_of(rep, length), length) {
            Some(orbit_min(rep, length))
        } else {
            None
        }
    }

    open spec fn selects(&self, rep: nat, length: nat) -> bool {
        is_representative(rep, length) && commensurate(
            self.1 as nat,
            period_of(rep, length),
            length,
        )
    }

    fn find_rep<S: State<T>>(&self, state: &S) -> (found: Option<usize>) {
        let configuration = SimpleState { rep: state.rep(), length: state.length() };
        let (least, period) = configuration.find_representative();
        if self.check_commensurability(period, state.length()) {
            Some(least.rep)
        } else {
            None
        }
    }

    fn is_rep<S: State<T>>(&self, state: &S) -> (b: bool) {
        let configuration = SimpleState { rep: state.rep(), length: state.length() };
        if !configuration.is_rep() {
            return false;
        }
        let period = configuration.period();
        self.check_commensurability(period, state.length())
    }
}

} // verus!
