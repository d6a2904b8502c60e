//! The conserved quantities that label a sector, and the order in which one
//! label refines another.

use vstd::prelude::*;
use crate::states::iterator::is_commensurate;
use crate::theory::orbit::commensurate;

verus! {

/// A label of a sector of the state space.
pub trait EigenValue: Copy {
    /// The pair of integers that identifies the sector among the sectors of
    /// its kind.
    spec fn label_of(&self) -> (usize, usize);

    fn label(&self) -> (l: (usize, usize))
        ensures
            l == self.label_of(),
    ;

    /// Different sectors carry different labels.
    proof fn label_is_faithful(&self, other: &Self)
        requires
            self.label_of() == other.label_of(),
        ensures
            *self == *other,
    ;
}

/// A label that carries no more information than a label of type `T`: a
/// `T`-labelled state can be read as a state with this label by dropping
/// what `T` adds.
pub trait LowerThan<T: EigenValue>: EigenValue {
    /// The sector `other` lies within the sector `self`.
    spec fn extends_to(&self, other: &T) -> bool;

    fn check_extensible(&self, other: &T) -> (b: bool)
        ensures
            b == self.extends_to(other),
    ;
}

/// The converse of [`LowerThan`].
pub trait HigherThan<T: EigenValue>: EigenValue {
    /// The sector `self` lies within the sector `other`.
    spec fn projects_to(&self, other: &T) -> bool;

    fn check_projectible(&self, other: &T) -> (b: bool)
        ensures
            b == self.projects_to(other),
    ;
}

impl<T, W> HigherThan<T> for W where T: LowerThan<W> + EigenValue, W: EigenValue {
    open spec fn projects_to(&self, other: &T) -> bool {
        other.extends_to(self)
    }

    fn check_projectible(&self, other: &T) -> (b: bool) {
        other.check_extensible(self)
    }
}

impl EigenValue for usize {
    open spec fn label_of(&self) -> (usize, usize) {
        (*self, 0)
    }

    fn label(&self) -> (l: (usize, usize)) {
        (*self, 0)
    }

    proof fn label_is_faithful(&self, other: &Self) {
    }
}

impl<T> LowerThan<T> for usize where T: EigenValue {
    open spec fn extends_to(&self, other: &T) -> bool {
        true
    }

    fn check_extensible(&self, _other: &T) -> (b: bool) {
        true
    }
}

/// The label of the whole state space: nothing is conserved.
#[derive(Copy, Clone, Hash, Debug, Eq, PartialEq, Structural)]
pub struct EmptyValue();

impl EigenValue for EmptyValue {
    open spec fn label_of(&self) -> (usize, usize) {
        (0, 0)
    }

    fn label(&self) -> (l: (usize, usize)) {
        (0, 0)
    }

    proof fn label_is_faithful(&self, other: &Self) {
    }
}

impl EmptyValue {
    pub fn new() -> (v: Self)
        ensures
            v == EmptyValue(),
    {
        Self()
    }
}

impl<T> LowerThan<T> for EmptyValue where T: EigenValue {
    open spec fn extends_to(&self, other: &T) -> bool {
        true
    }

    fn check_extensible(&self, _other: &T) -> (b: bool) {
        true
    }
}

/// A label that fixes the number of set sites.
pub trait NumberConservation: EigenValue {
    /// The number of set sites of every state of the sector.
    spec fn number(&self) -> nat;

    fn total_number(&self) -> (m: usize)
        ensures
            m == self.number(),
    ;
}

/// The sector of all configurations with a given number of set sites.
#[derive(Debug, Copy, Clone, Eq, PartialEq, Ord, PartialOrd, Hash, Structural)]
pub struct EigenNumber(pub usize);

impl EigenNumber {
    pub fn new(n: usize) -> (v: Self)
        ensures
            v == EigenNumber(n),
    {
        Self(n)
    }
}

impl EigenValue for EigenNumber {
    open spec fn label_of(&self) -> (usize, usize) {
        (self.0, 0)
    }

    fn label(&self) -> (l: (usize, usize)) {
        (self.0, 0)
    }

    proof fn label_is_faithful(&self, other: &Self) {
    }
}

impl NumberConservation for EigenNumber {
    open spec fn number(&self) -> nat {
        self.0 as nat
    }

    fn total_number(&self) -> (m: usize) {
        self.0
    }
}

impl<T> LowerThan<T> for EigenNumber where T: EigenValue + NumberConservation {
    open spec fn extends_to(&self, other: &T) -> bool {
        self.number() == other.number()
    }

    fn check_extensible(&self, other: &T) -> (b: bool) {
        self.total_number() == other.total_number()
    }
}

/// A label that fixes the momentum under translation.
pub trait TranslationalSymmetry: EigenValue {
    /// The momentum index of the sector.
    spec fn momentum(&self) -> nat;

    fn wave_number(&self) -> (k: usize)
        ensures
            k == self.momentum(),
    ;

    /// Whether an orbit of the given period carries a state of this
    /// momentum on a chain with `length` sites.
    fn check_commensurability(&self, period: usize, length: usize) -> (b: bool)
        requires
            length > 0,
        ensures
            b == commensurate(self.momentum(), period as nat, length as nat),
    ;
}

/// The sector of given number of set sites and given momentum.
#[derive(Copy, Clone, Debug, Hash, Eq, Ord, PartialEq, PartialOrd, Structural)]
pub struct EigenNumMomentum(pub usize, pub usize);

impl EigenValue for EigenNumMomentum {
    open spec fn label_of(&self) -> (usize, usize) {
        (self.0, self.1)
    }

    fn label(&self) -> (l: (usize, usize)) {
        (self.0, self.1)
    }

    proof fn label_is_faithful(&self, other: &Self) {
    }
}

impl EigenNumMomentum {
    pub fn new(m: usize, k: usize) -> (v: Self)
        ensures
            v == EigenNumMomentum(m, k),
    {
        EigenNumMomentum(m, k)
    }

    pub fn from_number(n: EigenNumber, k: usize) -> (v: Self)
        ensures
            v == EigenNumMomentum(n.0, k),
    {
        EigenNumMomentum(n.total_number(), k)
    }
}

impl NumberConservation for EigenNumMomentum {
    open spec fn number(&self) -> nat {
        self.0 as nat
    }

    fn total_number(&self) -> (m: usize) {
        self.0
    }
}

impl TranslationalSymmetry for EigenNumMomentum {
    open spec fn momentum(&self) -> nat {
        self.1 as nat
    }

    fn wave_number(&self) -> (k: usize) {
        self.1
    }

    fn check_commensurability(&self, period: usize, length: usize) -> (b: bool) {
        is_commensurate(self.1, period, length)
    }
}

impl<T> LowerThan<T> for EigenNumMomentum where
    T: EigenValue + NumberConservation + TranslationalSymmetry,
 {
    open spec fn extends_to(&self, other: &T) -> bool {
        self.number() == other.number() && self.momentum() == other.momentum()
    }

    fn check_extensible(&self, other: &T) -> (b: bool) {
        (self.total_number() == other.total_number()) && (self.wave_number()
            == other.wave_number())
    }
}

} // verus!
