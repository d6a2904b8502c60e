//! The names that most users of the library need.

pub use crate::bases::momentum::BasisNK;
pub use crate::bases::number::BasisN;
pub use crate::bases::{Basis, BasisGenerator};
pub use crate::error::{Error, ErrorCode};
pub use crate::hamiltonian::degeneracy::{
    count_degeneracy_from, degeneracy_pair, degeneracy_triple, prepare_energy_map, Weight,
};
pub use crate::hamiltonian::{
    assemble_column, assemble_matrix, Entry, PeriodicIsing, PeriodicNearestXXZ,
    PeriodicNextNearestXXZ, Term,
};
pub use crate::states::bit_fns::bit_flip;
pub use crate::states::iterator::{
    BitIterator, CommenIterator, CycleIterator, PairIterator, PeriodicDistancedPairEnumerator,
    PeriodicDistancedPairIterator, PeriodicPairEnumerator, PeriodicPairIterator,
};
pub use crate::states::momentum::NumMomentumState;
pub use crate::states::number::NumberState;
pub use crate::states::representation::Representation;
pub use crate::states::symmetry::{EigenNumMomentum, EigenNumber, EigenValue, EmptyValue};
pub use crate::states::{EigenState, SimpleState, State};
