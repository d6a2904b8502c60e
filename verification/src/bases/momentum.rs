//! The basis of a momentum sector.

use vstd::prelude::*;
use vstd::arithmetic::power2::pow2;
use fnv::FnvHashMap;
use crate::bases::{
    BasisGenerator, lists, indexes_orbits, scan_momentum, record_orbit, lemma_orbits_unfiled,
    lemma_indexes_orbits_decode, lemma_recorded_indexes,
};
use crate::error::{Error, ErrorCode, fails_with};
use crate::states::State;
use crate::states::momentum::{NumMomentumState, is_momentum_state};
use crate::states::symmetry::{
    EigenNumMomentum, EigenValue, LowerThan, NumberConservation, TranslationalSymmetry,
};
use crate::states::bit_fns::lemma_one_shl;
use crate::tables::{table_new, table_get};
use crate::theory::orbit::{
    fits, rotate_by, is_representative, period_of, commensurate, lemma_period,
    lemma_rotate_by_fits, lemma_representatives_disjoint,
};
use crate::theory::sector::{momentum_sector, in_momentum_sector, lemma_ascending_entries};

verus! {

pub type BasisNK = BasisGenerator<EigenNumMomentum>;

/// `states` lists the orbits of the representatives `reps` as states of
/// the sector `sector`.
pub open spec fn lists_momentum_states(
    states: Seq<NumMomentumState>,
    reps: Seq<nat>,
    sector: EigenNumMomentum,
    length: usize,
) -> bool {
    &&& states.len() == reps.len()
    &&& forall|i: int|
        0 <= i < reps.len() ==> is_momentum_state(
            #[trigger] states[i],
            sector,
            reps[i] as usize,
            length,
        )
}

/// Membership in a momentum sector, of configurations that are already
/// known to have the right number of set sites: the representatives whose
/// orbit carries a state of momentum `k`.
pub open spec fn carries_momentum(length: nat, k: nat) -> spec_fn(nat) -> bool {
    |n: nat| is_representative(n, length) && commensurate(k, period_of(n, length), length)
}

/// The entries of `reps` that satisfy `keep`, in their order.
pub open spec fn retained(reps: Seq<nat>, keep: spec_fn(nat) -> bool) -> Seq<nat>
    decreases reps.len(),
{
    if reps.len() == 0 {
        Seq::empty()
    } else {
        let rest = retained(reps.drop_last(), keep);
        if keep(reps.last()) {
            rest.push(reps.last())
        } else {
            rest
        }
    }
}

/// Every retained entry is an entry of the list that satisfies the
/// predicate.
pub proof fn lemma_retained_entries(reps: Seq<nat>, keep: spec_fn(nat) -> bool)
    ensures
        retained(reps, keep).len() <= reps.len(),
        forall|i: int|
            0 <= i < retained(reps, keep).len() ==> keep(#[trigger] retained(reps, keep)[i])
                && reps.contains(retained(reps, keep)[i]),
    decreases reps.len(),
{
    if reps.len() > 0 {
        lemma_retained_entries(reps.drop_last(), keep);
        let rest = retained(reps.drop_last(), keep);
        assert forall|i: int| 0 <= i < rest.len() implies reps.contains(#[trigger] rest[i]) by {
            let at = choose|at: int| 0 <= at < reps.drop_last().len() && reps.drop_last()[at] == rest[i];
            assert(reps[at] == rest[i]);
        }
        assert(reps[reps.len() - 1] == reps.last());
    }
}

/// The configurations that the states of `pre_basis` stand for.
pub open spec fn configurations<T: EigenValue, S: State<T>>(pre_basis: Seq<S>) -> Seq<nat> {
    Seq::new(pre_basis.len(), |i: int| pre_basis[i].rep_of() as nat)
}

/// The states of `pre_basis` lie on the chain with `length` sites.
pub open spec fn on_chain<T: EigenValue, S: State<T>>(pre_basis: Seq<S>, length: usize) -> bool {
    forall|i: int|
        0 <= i < pre_basis.len() ==> (#[trigger] pre_basis[i]).length_of() == length && fits(
            pre_basis[i].rep_of() as nat,
            length as nat,
        )
}

/// No configuration that satisfies `keep` occurs twice in `reps`.
pub open spec fn kept_once(reps: Seq<nat>, keep: spec_fn(nat) -> bool) -> bool {
    forall|i: int, j: int|
        0 <= i < j < reps.len() && keep(#[trigger] reps[j]) ==> (#[trigger] reps[i]) != reps[j]
}

/// `pre_basis` can be refined to the basis of `sector` on the chain with
/// `length` sites: it is not empty, the sector of its first state contains
/// `sector`, its states lie on the chain, and no configuration that the
/// sector keeps occurs twice.
pub open spec fn extensible<T: EigenValue + LowerThan<EigenNumMomentum>, S: State<T>>(
    pre_basis: Seq<S>,
    sector: EigenNumMomentum,
    length: usize,
) -> bool {
    &&& pre_basis.len() > 0
    &&& pre_basis[0].value_of().extends_to(&sector)
    &&& on_chain::<T, S>(pre_basis, length)
    &&& kept_once(configurations::<T, S>(pre_basis), carries_momentum(length as nat, sector.1 as nat))
}

/// Every entry of the list that satisfies the predicate is retained.
pub proof fn lemma_retained_contains(reps: Seq<nat>, keep: spec_fn(nat) -> bool, at: int)
    requires
        0 <= at < reps.len(),
        keep(reps[at]),
    ensures
        retained(reps, keep).contains(reps[at]),
    decreases reps.len(),
{
    let rest = retained(reps.drop_last(), keep);
    if at == reps.len() - 1 {
        assert(reps.last() == reps[at]);
        assert(rest.push(reps[at])[rest.len() as int] == reps[at]);
    } else {
        lemma_retained_contains(reps.drop_last(), keep, at);
        assert(reps.drop_last()[at] == reps[at]);
        let found = choose|found: int| 0 <= found < rest.len() && rest[found] == reps[at];
        if keep(reps.last()) {
            assert(rest.push(reps.last())[found] == reps[at]);
        }
    }
}

/// Turns a list of representatives into the list of their momentum states.
pub(crate) fn momentum_states(
    light: &Vec<(usize, usize)>,
    Ghost(reps): Ghost<Seq<nat>>,
    sector: &EigenNumMomentum,
    length: usize,
) -> (states: Vec<NumMomentumState>)
    requires
        0 < length < usize::BITS,
        lists(light@, reps, length),
        forall|i: int| 0 <= i < reps.len() ==> (#[trigger] reps[i]) < pow2(length as nat),
    ensures
        lists_momentum_states(states@, reps, *sector, length),
{
    let mut states: Vec<NumMomentumState> = Vec::with_capacity(light.len());
    let mut i: usize = 0;
    proof {
        vstd::bits::lemma_usize_pow2_no_overflow(length as nat);
    }
    while i < light.len()
        invariant
            0 < length < usize::BITS,
            pow2(length as nat) <= usize::MAX,
            lists(light@, reps, length),
            forall|i: int| 0 <= i < reps.len() ==> (#[trigger] reps[i]) < pow2(length as nat),
            i <= light.len(),
            states@.len() == i,
            forall|j: int|
                0 <= j < i ==> is_momentum_state(
                    #[trigger] states@[j],
                    *sector,
                    reps[j] as usize,
                    length,
                ),
        decreases light.len() - i,
    {
        let entry = light[i];
        assert(entry == light@[i as int]);
        assert(reps[i as int] < pow2(length as nat));
        states.push(NumMomentumState::new_unsafe(&entry, sector));
        i += 1;
    }
    states
}

impl BasisNK {
    pub fn new(v: EigenNumMomentum, length: usize) -> (generator: Self)
        ensures
            generator.length == length,
            *generator.value == v,
    {
        Self { length, value: Box::new(v) }
    }

    pub fn length(&self) -> (length: usize)
        ensures
            length == self.length,
    {
        self.length
    }

    pub fn value(&self) -> (value: EigenNumMomentum)
        ensures
            value == *self.value,
    {
        *self.value
    }

    /// Whether an orbit of the given period carries a state of the sector.
    pub fn check_commensurability(&self, period: usize) -> (b: bool)
        requires
            self.length > 0,
        ensures
            b == commensurate(self.value.1 as nat, period as nat, self.length as nat),
    {
        self.value.check_commensurability(period, self.length)
    }

    /// The states of the sector in increasing order of their
    /// representatives, and the table that files every member of every
    /// orbit, under the label of the sector followed by the member, with
    /// the position of its state and its distance from the representative.
    /// `Err(InvalidConfiguration)` if the sector holds no state.
    pub fn build(&self) -> (r: Result<
        (Vec<NumMomentumState>, FnvHashMap<(usize, usize, usize), (usize, usize)>),
        Error,
    >)
        requires
            0 < self.length < usize::BITS,
        ensures
            momentum_sector(self.length as nat, self.value.0 as nat, self.value.1 as nat).len()
                == 0 ==> fails_with(r, ErrorCode::InvalidConfiguration),
            momentum_sector(self.length as nat, self.value.0 as nat, self.value.1 as nat).len()
                > 0 ==> r is Ok && lists_momentum_states(
                r->Ok_0.0@,
                momentum_sector(self.length as nat, self.value.0 as nat, self.value.1 as nat),
                *self.value,
                self.length,
            ) && indexes_orbits(
                r->Ok_0.1@,
                (self.value.0, self.value.1),
                momentum_sector(self.length as nat, self.value.0 as nat, self.value.1 as nat),
                self.length as nat,
            ),
    {
        let length = self.length;
        let m = self.value.total_number();
        let k = self.value.wave_number();
        let (light, indices) = scan_momentum::<(usize, usize, usize)>(length, m, k);
        if light.len() == 0 {
            return Err(Error::make_error_syntax(ErrorCode::InvalidConfiguration));
        }
        proof {
            lemma_ascending_entries(
                pow2(length as nat),
                in_momentum_sector(length as nat, m as nat, k as nat),
            );
        }
        let basis = momentum_states(
            &light,
            Ghost(momentum_sector(length as nat, m as nat, k as nat)),
            &*self.value,
            length,
        );
        Ok((basis, indices))
    }

    /// The representatives of the sector in increasing order, each with
    /// the chain length, and the table that files every member of every
    /// orbit with the position of its representative and its distance from
    /// the representative.  `Err(InvalidConfiguration)` if the sector holds
    /// no state.
    pub fn build_light(&self) -> (r: Result<
        (Vec<(usize, usize)>, FnvHashMap<usize, (usize, usize)>),
        Error,
    >)
        requires
            0 < self.length < usize::BITS,
        ensures
            momentum_sector(self.length as nat, self.value.0 as nat, self.value.1 as nat).len()
                == 0 ==> fails_with(r, ErrorCode::InvalidConfiguration),
            momentum_sector(self.length as nat, self.value.0 as nat, self.value.1 as nat).len()
                > 0 ==> r is Ok && lists(
                r->Ok_0.0@,
                momentum_sector(self.length as nat, self.value.0 as nat, self.value.1 as nat),
                self.length,
            ) && indexes_orbits(
                r->Ok_0.1@,
                (self.value.0, self.value.1),
                momentum_sector(self.length as nat, self.value.0 as nat, self.value.1 as nat),
                self.length as nat,
            ),
    {
        let m = self.value.total_number();
        let k = self.value.wave_number();
        let (basis, indices) = scan_momentum::<usize>(self.length, m, k);
        if basis.len() == 0 {
            return Err(Error::make_error_syntax(ErrorCode::InvalidConfiguration));
        }
        Ok((basis, indices))
    }

    /// Refines a basis of a coarser sector to the basis of this sector
    /// without scanning the chain again: keeps, in their order, the states
    /// of `pre_basis` that stand for a representative whose orbit carries
    /// a state of this momentum.  `Err(InvalidArgument)` if `pre_basis`
    /// cannot be refined: if it is empty, if the sector of its first state
    /// does not contain this sector, if one of its states does not lie on
    /// the chain of this builder, or if a configuration that is kept
    /// occurs twice.  `Err(InvalidConfiguration)` if no state is kept.
    pub fn build_from<S, T>(&self, pre_basis: &Vec<S>) -> (r: Result<
        (Vec<NumMomentumState>, FnvHashMap<(usize, usize, usize), (usize, usize)>),
        Error,
    >) where T: EigenValue + LowerThan<EigenNumMomentum>, S: State<T>
        requires
            0 < self.length < usize::BITS,
        ensures
            !extensible::<T, S>(pre_basis@, *self.value, self.length) ==> fails_with(
                r,
                ErrorCode::InvalidArgument,
            ),
            (extensible::<T, S>(pre_basis@, *self.value, self.length) && retained(
                configurations::<T, S>(pre_basis@),
                carries_momentum(self.length as nat, self.value.1 as nat),
            ).len() == 0) ==> fails_with(r, ErrorCode::InvalidConfiguration),
            (extensible::<T, S>(pre_basis@, *self.value, self.length) && retained(
                configurations::<T, S>(pre_basis@),
                carries_momentum(self.length as nat, self.value.1 as nat),
            ).len() > 0) ==> r is Ok && lists_momentum_states(
                r->Ok_0.0@,
                retained(
                    configurations::<T, S>(pre_basis@),
                    carries_momentum(self.length as nat, self.value.1 as nat),
                ),
                *self.value,
                self.length,
            ) && indexes_orbits(
                r->Ok_0.1@,
                (self.value.0, self.value.1),
                retained(
                    configurations::<T, S>(pre_basis@),
                    carries_momentum(self.length as nat, self.value.1 as nat),
                ),
                self.length as nat,
            ),
    {
        let eigen_v: &EigenNumMomentum = &*self.value;
        if pre_basis.len() == 0 {
            return Err(Error::make_error_syntax(ErrorCode::InvalidArgument));
        } else if !pre_basis[0].value().check_extensible(eigen_v) {
            return Err(Error::make_error_syntax(ErrorCode::InvalidArgument));
        }
        let ghost l = self.length as nat;
        let ghost keep = carries_momentum(l, self.value.1 as nat);
        let ghost all = configurations::<T, S>(pre_basis@);
        let ghost label = (self.value.0, self.value.1);
        let label_here = (eigen_v.total_number(), eigen_v.wave_number());
        proof {
            lemma_one_shl(self.length);
            vstd::bits::lemma_usize_pow2_no_overflow(l);
            assert(all.take(0) =~= Seq::<nat>::empty());
        }
        let max_state: usize = 1usize << self.length;
        let mut basis: Vec<NumMomentumState> = Vec::new();
        let mut indices: FnvHashMap<(usize, usize, usize), (usize, usize)> = table_new();
        let mut idx: usize = 0;
        let mut at: usize = 0;
        while at < pre_basis.len()
            invariant
                0 < self.length < usize::BITS,
                max_state == pow2(l) <= usize::MAX,
                l == self.length,
                keep == carries_momentum(l, self.value.1 as nat),
                all == configurations::<T, S>(pre_basis@),
                label == (self.value.0, self.value.1),
                label_here == label,
                *eigen_v == *self.value,
                at <= pre_basis.len(),
                idx == basis@.len(),
                on_chain::<T, S>(pre_basis@.take(at as int), self.length),
                kept_once(all.take(at as int), keep),
                lists_momentum_states(
                    basis@,
                    retained(all.take(at as int), keep),
                    *self.value,
                    self.length,
                ),
                indexes_orbits(indices@, label, retained(all.take(at as int), keep), l),
            decreases pre_basis.len() - at,
        {
            let state = &pre_basis[at];
            let ghost reps = retained(all.take(at as int), keep);
            let ghost n = state.rep_of() as nat;
            proof {
                assert(all.take(at + 1).drop_last() =~= all.take(at as int));
                assert(all.take(at + 1).last() == n);
                assert(all[at as int] == n);
                lemma_retained_entries(all.take(at as int), keep);
                assert forall|i: int| 0 <= i < reps.len() implies fits(#[trigger] reps[i], l)
                    && is_representative(reps[i], l) && all.take(at as int).contains(reps[i]) by {
                    let from = choose|from: int|
                        0 <= from < all.take(at as int).len() && all.take(at as int)[from]
                            == reps[i];
                    assert(pre_basis@.take(at as int)[from] == pre_basis@[from]);
                }
            }
            if state.length() != self.length || state.rep() >= max_state {
                return Err(Error::make_error_syntax(ErrorCode::InvalidArgument));
            }
            if let Some(nkstate) = NumMomentumState::new(state, eigen_v) {
                let key = (label_here.0, label_here.1, state.rep());
                if table_get(&indices, &key).is_some() {
                    proof {
                        let earlier = reps[indices@[key].0 as int];
                        let shift = indices@[key].1 as nat;
                        lemma_rotate_by_fits(earlier, l, shift);
                        assert(rotate_by(n, l, 0) == n);
                        lemma_representatives_disjoint(n, earlier, l, 0, shift);
                        let from = choose|from: int|
                            0 <= from < all.take(at as int).len() && all.take(at as int)[from]
                                == earlier;
                        assert(all[from] == all[at as int]);
                    }
                    return Err(Error::make_error_syntax(ErrorCode::InvalidArgument));
                }
                proof {
                    assert forall|i: int| 0 <= i < reps.len() implies (#[trigger] reps[i]) != n by {
                        if reps[i] == n {
                            lemma_period(n, l);
                            assert(rotate_by(reps[i], l, 0) == n);
                        }
                    }
                    lemma_indexes_orbits_decode(indices@, label, reps, l);
                    lemma_orbits_unfiled(indices@, label, reps, n, l);
                }
                let ghost before = indices@;
                record_orbit(&mut indices, label_here, state.rep(), self.length, idx);
                basis.push(nkstate);
                idx += 1;
                proof {
                    assert(retained(all.take(at + 1), keep) == reps.push(n));
                    lemma_recorded_indexes(before, indices@, label, reps, n, l);
                    assert forall|i: int| 0 <= i < at implies all[i] != n by {
                        if all[i] == n {
                            assert(all.take(at as int)[i] == n);
                            lemma_retained_contains(all.take(at as int), keep, i);
                        }
                    }
                }
            }
            proof {
                assert forall|i: int| 0 <= i < at + 1 implies (#[trigger] pre_basis@.take(
                    at + 1,
                )[i]).length_of() == self.length && fits(
                    pre_basis@.take(at + 1)[i].rep_of() as nat,
                    l,
                ) by {
                    if i < at {
                        assert(pre_basis@.take(at as int)[i] == pre_basis@[i]);
                    }
                }
                assert forall|i: int, j: int|
                    0 <= i < j < at + 1 && keep(#[trigger] all.take(at + 1)[j]) implies (
                #[trigger] all.take(at + 1)[i]) != all.take(at + 1)[j] by {
                    if j < at {
                        assert(all.take(at as int)[j] == all.take(at + 1)[j]);
                        assert(all.take(at as int)[i] == all.take(at + 1)[i]);
                    }
                }
            }
            at += 1;
        }
        proof {
            assert(all.take(at as int) =~= all);
            assert(pre_basis@.take(at as int) =~= pre_basis@);
        }
        if basis.len() == 0 {
            return Err(Error::make_error_syntax(ErrorCode::InvalidConfiguration));
        }
        Ok((basis, indices))
    }
}

} // verus!
