//! The tables of a whole basis: all sectors of a chain at once, each under
//! its label.

use vstd::prelude::*;
use vstd::arithmetic::power2::pow2;
use fnv::FnvHashMap;
use crate::bases::{
    lists, files_orbits, decodes_orbits, record_orbit, lemma_orbits_unfiled, lemma_recorded_files,
    lemma_recorded_decodes,
};
use crate::bases::momentum::lists_momentum_states;
use crate::bases::number::{binomial_coefficient, lists_number_states};
use crate::states::fits_chain;
use crate::states::momentum::NumMomentumState;
use crate::states::number::NumberState;
use crate::states::symmetry::EigenNumMomentum;
use crate::tables::{SectorKey, table_insert, table_remove};
use crate::theory::bits::lemma_popcount_bound;
use crate::theory::orbit::{fits, rotate_by, period_of, is_representative};
use crate::theory::sector::{
    ascending, in_number_sector, in_momentum_sector, lemma_ascending_entries,
};

verus! {

/// `indices` files every configuration of `reps`, under the label `label`
/// followed by the configuration, with its position in `reps`, and no
/// other configuration under that label.
pub open spec fn positions_within(
    indices: Map<(usize, usize, usize), (usize, usize)>,
    label: (usize, usize),
    reps: Seq<nat>,
) -> bool {
    &&& forall|i: int|
        0 <= i < reps.len() ==> indices.contains_key(
            (label.0, label.1, (#[trigger] reps[i]) as usize),
        ) && indices[(label.0, label.1, reps[i] as usize)] == (i as usize, 0usize)
    &&& forall|x: usize| #[trigger]
        indices.contains_key((label.0, label.1, x)) ==> indices[(label.0, label.1, x)].0
            < reps.len() && indices[(label.0, label.1, x)].1 == 0 && x
            == reps[indices[(label.0, label.1, x)].0 as int]
}

/// Within the tables of a whole basis, the number sector `label` holds
/// exactly the configurations `reps`.
pub open spec fn number_sector_built(
    bases: Map<(usize, usize), Vec<(usize, usize)>>,
    indices: Map<(usize, usize, usize), (usize, usize)>,
    label: (usize, usize),
    reps: Seq<nat>,
    length: usize,
) -> bool {
    &&& bases.contains_key(label) <==> reps.len() > 0
    &&& bases.contains_key(label) ==> lists(bases[label]@, reps, length)
    &&& positions_within(indices, label, reps)
}

/// The configurations below `bound` that the sector `label` of a whole
/// number basis holds.
pub open spec fn number_sector_upto(bound: nat, label: (usize, usize)) -> Seq<nat> {
    if label.1 == 0 {
        ascending(bound, in_number_sector(label.0 as nat))
    } else {
        Seq::empty()
    }
}

/// `indices` files every member of the orbit of every representative of
/// `reps`, under the label `label` followed by the member, with the
/// position of the representative and the distance from it, and no other
/// configuration under that label.
pub open spec fn orbits_within(
    indices: Map<(usize, usize, usize), (usize, usize)>,
    label: (usize, usize),
    reps: Seq<nat>,
    length: nat,
) -> bool {
    &&& files_orbits(indices, label, reps, length)
    &&& decodes_orbits(indices, label, reps, length)
}

/// Within the tables of a whole basis, the momentum sector `label` holds
/// exactly the representatives `reps`.
pub open spec fn momentum_sector_built(
    bases: Map<(usize, usize), Vec<(usize, usize)>>,
    indices: Map<(usize, usize, usize), (usize, usize)>,
    label: (usize, usize),
    reps: Seq<nat>,
    length: usize,
) -> bool {
    &&& bases.contains_key(label) <==> reps.len() > 0
    &&& bases.contains_key(label) ==> lists(bases[label]@, reps, length)
    &&& orbits_within(indices, label, reps, length as nat)
}

/// The representatives below `bound` that the sector `label` of a whole
/// momentum basis of a chain with `length` sites holds.
pub open spec fn momentum_sector_upto(bound: nat, length: nat, label: (usize, usize)) -> Seq<nat> {
    if label.1 < length {
        ascending(bound, in_momentum_sector(length, label.0 as nat, label.1 as nat))
    } else {
        Seq::empty()
    }
}

/// Appends the representative `n` to the sector `label` of a whole
/// momentum basis and files its orbit.
pub(crate) fn extend_momentum_sector(
    bases: &mut FnvHashMap<(usize, usize), Vec<(usize, usize)>>,
    indices: &mut FnvHashMap<(usize, usize, usize), (usize, usize)>,
    label: (usize, usize),
    n: usize,
    length: usize,
    Ghost(reps): Ghost<Seq<nat>>,
)
    requires
        fits_chain(n, length),
        is_representative(n as nat, length as nat),
        momentum_sector_built(old(bases)@, old(indices)@, label, reps, length),
        forall|i: int|
            0 <= i < reps.len() ==> (#[trigger] reps[i]) != n && fits(reps[i], length as nat)
                && is_representative(reps[i], length as nat),
    ensures
        momentum_sector_built(final(bases)@, final(indices)@, label, reps.push(n as nat), length),
        forall|other: (usize, usize), others: Seq<nat>|
            other != label && momentum_sector_built(
                old(bases)@,
                old(indices)@,
                other,
                others,
                length,
            ) ==> #[trigger] momentum_sector_built(
                final(bases)@,
                final(indices)@,
                other,
                others,
                length,
            ),
{
    let ghost l = length as nat;
    let ghost bases0 = bases@;
    let ghost indices0 = indices@;
    proof {
        vstd::bits::lemma_usize_pow2_no_overflow(l);
        lemma_orbits_unfiled::<(usize, usize, usize)>(indices@, label, reps, n as nat, l);
    }
    let mut list = match table_remove(bases, &label) {
        Some(list) => list,
        None => Vec::new(),
    };
    let idx = list.len();
    record_orbit(indices, label, n, length, idx);
    list.push((n, length));
    table_insert(bases, label, list);
    proof {
        let indices1 = indices@;
        lemma_recorded_files(indices0, indices1, label, reps, n as nat, l);
        lemma_recorded_decodes(indices0, indices1, label, reps, n as nat, l);
        assert forall|other: (usize, usize), others: Seq<nat>|
            other != label && momentum_sector_built(
                bases0,
                indices0,
                other,
                others,
                length,
            ) implies #[trigger] momentum_sector_built(bases@, indices1, other, others, length) by {
            assert forall|x: usize| #[trigger]
                indices1.contains_key((other.0, other.1, x)) implies indices0.contains_key(
                (other.0, other.1, x),
            ) by {}
            assert forall|i: int, t: nat|
                0 <= i < others.len() && t < period_of(
                    others[i],
                    l,
                ) implies indices1.contains_key(
                (other.0, other.1, (#[trigger] rotate_by(others[i], l, t)) as usize),
            ) && indices1[(other.0, other.1, rotate_by(others[i], l, t) as usize)] == (
                i as usize,
                t as usize,
            ) by {
                assert(indices0.contains_key(
                    (other.0, other.1, rotate_by(others[i], l, t) as usize),
                ));
            }
            assert forall|x: usize| #[trigger]
                indices1.contains_key(
                    <(usize, usize, usize) as SectorKey>::key_of(other, x),
                ) implies indices0.contains_key(
                <(usize, usize, usize) as SectorKey>::key_of(other, x),
            ) && indices1[<(usize, usize, usize) as SectorKey>::key_of(other, x)]
                == indices0[<(usize, usize, usize) as SectorKey>::key_of(other, x)] by {}
        }
    }
}

/// Appends the configuration `n` to the sector `label` of a whole number
/// basis and files it.
pub(crate) fn extend_number_sector(
    bases: &mut FnvHashMap<(usize, usize), Vec<(usize, usize)>>,
    indices: &mut FnvHashMap<(usize, usize, usize), (usize, usize)>,
    label: (usize, usize),
    n: usize,
    length: usize,
    Ghost(reps): Ghost<Seq<nat>>,
)
    requires
        length < usize::BITS,
        number_sector_built(old(bases)@, old(indices)@, label, reps, length),
        forall|i: int| 0 <= i < reps.len() ==> (#[trigger] reps[i]) < n,
    ensures
        number_sector_built(final(bases)@, final(indices)@, label, reps.push(n as nat), length),
        forall|other: (usize, usize), others: Seq<nat>|
            other != label && number_sector_built(
                old(bases)@,
                old(indices)@,
                other,
                others,
                length,
            ) ==> #[trigger] number_sector_built(
                final(bases)@,
                final(indices)@,
                other,
                others,
                length,
            ),
{
    let ghost bases0 = bases@;
    let ghost indices0 = indices@;
    let mut list = match table_remove(bases, &label) {
        Some(list) => list,
        None => Vec::with_capacity(binomial_coefficient(length, label.0)),
    };
    let idx = list.len();
    list.push((n, length));
    table_insert(bases, label, list);
    table_insert(indices, (label.0, label.1, n), (idx, 0));
    proof {
        let grown = reps.push(n as nat);
        let indices1 = indices@;
        assert forall|i: int| 0 <= i < grown.len() implies indices1.contains_key(
            (label.0, label.1, (#[trigger] grown[i]) as usize),
        ) && indices1[(label.0, label.1, grown[i] as usize)] == (i as usize, 0usize) by {
            if i < reps.len() {
                assert(reps[i] == grown[i]);
            }
        }
        assert forall|x: usize| #[trigger]
            indices1.contains_key((label.0, label.1, x)) implies indices1[(
            label.0,
            label.1,
            x,
        )].0 < grown.len() && indices1[(label.0, label.1, x)].1 == 0 && x
            == grown[indices1[(label.0, label.1, x)].0 as int] by {
            if x != n {
                assert(indices0.contains_key((label.0, label.1, x)));
                assert(reps[indices0[(label.0, label.1, x)].0 as int]
                    == grown[indices0[(label.0, label.1, x)].0 as int]);
            }
        }
        assert forall|other: (usize, usize), others: Seq<nat>|
            other != label && number_sector_built(
                bases0,
                indices0,
                other,
                others,
                length,
            ) implies #[trigger] number_sector_built(bases@, indices1, other, others, length) by {
            assert forall|x: usize| #[trigger]
                indices1.contains_key((other.0, other.1, x)) implies indices0.contains_key(
                (other.0, other.1, x),
            ) by {}
            assert forall|i: int| 0 <= i < others.len() implies indices1.contains_key(
                (other.0, other.1, (#[trigger] others[i]) as usize),
            ) && indices1[(other.0, other.1, others[i] as usize)] == (i as usize, 0usize) by {
                assert(indices0.contains_key((other.0, other.1, others[i] as usize)));
            }
        }
    }
}

/// Within the table of a whole basis, the number sector `label` holds
/// exactly the states of the configurations `reps`.
pub open spec fn number_states_built(
    bases: Map<(usize, usize), Vec<NumberState>>,
    label: (usize, usize),
    reps: Seq<nat>,
    length: usize,
) -> bool {
    &&& bases.contains_key(label) <==> reps.len() > 0
    &&& bases.contains_key(label) ==> lists_number_states(bases[label]@, reps, length)
}

/// Within the table of a whole basis, the momentum sector `label` holds
/// exactly the states of the representatives `reps`.
pub open spec fn momentum_states_built(
    bases: Map<(usize, usize), Vec<NumMomentumState>>,
    label: (usize, usize),
    reps: Seq<nat>,
    length: usize,
) -> bool {
    &&& bases.contains_key(label) <==> reps.len() > 0
    &&& bases.contains_key(label) ==> lists_momentum_states(
        bases[label]@,
        reps,
        EigenNumMomentum(label.0, label.1),
        length,
    )
}

/// The label `(m1, k1)` comes before `(m, k)` when the labels are walked
/// sector by sector.
pub open spec fn walked(m1: usize, k1: usize, m: usize, k: usize) -> bool {
    m1 < m || (m1 == m && k1 < k)
}

/// No configuration of a chain has more set sites than the chain has
/// sites.
pub proof fn lemma_no_sector_beyond_length(length: nat, bound: nat, m: nat)
    requires
        bound <= pow2(length),
        m > length,
    ensures
        ascending(bound, in_number_sector(m)).len() == 0,
        forall|k: nat| #[trigger] ascending(bound, in_momentum_sector(length, m, k)).len() == 0,
{
    lemma_ascending_entries(bound, in_number_sector(m));
    if ascending(bound, in_number_sector(m)).len() > 0 {
        lemma_popcount_bound(ascending(bound, in_number_sector(m))[0], length);
    }
    assert forall|k: nat| #[trigger]
        ascending(bound, in_momentum_sector(length, m, k)).len() == 0 by {
        let keep = in_momentum_sector(length, m, k);
        lemma_ascending_entries(bound, keep);
        if ascending(bound, keep).len() > 0 {
            lemma_popcount_bound(ascending(bound, keep)[0], length);
        }
    }
}

/// The representatives that the sector `label` holds while the scan of a
/// whole momentum basis files the representative `n`: the sectors of
/// momentum below `cursor` have seen `n`, the others have not.
pub open spec fn momentum_sector_during(
    n: nat,
    cursor: nat,
    length: nat,
    label: (usize, usize),
) -> Seq<nat> {
    if label.1 < cursor {
        momentum_sector_upto(n + 1, length, label)
    } else {
        momentum_sector_upto(n, length, label)
    }
}

} // verus!
