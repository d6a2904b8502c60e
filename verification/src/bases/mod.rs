//! Construction of the bases of the sectors of a chain.

use vstd::prelude::*;
use vstd::arithmetic::power2::pow2;
use fnv::FnvHashMap;
use crate::bases::momentum::momentum_states;
use crate::bases::number::number_states;
use crate::bases::whole::{
    number_sector_built, number_sector_upto, number_states_built, positions_within,
    momentum_sector_built, momentum_sector_upto, momentum_sector_during, momentum_states_built,
    orbits_within, walked, extend_number_sector, extend_momentum_sector,
    lemma_no_sector_beyond_length,
};
use crate::states::fits_chain;
use crate::states::bit_fns::{
    sum_bit, is_rep, period_unsafe, cyclic_move_unsafe, lemma_one_shl,
};
use crate::states::iterator::{is_commensurate, CommenIterator};
use crate::states::momentum::NumMomentumState;
use crate::states::number::NumberState;
use crate::states::symmetry::{EigenNumMomentum, EigenValue, EmptyValue};
use crate::tables::{SectorKey, table_new, table_insert, table_get};
use crate::theory::bits::popcount;
use crate::theory::orbit::{
    fits, rotate_by, period_of, is_representative, commensurate, lemma_period,
    lemma_orbit_distinct, lemma_rotate_by_fits, lemma_representatives_disjoint,
};
use crate::theory::scan::{commensurate_from, lemma_commensurate_head};
use crate::theory::sector::{
    ascending, in_number_sector, in_momentum_sector, number_sector, momentum_sector,
    lemma_ascending_entries,
};

pub mod number;
pub mod momentum;
pub mod whole;

verus! {

/// The builder of the basis of the sector `value` of a chain with `length`
/// sites.
#[derive(Debug)]
pub struct BasisGenerator<I: EigenValue> {
    pub length: usize,
    pub value: Box<I>,
}

impl<I: EigenValue> Clone for BasisGenerator<I> {
    fn clone(&self) -> (copy: Self)
        ensures
            copy == *self,
    {
        Self { length: self.length, value: Box::new(*self.value) }
    }
}

pub type Basis = BasisGenerator<EmptyValue>;

/// `basis` lists the configurations `reps` of a chain with `length` sites,
/// each together with the chain length.
pub open spec fn lists(basis: Seq<(usize, usize)>, reps: Seq<nat>, length: usize) -> bool {
    &&& basis.len() == reps.len()
    &&& forall|i: int| 0 <= i < reps.len() ==> (#[trigger] basis[i]) == (reps[i] as usize, length)
}

/// `indices` files every configuration of `reps` under its position in
/// `reps`, and nothing else.
pub open spec fn indexes_sector<K: SectorKey>(
    indices: Map<K, usize>,
    label: (usize, usize),
    reps: Seq<nat>,
) -> bool {
    &&& forall|i: int|
        0 <= i < reps.len() ==> indices.contains_key(K::key_of(label, (#[trigger] reps[i]) as usize))
            && indices[K::key_of(label, reps[i] as usize)] == i
    &&& forall|key: K| #[trigger]
        indices.contains_key(key) ==> indices[key] < reps.len() && key == K::key_of(
            label,
            reps[indices[key] as int] as usize,
        )
}

/// `indices` files every member of the orbit of every representative of
/// `reps` under the position of the representative in `reps` and the
/// number of translations that lead from the representative to the member.
pub open spec fn files_orbits<K: SectorKey>(
    indices: Map<K, (usize, usize)>,
    label: (usize, usize),
    reps: Seq<nat>,
    length: nat,
) -> bool {
    forall|i: int, t: nat|
        0 <= i < reps.len() && t < period_of(reps[i], length) ==> indices.contains_key(
            K::key_of(label, (#[trigger] rotate_by(reps[i], length, t)) as usize),
        ) && indices[K::key_of(label, rotate_by(reps[i], length, t) as usize)] == (
            i as usize,
            t as usize,
        )
}

/// `indices` files every member of the orbit of every representative of
/// `reps` as `files_orbits` says, and nothing else.
pub open spec fn indexes_orbits<K: SectorKey>(
    indices: Map<K, (usize, usize)>,
    label: (usize, usize),
    reps: Seq<nat>,
    length: nat,
) -> bool {
    &&& files_orbits(indices, label, reps, length)
    &&& forall|key: K| #[trigger]
        indices.contains_key(key) ==> indices[key].0 < reps.len() && indices[key].1 < period_of(
            reps[indices[key].0 as int],
            length,
        ) && key == K::key_of(
            label,
            rotate_by(reps[indices[key].0 as int], length, indices[key].1 as nat) as usize,
        )
}

/// `after` is `before` with the orbit of `rep` filed in addition, each
/// member under `(idx, t)` where `t` is the number of translations that
/// lead from `rep` to it.
pub open spec fn orbit_recorded<K: SectorKey>(
    before: Map<K, (usize, usize)>,
    after: Map<K, (usize, usize)>,
    label: (usize, usize),
    rep: nat,
    length: nat,
    idx: usize,
) -> bool {
    &&& forall|key: K| #[trigger]
        before.contains_key(key) ==> after.contains_key(key) && after[key] == before[key]
    &&& forall|t: nat|
        t < period_of(rep, length) ==> after.contains_key(
            K::key_of(label, (#[trigger] rotate_by(rep, length, t)) as usize),
        ) && after[K::key_of(label, rotate_by(rep, length, t) as usize)] == (idx, t as usize)
    &&& forall|key: K| #[trigger]
        after.contains_key(key) ==> before.contains_key(key) || (after[key].0 == idx
            && after[key].1 < period_of(rep, length) && key == K::key_of(
            label,
            rotate_by(rep, length, after[key].1 as nat) as usize,
        ))
}

/// A table that files the orbits of `reps` files the orbits of `reps` and
/// of `rep` once the orbit of `rep` has been recorded at the next
/// position.
pub proof fn lemma_recorded_files<K: SectorKey>(
    before: Map<K, (usize, usize)>,
    after: Map<K, (usize, usize)>,
    label: (usize, usize),
    reps: Seq<nat>,
    rep: nat,
    length: nat,
)
    requires
        files_orbits(before, label, reps, length),
        orbit_recorded(before, after, label, rep, length, reps.len() as usize),
    ensures
        files_orbits(after, label, reps.push(rep), length),
{
    let grown = reps.push(rep);
    assert forall|i: int, t: nat|
        0 <= i < grown.len() && t < period_of(grown[i], length) implies after.contains_key(
        K::key_of(label, (#[trigger] rotate_by(grown[i], length, t)) as usize),
    ) && after[K::key_of(label, rotate_by(grown[i], length, t) as usize)] == (
        i as usize,
        t as usize,
    ) by {
        if i < reps.len() {
            assert(reps[i] == grown[i]);
            assert(before.contains_key(K::key_of(label, rotate_by(reps[i], length, t) as usize)));
        }
    }
}

/// A table that decodes the orbits of `reps` decodes the orbits of `reps`
/// and of `rep` once the orbit of `rep` has been recorded at the next
/// position.
pub proof fn lemma_recorded_decodes<K: SectorKey>(
    before: Map<K, (usize, usize)>,
    after: Map<K, (usize, usize)>,
    label: (usize, usize),
    reps: Seq<nat>,
    rep: nat,
    length: nat,
)
    requires
        length >= 1,
        pow2(length) <= usize::MAX,
        reps.len() <= usize::MAX,
        fits(rep, length),
        decodes_orbits(before, label, reps, length),
        orbit_recorded(before, after, label, rep, length, reps.len() as usize),
    ensures
        decodes_orbits(after, label, reps.push(rep), length),
{
    let grown = reps.push(rep);
    assert forall|x: usize| #[trigger] after.contains_key(K::key_of(label, x)) implies after[K::key_of(
        label,
        x,
    )].0 < grown.len() && after[K::key_of(label, x)].1 < period_of(
        grown[after[K::key_of(label, x)].0 as int],
        length,
    ) && x == rotate_by(
        grown[after[K::key_of(label, x)].0 as int],
        length,
        after[K::key_of(label, x)].1 as nat,
    ) by {
        let key = K::key_of(label, x);
        if before.contains_key(key) {
            assert(reps[before[key].0 as int] == grown[before[key].0 as int]);
        } else {
            let t = after[key].1 as nat;
            lemma_rotate_by_fits(rep, length, t);
            K::key_is_faithful(label, x, rotate_by(rep, length, t) as usize);
        }
    }
}

/// A table that indexes the orbits of `reps` indexes the orbits of `reps`
/// and of `rep` once the orbit of `rep` has been recorded at the next
/// position.
pub proof fn lemma_recorded_indexes<K: SectorKey>(
    before: Map<K, (usize, usize)>,
    after: Map<K, (usize, usize)>,
    label: (usize, usize),
    reps: Seq<nat>,
    rep: nat,
    length: nat,
)
    requires
        reps.len() <= usize::MAX,
        indexes_orbits(before, label, reps, length),
        orbit_recorded(before, after, label, rep, length, reps.len() as usize),
    ensures
        indexes_orbits(after, label, reps.push(rep), length),
{
    let grown = reps.push(rep);
    lemma_recorded_files(before, after, label, reps, rep, length);
    assert forall|key: K| #[trigger] after.contains_key(key) implies after[key].0 < grown.len()
        && after[key].1 < period_of(grown[after[key].0 as int], length) && key == K::key_of(
        label,
        rotate_by(grown[after[key].0 as int], length, after[key].1 as nat) as usize,
    ) by {
        if before.contains_key(key) {
            assert(reps[before[key].0 as int] == grown[before[key].0 as int]);
        }
    }
}

/// Files the orbit of `rep` in `indices`, each member under `(idx, t)`
/// where `t` is the number of translations that lead from `rep` to it.
pub(crate) fn record_orbit<K: SectorKey>(
    indices: &mut FnvHashMap<K, (usize, usize)>,
    label: (usize, usize),
    rep: usize,
    length: usize,
    idx: usize,
)
    requires
        fits_chain(rep, length),
        forall|t: nat|
            t < period_of(rep as nat, length as nat) ==> !old(indices)@.contains_key(
                K::key_of(label, (#[trigger] rotate_by(rep as nat, length as nat, t)) as usize),
            ),
    ensures
        orbit_recorded(old(indices)@, final(indices)@, label, rep as nat, length as nat, idx),
{
    let ghost n = rep as nat;
    let ghost l = length as nat;
    let ghost start = indices@;
    let mut temp = rep;
    let mut i: usize = 0;
    proof {
        lemma_period(n, l);
        vstd::bits::lemma_usize_pow2_no_overflow(l);
        assert forall|t: nat| rotate_by(n, l, t) <= usize::MAX by {
            lemma_rotate_by_fits(n, l, t);
        }
    }
    loop
        invariant
            fits_chain(rep, length),
            n == rep,
            l == length,
            fits(temp as nat, l),
            i < period_of(n, l) <= l,
            temp == rotate_by(n, l, i as nat),
            start == old(indices)@,
            forall|t: nat| #[trigger] rotate_by(n, l, t) <= usize::MAX,
            forall|t: nat|
                t < period_of(n, l) ==> !start.contains_key(
                    K::key_of(label, (#[trigger] rotate_by(n, l, t)) as usize),
                ),
            forall|key: K| #[trigger]
                start.contains_key(key) ==> indices@.contains_key(key) && indices@[key]
                    == start[key],
            forall|t: nat|
                t < i ==> indices@.contains_key(
                    K::key_of(label, (#[trigger] rotate_by(n, l, t)) as usize),
                ) && indices@[K::key_of(label, rotate_by(n, l, t) as usize)] == (idx, t as usize),
            forall|key: K| #[trigger]
                indices@.contains_key(key) ==> start.contains_key(key) || (indices@[key].0 == idx
                    && indices@[key].1 < i && key == K::key_of(
                    label,
                    rotate_by(n, l, indices@[key].1 as nat) as usize,
                )),
        decreases period_of(n, l) - i,
    {
        let key = K::make_key(label, temp);
        proof {
            assert forall|t: nat| t < i implies K::key_of(
                label,
                (#[trigger] rotate_by(n, l, t)) as usize,
            ) != key by {
                lemma_orbit_distinct(n, l, t, i as nat);
                if K::key_of(label, rotate_by(n, l, t) as usize) == key {
                    K::key_is_faithful(label, rotate_by(n, l, t) as usize, temp);
                }
            }
        }
        table_insert(indices, key, (idx, i));
        temp = cyclic_move_unsafe(temp, length);
        i += 1;
        assert(temp == rotate_by(n, l, i as nat));
        if temp == rep {
            proof {
                lemma_period(n, l);
                assert(i == period_of(n, l));
            }
            return ;
        }
        proof {
            lemma_period(n, l);
        }
    }
}

/// Scans every configuration of the chain and collects those with `num`
/// set sites, together with the table of their positions.
pub(crate) fn scan_number<K: SectorKey>(length: usize, num: usize, capacity: usize) -> (built: (
    Vec<(usize, usize)>,
    FnvHashMap<K, usize>,
))
    requires
        length < usize::BITS,
    ensures
        lists(built.0@, number_sector(length as nat, num as nat), length),
        indexes_sector(built.1@, (num, 0usize), number_sector(length as nat, num as nat)),
{
    proof {
        lemma_one_shl(length);
    }
    let ghost keep = in_number_sector(num as nat);
    let ghost label = (num, 0usize);
    let max_state: usize = 1usize << length;
    let mut basis: Vec<(usize, usize)> = Vec::with_capacity(capacity);
    let mut indices: FnvHashMap<K, usize> = table_new();
    let mut idx: usize = 0;
    let mut n: usize = 0;
    while n < max_state
        invariant
            n <= max_state == pow2(length as nat),
            keep == in_number_sector(num as nat),
            label == (num, 0usize),
            idx == basis@.len(),
            lists(basis@, ascending(n as nat, keep), length),
            indexes_sector(indices@, label, ascending(n as nat, keep)),
        decreases max_state - n,
    {
        let ghost reps = ascending(n as nat, keep);
        proof {
            lemma_ascending_entries(n as nat, keep);
        }
        if sum_bit(n) == num {
            let key = K::make_key((num, 0), n);
            proof {
                assert forall|i: int| 0 <= i < reps.len() implies K::key_of(
                    label,
                    (#[trigger] reps[i]) as usize,
                ) != key by {
                    if K::key_of(label, reps[i] as usize) == key {
                        K::key_is_faithful(label, reps[i] as usize, n);
                    }
                }
            }
            table_insert(&mut indices, key, idx);
            basis.push((n, length));
            idx += 1;
            proof {
                let grown = ascending((n + 1) as nat, keep);
                assert(grown == reps.push(n as nat));
                assert forall|key: K| #[trigger] indices@.contains_key(key) implies indices@[key]
                    < grown.len() && key == K::key_of(
                    label,
                    grown[indices@[key] as int] as usize,
                ) by {
                    if key != K::key_of(label, n) {
                        assert(reps[indices@[key] as int] == grown[indices@[key] as int]);
                    }
                }
                assert forall|i: int| 0 <= i < grown.len() implies indices@.contains_key(
                    K::key_of(label, (#[trigger] grown[i]) as usize),
                ) && indices@[K::key_of(label, grown[i] as usize)] == i by {
                    if i < reps.len() {
                        assert(reps[i] == grown[i]);
                    }
                }
            }
        }
        n += 1;
    }
    (basis, indices)
}

/// Scans every configuration of the chain and collects the
/// representatives with `m` set sites whose orbit carries a state of
/// momentum `k`, together with the table of the members of their orbits.
pub(crate) fn scan_momentum<K: SectorKey>(length: usize, m: usize, k: usize) -> (built: (
    Vec<(usize, usize)>,
    FnvHashMap<K, (usize, usize)>,
))
    requires
        0 < length < usize::BITS,
    ensures
        lists(built.0@, momentum_sector(length as nat, m as nat, k as nat), length),
        indexes_orbits(
            built.1@,
            (m, k),
            momentum_sector(length as nat, m as nat, k as nat),
            length as nat,
        ),
{
    proof {
        lemma_one_shl(length);
    }
    let ghost l = length as nat;
    let ghost keep = in_momentum_sector(l, m as nat, k as nat);
    let ghost label = (m, k);
    let max_state: usize = 1usize << length;
    let mut basis: Vec<(usize, usize)> = Vec::new();
    let mut indices: FnvHashMap<K, (usize, usize)> = table_new();
    let mut idx: usize = 0;
    let mut n: usize = 0;
    while n < max_state
        invariant
            0 < length < usize::BITS,
            l == length,
            n <= max_state == pow2(l),
            keep == in_momentum_sector(l, m as nat, k as nat),
            label == (m, k),
            idx == basis@.len(),
            lists(basis@, ascending(n as nat, keep), length),
            indexes_orbits(indices@, label, ascending(n as nat, keep), l),
        decreases max_state - n,
    {
        let ghost reps = ascending(n as nat, keep);
        let total = sum_bit(n);
        let p = period_unsafe(n, length);
        if total == m && is_commensurate(k, p, length) && is_rep(n, length) {
            proof {
                lemma_ascending_entries(n as nat, keep);
                lemma_indexes_orbits_decode(indices@, label, reps, l);
                lemma_orbits_unfiled(indices@, label, reps, n as nat, l);
            }
            let ghost before = indices@;
            record_orbit(&mut indices, (m, k), n, length, idx);
            basis.push((n, length));
            idx += 1;
            proof {
                assert(ascending((n + 1) as nat, keep) == reps.push(n as nat));
                lemma_recorded_indexes(before, indices@, label, reps, n as nat, l);
            }
        }
        n += 1;
    }
    (basis, indices)
}

/// `indices` files a configuration of the sector `label` only as a member
/// of the orbit of one of `reps`, under the position of that
/// representative and its distance from it.
pub open spec fn decodes_orbits<K: SectorKey>(
    indices: Map<K, (usize, usize)>,
    label: (usize, usize),
    reps: Seq<nat>,
    length: nat,
) -> bool {
    forall|x: usize| #[trigger]
        indices.contains_key(K::key_of(label, x)) ==> indices[K::key_of(label, x)].0 < reps.len()
            && indices[K::key_of(label, x)].1 < period_of(
            reps[indices[K::key_of(label, x)].0 as int],
            length,
        ) && x == rotate_by(
            reps[indices[K::key_of(label, x)].0 as int],
            length,
            indices[K::key_of(label, x)].1 as nat,
        )
}

/// A table that indexes the orbits of `reps` decodes them.
pub proof fn lemma_indexes_orbits_decode<K: SectorKey>(
    indices: Map<K, (usize, usize)>,
    label: (usize, usize),
    reps: Seq<nat>,
    length: nat,
)
    requires
        length >= 1,
        pow2(length) <= usize::MAX,
        indexes_orbits(indices, label, reps, length),
        forall|i: int| 0 <= i < reps.len() ==> fits(#[trigger] reps[i], length),
    ensures
        decodes_orbits(indices, label, reps, length),
{
    assert forall|x: usize| #[trigger] indices.contains_key(K::key_of(label, x)) implies indices[K::key_of(
        label,
        x,
    )].0 < reps.len() && indices[K::key_of(label, x)].1 < period_of(
        reps[indices[K::key_of(label, x)].0 as int],
        length,
    ) && x == rotate_by(
        reps[indices[K::key_of(label, x)].0 as int],
        length,
        indices[K::key_of(label, x)].1 as nat,
    ) by {
        let key = K::key_of(label, x);
        let rep = reps[indices[key].0 as int];
        let s = indices[key].1 as nat;
        lemma_rotate_by_fits(rep, length, s);
        K::key_is_faithful(label, x, rotate_by(rep, length, s) as usize);
    }
}

/// No member of the orbit of a new representative is filed yet in a table
/// that files the orbits of other representatives only.
pub proof fn lemma_orbits_unfiled<K: SectorKey>(
    indices: Map<K, (usize, usize)>,
    label: (usize, usize),
    reps: Seq<nat>,
    n: nat,
    length: nat,
)
    requires
        length >= 1,
        pow2(length) <= usize::MAX,
        fits(n, length),
        is_representative(n, length),
        decodes_orbits(indices, label, reps, length),
        forall|i: int|
            0 <= i < reps.len() ==> (#[trigger] reps[i]) != n && fits(reps[i], length)
                && is_representative(reps[i], length),
    ensures
        forall|t: nat|
            t < period_of(n, length) ==> !indices.contains_key(
                K::key_of(label, (#[trigger] rotate_by(n, length, t)) as usize),
            ),
{
    assert forall|t: nat| t < period_of(n, length) implies !indices.contains_key(
        K::key_of(label, (#[trigger] rotate_by(n, length, t)) as usize),
    ) by {
        let x = rotate_by(n, length, t) as usize;
        let key = K::key_of(label, x);
        lemma_rotate_by_fits(n, length, t);
        if indices.contains_key(key) {
            let i = indices[key].0 as int;
            let s = indices[key].1 as nat;
            lemma_representatives_disjoint(n, reps[i], length, t, s);
        }
    }
}

impl Basis {
    pub fn new(l: usize) -> (generator: Self)
        ensures
            generator.length == l,
    {
        Self { length: l, value: Box::new(EmptyValue::new()) }
    }

    /// As [`Self::build_light_n`], with the states of the configurations
    /// in place of the configurations.
    pub fn build_n(&self) -> (built: (
        FnvHashMap<(usize, usize), Vec<NumberState>>,
        FnvHashMap<(usize, usize, usize), (usize, usize)>,
    ))
        requires
            0 < self.length < usize::BITS,
        ensures
            forall|m: usize, k: usize| #[trigger]
                number_states_built(
                    built.0@,
                    (m, k),
                    number_sector_upto(pow2(self.length as nat), (m, k)),
                    self.length,
                ),
            forall|m: usize, k: usize| #[trigger]
                positions_within(
                    built.1@,
                    (m, k),
                    number_sector_upto(pow2(self.length as nat), (m, k)),
                ),
    {
        let length = self.length;
        let ghost l = length as nat;
        let ghost top = pow2(l);
        let (light, indices) = self.build_light_n();
        let mut bases: FnvHashMap<(usize, usize), Vec<NumberState>> = table_new();
        let mut m: usize = 0;
        while m <= length
            invariant
                0 < length < usize::BITS,
                l == length,
                top == pow2(l),
                m <= length + 1,
                forall|m1: usize, k1: usize| #[trigger]
                    number_sector_built(
                        light@,
                        indices@,
                        (m1, k1),
                        number_sector_upto(top, (m1, k1)),
                        length,
                    ),
                forall|m1: usize, k1: usize|
                    m1 < m ==> #[trigger] number_states_built(
                        bases@,
                        (m1, k1),
                        number_sector_upto(top, (m1, k1)),
                        length,
                    ),
                forall|label: (usize, usize)| #[trigger] bases@.contains_key(label) ==> label.0 < m,
            decreases length + 1 - m,
        {
            let ghost bases0 = bases@;
            let ghost reps = number_sector_upto(top, (m, 0usize));
            proof {
                assert(number_sector_built(light@, indices@, (m, 0usize), reps, length));
                lemma_ascending_entries(top, in_number_sector(m as nat));
            }
            match table_get(&light, &(m, 0)) {
                Some(list) => {
                    let states = number_states(list, Ghost(reps), length);
                    table_insert(&mut bases, (m, 0), states);
                },
                None => {},
            }
            proof {
                assert forall|m1: usize, k1: usize| m1 < m + 1 implies #[trigger] number_states_built(
                    bases@,
                    (m1, k1),
                    number_sector_upto(top, (m1, k1)),
                    length,
                ) by {
                    if m1 < m {
                        assert(number_states_built(
                            bases0,
                            (m1, k1),
                            number_sector_upto(top, (m1, k1)),
                            length,
                        ));
                    } else if k1 != 0 {
                        assert(!bases0.contains_key((m1, k1)));
                    }
                }
            }
            m += 1;
        }
        proof {
            assert forall|m1: usize, k1: usize| #[trigger]
                number_states_built(
                    bases@,
                    (m1, k1),
                    number_sector_upto(top, (m1, k1)),
                    length,
                ) by {
                if m1 > length {
                    lemma_no_sector_beyond_length(l, top, m1 as nat);
                    assert(!bases@.contains_key((m1, k1)));
                }
            }
            assert forall|m1: usize, k1: usize| #[trigger]
                positions_within(indices@, (m1, k1), number_sector_upto(top, (m1, k1))) by {
                assert(number_sector_built(
                    light@,
                    indices@,
                    (m1, k1),
                    number_sector_upto(top, (m1, k1)),
                    length,
                ));
            }
        }
        (bases, indices)
    }

    /// As [`Self::build_light_nk`], with the states of the representatives
    /// in place of the representatives.
    pub fn build_nk(&self) -> (built: (
        FnvHashMap<(usize, usize), Vec<NumMomentumState>>,
        FnvHashMap<(usize, usize, usize), (usize, usize)>,
    ))
        requires
            0 < self.length < usize::BITS,
        ensures
            forall|m: usize, k: usize| #[trigger]
                momentum_states_built(
                    built.0@,
                    (m, k),
                    momentum_sector_upto(pow2(self.length as nat), self.length as nat, (m, k)),
                    self.length,
                ),
            forall|m: usize, k: usize| #[trigger]
                orbits_within(
                    built.1@,
                    (m, k),
                    momentum_sector_upto(pow2(self.length as nat), self.length as nat, (m, k)),
                    self.length as nat,
                ),
    {
        let length = self.length;
        let ghost l = length as nat;
        let ghost top = pow2(l);
        let (light, indices) = self.build_light_nk();
        let mut bases: FnvHashMap<(usize, usize), Vec<NumMomentumState>> = table_new();
        let mut m: usize = 0;
        while m <= length
            invariant
                0 < length < usize::BITS,
                l == length,
                top == pow2(l),
                m <= length + 1,
                forall|m1: usize, k1: usize| #[trigger]
                    momentum_sector_built(
                        light@,
                        indices@,
                        (m1, k1),
                        momentum_sector_upto(top, l, (m1, k1)),
                        length,
                    ),
                forall|m1: usize, k1: usize|
                    m1 < m ==> #[trigger] momentum_states_built(
                        bases@,
                        (m1, k1),
                        momentum_sector_upto(top, l, (m1, k1)),
                        length,
                    ),
                forall|label: (usize, usize)| #[trigger] bases@.contains_key(label) ==> label.0 < m,
            decreases length + 1 - m,
        {
            let mut k: usize = 0;
            while k < length
                invariant
                    0 < length < usize::BITS,
                    l == length,
                    top == pow2(l),
                    m <= length,
                    k <= length,
                    forall|m1: usize, k1: usize| #[trigger]
                        momentum_sector_built(
                            light@,
                            indices@,
                            (m1, k1),
                            momentum_sector_upto(top, l, (m1, k1)),
                            length,
                        ),
                    forall|m1: usize, k1: usize|
                        walked(m1, k1, m, k) ==> #[trigger] momentum_states_built(
                            bases@,
                            (m1, k1),
                            momentum_sector_upto(top, l, (m1, k1)),
                            length,
                        ),
                    forall|label: (usize, usize)| #[trigger]
                        bases@.contains_key(label) ==> walked(label.0, label.1, m, k),
                decreases length - k,
            {
                let ghost bases0 = bases@;
                let ghost reps = momentum_sector_upto(top, l, (m, k));
                proof {
                    assert(momentum_sector_built(light@, indices@, (m, k), reps, length));
                    lemma_ascending_entries(top, in_momentum_sector(l, m as nat, k as nat));
                }
                match table_get(&light, &(m, k)) {
                    Some(list) => {
                        let sector = EigenNumMomentum(m, k);
                        let states = momentum_states(list, Ghost(reps), &sector, length);
                        table_insert(&mut bases, (m, k), states);
                    },
                    None => {},
                }
                proof {
                    assert forall|m1: usize, k1: usize|
                        walked(m1, k1, m, (k + 1) as usize) implies #[trigger] momentum_states_built(
                        bases@,
                        (m1, k1),
                        momentum_sector_upto(top, l, (m1, k1)),
                        length,
                    ) by {
                        if walked(m1, k1, m, k) {
                            assert(momentum_states_built(
                                bases0,
                                (m1, k1),
                                momentum_sector_upto(top, l, (m1, k1)),
                                length,
                            ));
                        }
                    }
                }
                k += 1;
            }
            proof {
                assert forall|m1: usize, k1: usize| m1 < m + 1 implies #[trigger] momentum_states_built(
                    bases@,
                    (m1, k1),
                    momentum_sector_upto(top, l, (m1, k1)),
                    length,
                ) by {
                    if !walked(m1, k1, m, k) {
                        assert(!bases@.contains_key((m1, k1)));
                    }
                }
            }
            m += 1;
        }
        proof {
            assert forall|m1: usize, k1: usize| #[trigger]
                momentum_states_built(
                    bases@,
                    (m1, k1),
                    momentum_sector_upto(top, l, (m1, k1)),
                    length,
                ) by {
                if m1 > length {
                    lemma_no_sector_beyond_length(l, top, m1 as nat);
                    assert(!bases@.contains_key((m1, k1)));
                }
            }
            assert forall|m1: usize, k1: usize| #[trigger]
                orbits_within(indices@, (m1, k1), momentum_sector_upto(top, l, (m1, k1)), l) by {
                assert(momentum_sector_built(
                    light@,
                    indices@,
                    (m1, k1),
                    momentum_sector_upto(top, l, (m1, k1)),
                    length,
                ));
            }
        }
        (bases, indices)
    }

    /// The bases of all number sectors of the chain at once: under the
    /// label `(m, 0)` of a sector, the configurations of the sector in
    /// increasing order, for every sector that holds a configuration; and
    /// the table that files every configuration, under the label of its
    /// sector followed by the configuration, with its position in the
    /// sector and `0`.
    pub fn build_light_n(&self) -> (built: (
        FnvHashMap<(usize, usize), Vec<(usize, usize)>>,
        FnvHashMap<(usize, usize, usize), (usize, usize)>,
    ))
        requires
            self.length < usize::BITS,
        ensures
            forall|m: usize, k: usize| #[trigger]
                number_sector_built(
                    built.0@,
                    built.1@,
                    (m, k),
                    number_sector_upto(pow2(self.length as nat), (m, k)),
                    self.length,
                ),
    {
        let length = self.length;
        let ghost l = length as nat;
        proof {
            lemma_one_shl(length);
        }
        let max_state: usize = 1usize << length;
        let mut bases: FnvHashMap<(usize, usize), Vec<(usize, usize)>> = table_new();
        let mut indices: FnvHashMap<(usize, usize, usize), (usize, usize)> = table_new();
        let mut n: usize = 0;
        while n < max_state
            invariant
                length < usize::BITS,
                l == length,
                n <= max_state == pow2(l),
                forall|m: usize, k: usize| #[trigger]
                    number_sector_built(
                        bases@,
                        indices@,
                        (m, k),
                        number_sector_upto(n as nat, (m, k)),
                        length,
                    ),
            decreases max_state - n,
        {
            let ghost done = (n + 1) as nat;
            let ghost bases0 = bases@;
            let ghost indices0 = indices@;
            let m = sum_bit(n);
            let ghost before = number_sector_upto(n as nat, (m, 0usize));
            proof {
                assert(number_sector_built(bases@, indices@, (m, 0usize), before, length));
                lemma_ascending_entries(n as nat, in_number_sector(m as nat));
            }
            extend_number_sector(&mut bases, &mut indices, (m, 0), n, length, Ghost(before));
            proof {
                assert forall|m1: usize, k1: usize| #[trigger]
                    number_sector_built(
                        bases@,
                        indices@,
                        (m1, k1),
                        number_sector_upto(done, (m1, k1)),
                        length,
                    ) by {
                    let was = number_sector_upto(n as nat, (m1, k1));
                    let now = number_sector_upto(done, (m1, k1));
                    assert(number_sector_built(bases0, indices0, (m1, k1), was, length));
                    if (m1, k1) == (m, 0usize) {
                        assert(now == before.push(n as nat));
                    } else {
                        assert(now == was);
                    }
                }
            }
            n += 1;
            assert(n as nat == done);
        }
        (bases, indices)
    }

    /// The bases of all momentum sectors of the chain at once: under the
    /// label `(m, k)` of a sector, the representatives of the sector in
    /// increasing order, for every sector with `k` below the chain length
    /// that holds a state; and the table that files every member of every
    /// orbit, under the label of each sector that holds it followed by the
    /// member, with the position of its representative in that sector and
    /// its distance from the representative.
    pub fn build_light_nk(&self) -> (built: (
        FnvHashMap<(usize, usize), Vec<(usize, usize)>>,
        FnvHashMap<(usize, usize, usize), (usize, usize)>,
    ))
        requires
            0 < self.length < usize::BITS,
        ensures
            forall|m: usize, k: usize| #[trigger]
                momentum_sector_built(
                    built.0@,
                    built.1@,
                    (m, k),
                    momentum_sector_upto(pow2(self.length as nat), self.length as nat, (m, k)),
                    self.length,
                ),
    {
        let length = self.length;
        let ghost l = length as nat;
        proof {
            lemma_one_shl(length);
        }
        let max_state: usize = 1usize << length;
        let mut bases: FnvHashMap<(usize, usize), Vec<(usize, usize)>> = table_new();
        let mut indices: FnvHashMap<(usize, usize, usize), (usize, usize)> = table_new();
        let mut n: usize = 0;
        while n < max_state
            invariant
                0 < length < usize::BITS,
                l == length,
                n <= max_state == pow2(l),
                forall|m: usize, k: usize| #[trigger]
                    momentum_sector_built(
                        bases@,
                        indices@,
                        (m, k),
                        momentum_sector_upto(n as nat, l, (m, k)),
                        length,
                    ),
            decreases max_state - n,
        {
            let ghost done = (n + 1) as nat;
            if is_rep(n, length) {
                let m = sum_bit(n);
                let p = period_unsafe(n, length);
                let mut it = CommenIterator::new(p, length);
                let ghost mut cursor: nat = 0;
                proof {
                    assert forall|m1: usize, k1: usize| #[trigger]
                        momentum_sector_built(
                            bases@,
                            indices@,
                            (m1, k1),
                            momentum_sector_during(n as nat, cursor, l, (m1, k1)),
                            length,
                        ) by {
                        assert(momentum_sector_built(
                            bases@,
                            indices@,
                            (m1, k1),
                            momentum_sector_upto(n as nat, l, (m1, k1)),
                            length,
                        ));
                    }
                }
                loop
                    invariant_except_break
                        it@ == commensurate_from(p as nat, l, cursor),
                        forall|m1: usize, k1: usize| #[trigger]
                            momentum_sector_built(
                                bases@,
                                indices@,
                                (m1, k1),
                                momentum_sector_during(n as nat, cursor, l, (m1, k1)),
                                length,
                            ),
                    invariant
                        fits_chain(n, length),
                        l == length,
                        n < pow2(l),
                        is_representative(n as nat, l),
                        done == n + 1,
                        m == popcount(n as nat),
                        p == period_of(n as nat, l),
                        cursor <= l,
                    ensures
                        forall|m1: usize, k1: usize| #[trigger]
                            momentum_sector_built(
                                bases@,
                                indices@,
                                (m1, k1),
                                momentum_sector_upto(done, l, (m1, k1)),
                                length,
                            ),
                    decreases l - cursor,
                {
                    proof {
                        lemma_commensurate_head(p as nat, l, cursor);
                    }
                    let ghost bases0 = bases@;
                    let ghost indices0 = indices@;
                    match it.next() {
                        None => {
                            proof {
                                assert forall|m1: usize, k1: usize| #[trigger]
                                    momentum_sector_built(
                                        bases@,
                                        indices@,
                                        (m1, k1),
                                        momentum_sector_upto(done, l, (m1, k1)),
                                        length,
                                    ) by {
                                    assert(momentum_sector_built(
                                        bases@,
                                        indices@,
                                        (m1, k1),
                                        momentum_sector_during(n as nat, cursor, l, (m1, k1)),
                                        length,
                                    ));
                                    if cursor <= k1 < l {
                                        assert(!commensurate(k1 as nat, p as nat, l));
                                    }
                                }
                            }
                            break ;
                        },
                        Some(k) => {
                            let ghost before = momentum_sector_upto(n as nat, l, (m, k));
                            proof {
                                assert(momentum_sector_built(
                                    bases@,
                                    indices@,
                                    (m, k),
                                    momentum_sector_during(n as nat, cursor, l, (m, k)),
                                    length,
                                ));
                                lemma_ascending_entries(
                                    n as nat,
                                    in_momentum_sector(l, m as nat, k as nat),
                                );
                            }
                            extend_momentum_sector(
                                &mut bases,
                                &mut indices,
                                (m, k),
                                n,
                                length,
                                Ghost(before),
                            );
                            proof {
                                let next = (k + 1) as nat;
                                assert forall|m1: usize, k1: usize| #[trigger]
                                    momentum_sector_built(
                                        bases@,
                                        indices@,
                                        (m1, k1),
                                        momentum_sector_during(n as nat, next, l, (m1, k1)),
                                        length,
                                    ) by {
                                    let was = momentum_sector_during(n as nat, cursor, l, (m1, k1));
                                    let now = momentum_sector_during(n as nat, next, l, (m1, k1));
                                    assert(momentum_sector_built(
                                        bases0,
                                        indices0,
                                        (m1, k1),
                                        was,
                                        length,
                                    ));
                                    if (m1, k1) == (m, k) {
                                        assert(now == before.push(n as nat));
                                    } else {
                                        if cursor <= k1 < k {
                                            assert(!commensurate(k1 as nat, p as nat, l));
                                        }
                                        assert(now == was);
                                    }
                                }
                                cursor = next;
                            }
                        },
                    }
                }
            } else {
                proof {
                    assert forall|m1: usize, k1: usize| #[trigger]
                        momentum_sector_built(
                            bases@,
                            indices@,
                            (m1, k1),
                            momentum_sector_upto(done, l, (m1, k1)),
                            length,
                        ) by {
                        assert(momentum_sector_built(
                            bases@,
                            indices@,
                            (m1, k1),
                            momentum_sector_upto(n as nat, l, (m1, k1)),
                            length,
                        ));
                    }
                }
            }
            n += 1;
            assert(n as nat == done);
        }
        (bases, indices)
    }
}

} // verus!
