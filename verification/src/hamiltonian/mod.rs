//! The structure of the Ising and XXZ terms on a periodic chain.
//!
//! A term acts on a configuration and yields a diagonal entry and a list of
//! configurations that it couples the configuration to.  The library works
//! out which configurations these are and how many bonds enter the diagonal
//! entry; the coupling constants are real numbers and are multiplied in by
//! the caller.

use vstd::prelude::*;
use fnv::FnvHashMap;
use crate::bases::{lists, indexes_orbits};
use crate::bases::momentum::lists_momentum_states;
use crate::states::{State, fits_chain};
use crate::states::momentum::NumMomentumState;
use crate::states::symmetry::{EigenNumMomentum, EmptyValue};
use crate::theory::sector::{momentum_sector, in_momentum_sector, lemma_ascending_entries};
use crate::states::bit_fns::{bit_flip_unsafe, period_unsafe};
use crate::tables::{SectorKey, table_get};
use crate::theory::orbit::period_of;
use crate::states::iterator::{PeriodicPairEnumerator, PeriodicDistancedPairEnumerator};
use crate::states::symmetry::EigenValue;
use crate::states::bit_fns::lemma_flip_pair_involution;
use crate::theory::bits::{
    bit_at, flip_pair, toggle_bit, popcount, lemma_exchange_conserves, lemma_toggle_bit,
};
use crate::theory::orbit::fits;
use vstd::arithmetic::div_mod::lemma_mod_bound;
use crate::theory::scan::periodic_bonds;

pub mod degeneracy;

verus! {

/// One contribution of a term to the column of a configuration.
#[derive(Copy, Clone, Debug, PartialEq, Eq, Structural)]
pub enum Term {
    /// The two sites of a bond of the given range are opposed, and
    /// exchanging them leads to `target`.  The entry is minus the
    /// transverse coupling of that range.
    Exchange { target: usize, range: usize },
    /// The diagonal entry of the configuration `target`: half the
    /// longitudinal coupling, times the number of opposed nearest bonds
    /// minus the number of aligned ones.
    Diagonal { target: usize, opposed: usize, aligned: usize },
}

/// The sites `i` and `i + dist` of the periodic chain are opposed in `n`.
pub open spec fn opposed_at(n: nat, length: nat, dist: nat, i: nat) -> bool {
    bit_at(n, i) != bit_at(n, (i + dist) % length)
}

/// The number of opposed bonds of range `dist` among the bonds of the
/// sites below `count`.
pub open spec fn opposed_count(n: nat, length: nat, dist: nat, count: nat) -> nat
    decreases count,
{
    if count == 0 {
        0
    } else {
        opposed_count(n, length, dist, (count - 1) as nat) + if opposed_at(
            n,
            length,
            dist,
            (count - 1) as nat,
        ) {
            1nat
        } else {
            0nat
        }
    }
}

/// The exchange that the bond of range `dist` at site `i` gives rise to.
pub open spec fn exchange_at(n: nat, length: nat, dist: nat, i: nat) -> Term {
    Term::Exchange { target: flip_pair(n, i, (i + dist) % length) as usize, range: dist as usize }
}

/// The exchanges across the opposed bonds of range `dist` of the sites
/// below `count`, in the order of the sites.
pub open spec fn exchanges(n: nat, length: nat, dist: nat, count: nat) -> Seq<Term>
    decreases count,
{
    if count == 0 {
        Seq::empty()
    } else {
        let rest = exchanges(n, length, dist, (count - 1) as nat);
        if opposed_at(n, length, dist, (count - 1) as nat) {
            rest.push(exchange_at(n, length, dist, (count - 1) as nat))
        } else {
            rest
        }
    }
}

/// The diagonal entry of `n` on a chain with `length` sites.
pub open spec fn diagonal_of(n: nat, length: nat) -> Term {
    Term::Diagonal {
        target: n as usize,
        opposed: opposed_count(n, length, 1, length) as usize,
        aligned: (length - opposed_count(n, length, 1, length)) as usize,
    }
}

/// The configuration that a contribution leads to.
pub open spec fn target_of(term: Term) -> usize {
    match term {
        Term::Exchange { target, range } => target,
        Term::Diagonal { target, opposed, aligned } => target,
    }
}

/// Every contribution of `terms` leads to a configuration of the chain
/// with as many set sites as `n` has.
pub open spec fn conserves_number(terms: Seq<Term>, n: nat, length: nat) -> bool {
    forall|t: int|
        0 <= t < terms.len() ==> fits(target_of(#[trigger] terms[t]) as nat, length) && popcount(
            target_of(terms[t]) as nat,
        ) == popcount(n)
}

/// Exchanges conserve the number of set sites: every exchange across an
/// opposed bond leads to a configuration of the same chain with as many
/// set sites.
pub proof fn lemma_exchanges_conserve_number(n: nat, length: nat, dist: nat, count: nat)
    requires
        length >= 1,
        fits(n, length),
        count <= length,
        vstd::arithmetic::power2::pow2(length) <= usize::MAX,
    ensures
        conserves_number(exchanges(n, length, dist, count), n, length),
    decreases count,
{
    if count > 0 {
        let i = (count - 1) as nat;
        lemma_exchanges_conserve_number(n, length, dist, i);
        if opposed_at(n, length, dist, i) {
            lemma_mod_bound((i + dist) as int, length as int);
            lemma_exchange_conserves(n, i, (i + dist) % length, length);
        }
    }
}

/// The number of exchanges of range `range` among `terms` that lead to
/// `target`.
pub open spec fn occurrences(terms: Seq<Term>, target: usize, range: usize) -> nat
    decreases terms.len(),
{
    if terms.len() == 0 {
        0
    } else {
        occurrences(terms.drop_last(), target, range) + if terms.last() == (Term::Exchange {
            target,
            range,
        }) {
            1nat
        } else {
            0nat
        }
    }
}

/// An exchange can be undone across the same bond: if the bond of range
/// `dist` at site `i` is opposed in `num` and exchanging it leads to `x`,
/// then it is opposed in `x` and exchanging it leads back to `num`.
pub proof fn lemma_exchange_is_symmetric(num: usize, length: usize, dist: usize, i: usize)
    requires
        fits_chain(num, length),
        i < length,
        opposed_at(num as nat, length as nat, dist as nat, i as nat),
    ensures
        fits(
            flip_pair(num as nat, i as nat, ((i + dist) % (length as int)) as nat),
            length as nat,
        ),
        opposed_at(
            flip_pair(num as nat, i as nat, ((i + dist) % (length as int)) as nat),
            length as nat,
            dist as nat,
            i as nat,
        ),
        flip_pair(
            flip_pair(num as nat, i as nat, ((i + dist) % (length as int)) as nat),
            i as nat,
            ((i + dist) % (length as int)) as nat,
        ) == num,
{
    let n = num as nat;
    let l = length as nat;
    let a = i as nat;
    lemma_mod_bound((i + dist) as int, length as int);
    let b = ((i + dist) % (length as int)) as nat;
    let once = toggle_bit(n, a);
    lemma_toggle_bit(n, a, l);
    lemma_toggle_bit(once, b, l);
    lemma_exchange_conserves(n, a, b, l);
    lemma_flip_pair_involution(num, i, b as usize);
}

/// The couplings of a term are symmetric: among the exchanges of range
/// `dist` of the configuration `num`, as many lead to `other` as lead from
/// `other` to `num`.  With it the matrix of the term is Hermitian.
pub proof fn lemma_couplings_are_symmetric(
    num: usize,
    other: usize,
    length: usize,
    dist: usize,
    count: nat,
)
    requires
        fits_chain(num, length),
        fits_chain(other, length),
        count <= length,
    ensures
        occurrences(exchanges(num as nat, length as nat, dist as nat, count), other, dist)
            == occurrences(exchanges(other as nat, length as nat, dist as nat, count), num, dist),
    decreases count,
{
    if count > 0 {
        let i = (count - 1) as usize;
        let n = num as nat;
        let x = other as nat;
        let l = length as nat;
        let d = dist as nat;
        lemma_couplings_are_symmetric(num, other, length, dist, (count - 1) as nat);
        vstd::bits::lemma_usize_pow2_no_overflow(l);
        lemma_mod_bound((i + dist) as int, length as int);
        let here = exchanges(n, l, d, count);
        let there = exchanges(x, l, d, count);
        if opposed_at(n, l, d, i as nat) {
            lemma_exchange_is_symmetric(num, length, dist, i);
            assert(here.drop_last() =~= exchanges(n, l, d, (count - 1) as nat));
        }
        if opposed_at(x, l, d, i as nat) {
            lemma_exchange_is_symmetric(other, length, dist, i);
            assert(there.drop_last() =~= exchanges(x, l, d, (count - 1) as nat));
        }
    }
}

/// Appends to `terms` the exchanges across the opposed nearest bonds, and
/// counts these bonds.
fn nearest_exchanges(num: usize, length: usize, terms: &mut Vec<Term>) -> (opposed: usize)
    requires
        fits_chain(num, length),
    ensures
        final(terms)@ == old(terms)@ + exchanges(num as nat, length as nat, 1, length as nat),
        opposed == opposed_count(num as nat, length as nat, 1, length as nat),
        opposed <= length,
{
    let ghost n = num as nat;
    let ghost l = length as nat;
    let ghost bonds = periodic_bonds(n, l, 1);
    let mut walker = PeriodicPairEnumerator::new(num, length).unwrap();
    let mut opposed: usize = 0;
    let ghost mut at: nat = 0;
    loop
        invariant_except_break
            walker@ == bonds.skip(at as int),
        invariant
            fits_chain(num, length),
            n == num,
            l == length,
            bonds == periodic_bonds(n, l, 1),
            at <= l,
            opposed == opposed_count(n, l, 1, at),
            opposed <= at,
            terms@ == old(terms)@ + exchanges(n, l, 1, at),
        ensures
            at == l,
        decreases l - at,
    {
        match walker.next() {
            None => {
                break ;
            },
            Some(((i, si), (j, sj))) => {
                assert(bonds.skip(at as int)[0] == bonds[at as int]);
                assert(bonds.skip(at as int).skip(1) =~= bonds.skip(at as int + 1));
                if si != sj {
                    let flipped = bit_flip_unsafe(num, i, j);
                    terms.push(Term::Exchange { target: flipped, range: 1 });
                    opposed += 1;
                }
                proof {
                    assert(terms@ =~= old(terms)@ + exchanges(n, l, 1, at + 1));
                    at = at + 1;
                }
            },
        }
    }
    opposed
}

/// Appends to `terms` the exchanges across the opposed bonds of range
/// `dist`.
fn distanced_exchanges(num: usize, length: usize, dist: usize, terms: &mut Vec<Term>)
    requires
        fits_chain(num, length),
        dist < length,
    ensures
        final(terms)@ == old(terms)@ + exchanges(
            num as nat,
            length as nat,
            dist as nat,
            length as nat,
        ),
{
    let ghost n = num as nat;
    let ghost l = length as nat;
    let ghost d = dist as nat;
    let ghost bonds = periodic_bonds(n, l, d);
    let mut walker = PeriodicDistancedPairEnumerator::new(num, length, dist).unwrap();
    let ghost mut at: nat = 0;
    loop
        invariant_except_break
            walker@ == bonds.skip(at as int),
        invariant
            fits_chain(num, length),
            dist < length,
            n == num,
            l == length,
            d == dist,
            bonds == periodic_bonds(n, l, d),
            at <= l,
            terms@ == old(terms)@ + exchanges(n, l, d, at),
        ensures
            at == l,
        decreases l - at,
    {
        match walker.next() {
            None => {
                break ;
            },
            Some(((i, si), (j, sj))) => {
                assert(bonds.skip(at as int)[0] == bonds[at as int]);
                assert(bonds.skip(at as int).skip(1) =~= bonds.skip(at as int + 1));
                if si != sj {
                    let flipped = bit_flip_unsafe(num, i, j);
                    terms.push(Term::Exchange { target: flipped, range: dist });
                }
                proof {
                    assert(terms@ =~= old(terms)@ + exchanges(n, l, d, at + 1));
                    at = at + 1;
                }
            },
        }
    }
}

/// The Ising term on the nearest bonds of the periodic chain.
#[derive(Copy, Clone, Debug)]
pub struct PeriodicIsing {}

impl PeriodicIsing {
    pub fn new() -> (term: Self) {
        Self {  }
    }

    /// The diagonal entry of the configuration of `state`; the term has no
    /// other entry.
    pub fn apply_to<S, T>(&self, state: &S) -> (entry: Term) where S: State<T>, T: EigenValue
        requires
            fits_chain(state.rep_of(), state.length_of()),
        ensures
            entry == diagonal_of(state.rep_of() as nat, state.length_of() as nat),
    {
        let num = state.rep();
        let length = state.length();
        let mut unused: Vec<Term> = Vec::new();
        let opposed = nearest_exchanges(num, length, &mut unused);
        Term::Diagonal { target: num, opposed, aligned: length - opposed }
    }
}

/// The XXZ term on the nearest bonds of the periodic chain.
#[derive(Copy, Clone, Debug)]
pub struct PeriodicNearestXXZ {}

impl PeriodicNearestXXZ {
    pub fn new() -> (term: Self) {
        Self {  }
    }

    /// The entries of the column of the configuration of `state`: one
    /// exchange for every opposed nearest bond, in the order of the sites,
    /// and the diagonal entry last.
    pub fn apply_to<S, T>(&self, state: &S) -> (terms: Vec<Term>) where S: State<T>, T: EigenValue
        requires
            fits_chain(state.rep_of(), state.length_of()),
        ensures
            terms@ == exchanges(
                state.rep_of() as nat,
                state.length_of() as nat,
                1,
                state.length_of() as nat,
            ).push(diagonal_of(state.rep_of() as nat, state.length_of() as nat)),
            conserves_number(terms@, state.rep_of() as nat, state.length_of() as nat),
    {
        let num = state.rep();
        let length = state.length();
        let mut terms: Vec<Term> = Vec::new();
        let opposed = nearest_exchanges(num, length, &mut terms);
        terms.push(Term::Diagonal { target: num, opposed, aligned: length - opposed });
        proof {
            assert(terms@ =~= exchanges(num as nat, length as nat, 1, length as nat).push(
                diagonal_of(num as nat, length as nat),
            ));
            vstd::bits::lemma_usize_pow2_no_overflow(length as nat);
            lemma_exchanges_conserve_number(num as nat, length as nat, 1, length as nat);
        }
        terms
    }
}

/// The XXZ term on the nearest and the next-nearest bonds of the periodic
/// chain.
#[derive(Copy, Clone, Debug)]
pub struct PeriodicNextNearestXXZ {}

impl PeriodicNextNearestXXZ {
    pub fn new() -> (term: Self) {
        Self {  }
    }

    /// The entries of the column of the configuration of `state`: one
    /// exchange for every opposed nearest bond, then one for every opposed
    /// bond of range two, each in the order of the sites, and the diagonal
    /// entry last.  The bonds of range two do not enter the diagonal entry.
    pub fn apply_to<S, T>(&self, state: &S) -> (terms: Vec<Term>) where S: State<T>, T: EigenValue
        requires
            fits_chain(state.rep_of(), state.length_of()),
            state.length_of() > 2,
        ensures
            terms@ == (exchanges(
                state.rep_of() as nat,
                state.length_of() as nat,
                1,
                state.length_of() as nat,
            ) + exchanges(
                state.rep_of() as nat,
                state.length_of() as nat,
                2,
                state.length_of() as nat,
            )).push(diagonal_of(state.rep_of() as nat, state.length_of() as nat)),
            conserves_number(terms@, state.rep_of() as nat, state.length_of() as nat),
    {
        let num = state.rep();
        let length = state.length();
        let mut terms: Vec<Term> = Vec::new();
        let opposed = nearest_exchanges(num, length, &mut terms);
        distanced_exchanges(num, length, 2, &mut terms);
        terms.push(Term::Diagonal { target: num, opposed, aligned: length - opposed });
        proof {
            assert(terms@ =~= (exchanges(num as nat, length as nat, 1, length as nat) + exchanges(
                num as nat,
                length as nat,
                2,
                length as nat,
            )).push(diagonal_of(num as nat, length as nat)));
            vstd::bits::lemma_usize_pow2_no_overflow(length as nat);
            lemma_exchanges_conserve_number(num as nat, length as nat, 1, length as nat);
            lemma_exchanges_conserve_number(num as nat, length as nat, 2, length as nat);
        }
        terms
    }
}

/// One contribution of a term to the matrix of a momentum sector.  With
/// `w` the entry of `term`, `omega` the phase factor of the sector and
/// `p` the periods, the matrix element at `(row, column)` receives
/// `w * sqrt(column_period) / sqrt(row_period) * omega^shift`.
#[derive(Copy, Clone, Debug, PartialEq, Eq, Structural)]
pub struct Entry {
    /// The position of the state that the term leads to.
    pub row: usize,
    /// The position of the state that the term acts on.
    pub column: usize,
    pub term: Term,
    /// The number of translations that lead from the representative of the
    /// row to the configuration that the term leads to.
    pub shift: usize,
    /// The period of the representative of the column.
    pub column_period: usize,
    /// The period of the representative of the row.
    pub row_period: usize,
}

/// The entry that `term`, acting on the state at `column`, gives rise to
/// when the table files its target under `at`.
pub open spec fn entry_of<T: EigenValue, S: State<T>>(
    column: usize,
    term: Term,
    basis: Seq<S>,
    at: (usize, usize),
) -> Entry {
    Entry {
        row: at.0,
        column,
        term,
        shift: at.1,
        column_period: period_of(
            basis[column as int].rep_of() as nat,
            basis[column as int].length_of() as nat,
        ) as usize,
        row_period: period_of(
            basis[at.0 as int].rep_of() as nat,
            basis[at.0 as int].length_of() as nat,
        ) as usize,
    }
}

/// The entries that the contributions `terms` of the state at `column`
/// give rise to, in their order.  A contribution whose target the table
/// does not hold has no part in the sector and is dropped.
pub open spec fn resolved<T: EigenValue, S: State<T>, K: SectorKey>(
    column: usize,
    terms: Seq<Term>,
    label: (usize, usize),
    basis: Seq<S>,
    indices: Map<K, (usize, usize)>,
) -> Seq<Entry>
    decreases terms.len(),
{
    if terms.len() == 0 {
        Seq::empty()
    } else {
        let rest = resolved(column, terms.drop_last(), label, basis, indices);
        let key = K::key_of(label, target_of(terms.last()));
        if indices.contains_key(key) {
            rest.push(entry_of(column, terms.last(), basis, indices[key]))
        } else {
            rest
        }
    }
}

/// `basis` and `indices` go together: the states of the basis lie on
/// chains that the machine can hold, and the table points into the basis.
pub open spec fn indexed_basis<T: EigenValue, S: State<T>, K: SectorKey>(
    basis: Seq<S>,
    indices: Map<K, (usize, usize)>,
) -> bool {
    &&& forall|i: int|
        0 <= i < basis.len() ==> fits_chain(
            (#[trigger] basis[i]).rep_of(),
            basis[i].length_of(),
        )
    &&& forall|key: K| #[trigger] indices.contains_key(key) ==> indices[key].0 < basis.len()
}

/// The representatives and the table of a momentum sector, as the basis
/// builders hand them out, go together.
pub proof fn lemma_built_basis_is_indexed<K: SectorKey>(
    basis: Seq<(usize, usize)>,
    indices: Map<K, (usize, usize)>,
    length: usize,
    m: usize,
    k: usize,
)
    requires
        0 < length < usize::BITS,
        lists(basis, momentum_sector(length as nat, m as nat, k as nat), length),
        indexes_orbits(
            indices,
            (m, k),
            momentum_sector(length as nat, m as nat, k as nat),
            length as nat,
        ),
    ensures
        indexed_basis::<EmptyValue, (usize, usize), K>(basis, indices),
{
    lemma_ascending_entries(
        vstd::arithmetic::power2::pow2(length as nat),
        in_momentum_sector(length as nat, m as nat, k as nat),
    );
    vstd::bits::lemma_usize_pow2_no_overflow(length as nat);
}

/// The states and the table of a momentum sector, as the basis builders
/// hand them out, go together.
pub proof fn lemma_built_states_are_indexed<K: SectorKey>(
    basis: Seq<NumMomentumState>,
    indices: Map<K, (usize, usize)>,
    length: usize,
    m: usize,
    k: usize,
)
    requires
        0 < length < usize::BITS,
        lists_momentum_states(
            basis,
            momentum_sector(length as nat, m as nat, k as nat),
            EigenNumMomentum(m, k),
            length,
        ),
        indexes_orbits(
            indices,
            (m, k),
            momentum_sector(length as nat, m as nat, k as nat),
            length as nat,
        ),
    ensures
        indexed_basis::<EigenNumMomentum, NumMomentumState, K>(basis, indices),
{
    lemma_ascending_entries(
        vstd::arithmetic::power2::pow2(length as nat),
        in_momentum_sector(length as nat, m as nat, k as nat),
    );
    vstd::bits::lemma_usize_pow2_no_overflow(length as nat);
}

/// Resolves the contributions of one column of the matrix of a term in
/// the sector `label`: looks every target up in the table of the basis
/// and notes row, shift and periods.
pub fn assemble_column<S, T, K>(
    column: usize,
    terms: &Vec<Term>,
    label: (usize, usize),
    basis: &Vec<S>,
    indices: &FnvHashMap<K, (usize, usize)>,
) -> (entries: Vec<Entry>) where S: State<T>, T: EigenValue, K: SectorKey
    requires
        column < basis@.len(),
        indexed_basis::<T, S, K>(basis@, indices@),
    ensures
        entries@ == resolved::<T, S, K>(column, terms@, label, basis@, indices@),
{
    let column_period = period_unsafe(basis[column].rep(), basis[column].length());
    let mut entries: Vec<Entry> = Vec::new();
    let mut at: usize = 0;
    assert(terms@.take(0) =~= Seq::<Term>::empty());
    while at < terms.len()
        invariant
            at <= terms@.len(),
            column < basis@.len(),
            indexed_basis::<T, S, K>(basis@, indices@),
            column_period == period_of(
                basis@[column as int].rep_of() as nat,
                basis@[column as int].length_of() as nat,
            ),
            entries@ == resolved::<T, S, K>(
                column,
                terms@.take(at as int),
                label,
                basis@,
                indices@,
            ),
        decreases terms@.len() - at,
    {
        let term = terms[at];
        proof {
            assert(terms@.take(at + 1).drop_last() =~= terms@.take(at as int));
            assert(terms@.take(at + 1).last() == term);
        }
        let target = match term {
            Term::Exchange { target, range } => target,
            Term::Diagonal { target, opposed, aligned } => target,
        };
        let key = K::make_key(label, target);
        match table_get(indices, &key) {
            Some(found) => {
                let row = found.0;
                let shift = found.1;
                let row_period = period_unsafe(basis[row].rep(), basis[row].length());
                entries.push(Entry { row, column, term, shift, column_period, row_period });
            },
            None => {},
        }
        at += 1;
    }
    assert(terms@.take(at as int) =~= terms@);
    entries
}

/// The entries of the first `upto` columns of a matrix, column by column.
pub open spec fn resolved_columns<T: EigenValue, S: State<T>, K: SectorKey>(
    columns: Seq<Vec<Term>>,
    upto: nat,
    label: (usize, usize),
    basis: Seq<S>,
    indices: Map<K, (usize, usize)>,
) -> Seq<Entry>
    decreases upto,
{
    if upto == 0 {
        Seq::empty()
    } else {
        resolved_columns(columns, (upto - 1) as nat, label, basis, indices) + resolved(
            (upto - 1) as usize,
            columns[upto - 1]@,
            label,
            basis,
            indices,
        )
    }
}

/// Resolves the contributions of all columns of the matrix of a term in
/// the sector `label`; `columns` holds, for every state of the basis, the
/// contributions of the term to its column.
pub fn assemble_matrix<S, T, K>(
    columns: &Vec<Vec<Term>>,
    label: (usize, usize),
    basis: &Vec<S>,
    indices: &FnvHashMap<K, (usize, usize)>,
) -> (entries: Vec<Entry>) where S: State<T>, T: EigenValue, K: SectorKey
    requires
        columns@.len() == basis@.len(),
        indexed_basis::<T, S, K>(basis@, indices@),
    ensures
        entries@ == resolved_columns::<T, S, K>(
            columns@,
            columns@.len(),
            label,
            basis@,
            indices@,
        ),
{
    let mut entries: Vec<Entry> = Vec::new();
    let mut column: usize = 0;
    while column < columns.len()
        invariant
            column <= columns@.len(),
            columns@.len() == basis@.len(),
            indexed_basis::<T, S, K>(basis@, indices@),
            entries@ == resolved_columns::<T, S, K>(
                columns@,
                column as nat,
                label,
                basis@,
                indices@,
            ),
        decreases columns@.len() - column,
    {
        let mut found = assemble_column(column, &columns[column], label, basis, indices);
        entries.append(&mut found);
        column += 1;
    }
    entries
}

} // verus!
