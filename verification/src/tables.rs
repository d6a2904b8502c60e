//! Hash tables with the FNV hasher, as the rest of the library uses them.
//!
//! The tables are `fnv::FnvHashMap`s, that is, the hash map of the standard
//! library driven by `fnv::FnvHasher`.  Their contents are described by the
//! view of the map.  The functions below are the only places where a table
//! is touched; the contracts of those that read or change a table state the
//! behaviour of a map and are taken on trust.  Keys are integers and
//! tuples of integers only, whose equality and hashing the standard
//! library defines.

use vstd::prelude::*;
use fnv::FnvHashMap;

mod sealed;

verus! {

/// `fnv::FnvHasher`, the hasher of the tables.
#[verifier::external_type_specification]
#[verifier::external_body]
pub struct ExFnvHasher(fnv::FnvHasher);

/// `std::hash::BuildHasherDefault`, which makes the hashers of a table.
#[verifier::external_type_specification]
#[verifier::external_body]
#[verifier::reject_recursive_types(H)]
pub struct ExBuildHasherDefault<H>(std::hash::BuildHasherDefault<H>);

/// The key types of the tables of this library: machine integers and
/// tuples of them.  No other type can be a key.
pub trait TableKey: Eq + std::hash::Hash + sealed::Sealed {

}

impl TableKey for usize {

}

impl TableKey for i128 {

}

impl TableKey for (usize, usize) {

}

impl TableKey for (usize, usize, usize) {

}

/// An empty table.
pub(crate) fn table_new<K: TableKey, V>() -> (table: FnvHashMap<K, V>)
    ensures
        table@ == Map::<K, V>::empty(),
{
    FnvHashMap::default()
}

/// `HashMap::insert` on a table: afterwards `key` is mapped to `value`, and
/// every other key is mapped as before.
#[verifier::external_body]
pub(crate) fn table_insert<K: TableKey, V>(table: &mut FnvHashMap<K, V>, key: K, value: V)
    ensures
        final(table)@ == old(table)@.insert(key, value),
{
    table.insert(key, value);
}

/// `HashMap::get` on a table: the value stored under `key`, if there is
/// one.
#[verifier::external_body]
pub(crate) fn table_get<'a, K: TableKey, V>(table: &'a FnvHashMap<K, V>, key: &K) -> (value:
    Option<&'a V>)
    ensures
        value is Some <==> table@.contains_key(*key),
        value is Some ==> *value->Some_0 == table@[*key],
{
    table.get(key)
}

/// `HashMap::remove` on a table: takes out the value stored under `key`,
/// if there is one, and leaves every other key as it was.
#[verifier::external_body]
pub(crate) fn table_remove<K: TableKey, V>(table: &mut FnvHashMap<K, V>, key: &K) -> (value: Option<V>)
    ensures
        final(table)@ == old(table)@.remove(*key),
        value is Some <==> old(table)@.contains_key(*key),
        value is Some ==> value->Some_0 == old(table)@[*key],
{
    table.remove(key)
}

/// `HashMap::iter` on a table, collected: every entry of the table once,
/// in the order in which the table hands its entries out.  That order is
/// left open.
#[verifier::external_body]
pub(crate) fn table_entries<'a, K: TableKey, V>(table: &'a FnvHashMap<K, V>) -> (entries: Vec<
    (&'a K, &'a V),
>)
    ensures
        forall|i: int|
            0 <= i < entries@.len() ==> table@.contains_key(*(#[trigger] entries@[i]).0)
                && table@[*entries@[i].0] == *entries@[i].1,
        forall|i: int, j: int|
            0 <= i < j < entries@.len() ==> *(#[trigger] entries@[i]).0 != *(
            #[trigger] entries@[j]).0,
        forall|key: K| #[trigger]
            table@.contains_key(key) ==> exists|i: int|
                0 <= i < entries@.len() && *(#[trigger] entries@[i]).0 == key,
{
    table.iter().collect()
}

/// A key type under which the configurations of a sector are filed.
pub trait SectorKey: TableKey + Sized {
    /// The key of the configuration `x` of the sector labelled `label`.
    spec fn key_of(label: (usize, usize), x: usize) -> Self;

    fn make_key(label: (usize, usize), x: usize) -> (key: Self)
        ensures
            key == Self::key_of(label, x),
    ;

    /// Within one sector, different configurations have different keys.
    proof fn key_is_faithful(label: (usize, usize), x: usize, y: usize)
        requires
            Self::key_of(label, x) == Self::key_of(label, y),
        ensures
            x == y,
    ;
}

/// Within a single sector the configuration itself is the key.
impl SectorKey for usize {
    open spec fn key_of(label: (usize, usize), x: usize) -> usize {
        x
    }

    fn make_key(label: (usize, usize), x: usize) -> (key: usize) {
        x
    }

    proof fn key_is_faithful(label: (usize, usize), x: usize, y: usize) {
    }
}

/// Across sectors the key is the label of the sector followed by the
/// configuration.
impl SectorKey for (usize, usize, usize) {
    open spec fn key_of(label: (usize, usize), x: usize) -> (usize, usize, usize) {
        (label.0, label.1, x)
    }

    fn make_key(label: (usize, usize), x: usize) -> (key: (usize, usize, usize)) {
        (label.0, label.1, x)
    }

    proof fn key_is_faithful(label: (usize, usize), x: usize, y: usize) {
    }
}

} // verus!
