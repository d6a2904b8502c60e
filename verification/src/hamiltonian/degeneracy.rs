//! Bookkeeping of degenerate levels across sectors.
//!
//! Eigenvalues are sorted into bins of a fixed width; a level is
//! identified by the number of its bin, `floor(energy / width)`, which the
//! caller computes.  The functions below collect, bin by bin, which
//! eigenstates of which sectors fall together, and derive from that how an
//! average over eigenstates is to be pooled.

use vstd::prelude::*;
use fnv::FnvHashMap;
use crate::error::{Error, ErrorCode, fails_with};
use crate::states::symmetry::EigenValue;
use crate::tables::{table_new, table_insert, table_get, table_remove, table_entries};

verus! {

/// The contents of a table of lists.
pub open spec fn lists_of<K, E>(table: Map<K, Vec<E>>) -> Map<K, Seq<E>> {
    Map::new(|key: K| table.contains_key(key), |key: K| table[key]@)
}

/// The bin that takes in an eigenvalue of bin `k`: the bin `k` itself if it
/// is there, else the bin below it, else the bin above it.
pub open spec fn home_of<V>(buckets: Map<i128, Seq<(V, usize)>>, k: i128) -> Option<i128> {
    if buckets.contains_key(k) {
        Some(k)
    } else if k > i128::MIN && buckets.contains_key((k - 1) as i128) {
        Some((k - 1) as i128)
    } else if k < i128::MAX && buckets.contains_key((k + 1) as i128) {
        Some((k + 1) as i128)
    } else {
        None
    }
}

/// The bins after the eigenvalue `idx` of `sector`, of bin `k`, has been
/// taken in.  Where no bin takes it in, a new bin is opened if `create`
/// holds, and the eigenvalue is left out otherwise.
pub open spec fn absorbed<V>(
    buckets: Map<i128, Seq<(V, usize)>>,
    sector: V,
    idx: usize,
    k: i128,
    create: bool,
) -> Map<i128, Seq<(V, usize)>> {
    match home_of(buckets, k) {
        Some(home) => buckets.insert(home, buckets[home].push((sector, idx))),
        None => if create {
            buckets.insert(k, seq![(sector, idx)])
        } else {
            buckets
        },
    }
}

/// The bins after the eigenvalues of `sector` with the bin numbers `ids`
/// have been taken in, one after the other.
pub open spec fn absorbed_all<V>(
    buckets: Map<i128, Seq<(V, usize)>>,
    sector: V,
    ids: Seq<i128>,
    create: bool,
) -> Map<i128, Seq<(V, usize)>>
    decreases ids.len(),
{
    if ids.len() == 0 {
        buckets
    } else {
        absorbed(
            absorbed_all(buckets, sector, ids.drop_last(), create),
            sector,
            (ids.len() - 1) as usize,
            ids.last(),
            create,
        )
    }
}

/// No bin is empty.
pub open spec fn all_bins_filled<V>(buckets: Map<i128, Seq<(V, usize)>>) -> bool {
    forall|k: i128| #[trigger] buckets.contains_key(k) ==> buckets[k].len() > 0
}

/// Taking eigenvalues in leaves no bin empty.
pub proof fn lemma_absorbing_fills_bins<V>(
    buckets: Map<i128, Seq<(V, usize)>>,
    sector: V,
    ids: Seq<i128>,
    create: bool,
)
    requires
        all_bins_filled(buckets),
    ensures
        all_bins_filled(absorbed_all(buckets, sector, ids, create)),
    decreases ids.len(),
{
    if ids.len() > 0 {
        lemma_absorbing_fills_bins(buckets, sector, ids.drop_last(), create);
    }
}

/// Taking eigenvalues in without opening bins leaves the set of bins as it
/// is.
pub proof fn lemma_absorbing_keeps_bins<V>(
    buckets: Map<i128, Seq<(V, usize)>>,
    sector: V,
    ids: Seq<i128>,
)
    ensures
        absorbed_all(buckets, sector, ids, false).dom() =~= buckets.dom(),
        forall|k: i128|
            home_of(absorbed_all(buckets, sector, ids, false), k) == #[trigger] home_of(
                buckets,
                k,
            ),
    decreases ids.len(),
{
    if ids.len() > 0 {
        lemma_absorbing_keeps_bins(buckets, sector, ids.drop_last());
    }
}

/// Takes one eigenvalue in.
fn absorb<V: EigenValue>(
    energy_map: &mut FnvHashMap<i128, Vec<(V, usize)>>,
    index: V,
    idx: usize,
    k: i128,
    create: bool,
) -> (matched: bool)
    ensures
        lists_of(final(energy_map)@) == absorbed(lists_of(old(energy_map)@), index, idx, k, create),
        matched == home_of(lists_of(old(energy_map)@), k) is Some,
{
    let home = if table_get(energy_map, &k).is_some() {
        Some(k)
    } else if k > i128::MIN && table_get(energy_map, &(k - 1)).is_some() {
        Some(k - 1)
    } else if k < i128::MAX && table_get(energy_map, &(k + 1)).is_some() {
        Some(k + 1)
    } else {
        None
    };
    match home {
        Some(home) => {
            let mut list = match table_remove(energy_map, &home) {
                Some(list) => list,
                None => Vec::new(),
            };
            list.push((index, idx));
            table_insert(energy_map, home, list);
            assert(lists_of(energy_map@) =~= absorbed(
                lists_of(old(energy_map)@),
                index,
                idx,
                k,
                create,
            ));
            true
        },
        None => {
            if create {
                let mut list = Vec::new();
                list.push((index, idx));
                table_insert(energy_map, k, list);
            }
            assert(lists_of(energy_map@) =~= absorbed(
                lists_of(old(energy_map)@),
                index,
                idx,
                k,
                create,
            ));
            false
        },
    }
}

/// Sorts the eigenvalues of the sector `index` into bins.  `bucket_ids`
/// holds the bin number of each eigenvalue, in the order of the
/// eigenvalues.  An eigenvalue joins its own bin, or else the bin below, or
/// else the bin above, whichever is there first; if none is there, it opens
/// its own bin.
pub fn prepare_energy_map<V: EigenValue>(index: V, bucket_ids: &Vec<i128>) -> (energy_map:
    FnvHashMap<i128, Vec<(V, usize)>>)
    ensures
        lists_of(energy_map@) == absorbed_all(Map::empty(), index, bucket_ids@, true),
        all_bins_filled(lists_of(energy_map@)),
{
    proof {
        lemma_absorbing_fills_bins(Map::empty(), index, bucket_ids@, true);
    }
    let mut energy_map: FnvHashMap<i128, Vec<(V, usize)>> = table_new();
    let mut idx: usize = 0;
    assert(lists_of(energy_map@) =~= Map::<i128, Seq<(V, usize)>>::empty());
    assert(bucket_ids@.take(0) =~= Seq::<i128>::empty());
    while idx < bucket_ids.len()
        invariant
            idx <= bucket_ids.len(),
            lists_of(energy_map@) == absorbed_all(
                Map::empty(),
                index,
                bucket_ids@.take(idx as int),
                true,
            ),
        decreases bucket_ids.len() - idx,
    {
        proof {
            assert(bucket_ids@.take(idx + 1).drop_last() =~= bucket_ids@.take(idx as int));
        }
        absorb(&mut energy_map, index, idx, bucket_ids[idx], true);
        idx += 1;
    }
    assert(bucket_ids@.take(idx as int) =~= bucket_ids@);
    energy_map
}

/// Sorts the eigenvalues of a further sector into the bins that are there
/// already, by the rule of [`prepare_energy_map`]; an eigenvalue that
/// finds no bin is left out.  Says whether any eigenvalue found a bin.
pub fn count_degeneracy_from<V: EigenValue>(
    energy_map: &mut FnvHashMap<i128, Vec<(V, usize)>>,
    index: V,
    bucket_ids: &Vec<i128>,
) -> (t: bool)
    ensures
        lists_of(final(energy_map)@) == absorbed_all(
            lists_of(old(energy_map)@),
            index,
            bucket_ids@,
            false,
        ),
        t == exists|i: int|
            0 <= i < bucket_ids@.len() && (#[trigger] home_of(
                lists_of(old(energy_map)@),
                bucket_ids@[i],
            )) is Some,
        all_bins_filled(lists_of(old(energy_map)@)) ==> all_bins_filled(
            lists_of(final(energy_map)@),
        ),
{
    let ghost start = lists_of(energy_map@);
    proof {
        if all_bins_filled(start) {
            lemma_absorbing_fills_bins(start, index, bucket_ids@, false);
        }
    }
    let mut t = false;
    let mut idx: usize = 0;
    assert(bucket_ids@.take(0) =~= Seq::<i128>::empty());
    while idx < bucket_ids.len()
        invariant
            idx <= bucket_ids.len(),
            start == lists_of(old(energy_map)@),
            lists_of(energy_map@) == absorbed_all(start, index, bucket_ids@.take(idx as int), false),
            t == exists|i: int|
                0 <= i < idx && (#[trigger] home_of(start, bucket_ids@[i])) is Some,
        decreases bucket_ids.len() - idx,
    {
        proof {
            assert(bucket_ids@.take(idx + 1).drop_last() =~= bucket_ids@.take(idx as int));
            lemma_absorbing_keeps_bins(start, index, bucket_ids@.take(idx as int));
        }
        let ghost before = t;
        let matched = absorb(energy_map, index, idx, bucket_ids[idx], false);
        if matched {
            t = true;
        }
        proof {
            let here = home_of(start, bucket_ids@[idx as int]);
            assert(matched == (here is Some));
            if before {
                let i = choose|i: int|
                    0 <= i < idx && (#[trigger] home_of(start, bucket_ids@[i])) is Some;
                assert(home_of(start, bucket_ids@[i]) is Some);
            }
        }
        idx += 1;
    }
    assert(bucket_ids@.take(idx as int) =~= bucket_ids@);
    t
}

/// The weight of an eigenstate in an average that is pooled over
/// degenerate levels.
#[derive(Copy, Clone, Debug, PartialEq, Eq, Structural)]
pub enum Weight {
    /// The eigenstate stands for a level with this many members and
    /// carries the reciprocal of that number for each of them; `Share(1)`
    /// is the full weight of a level of its own.
    Share(usize),
    /// The eigenstate is left out: its level is counted at the eigenstate
    /// that stands for it.
    Folded,
}

/// The lists after `entry` has been appended to the list of `label`.
pub open spec fn filed<E>(lists: Map<(usize, usize), Seq<E>>, label: (usize, usize), entry: E) -> Map<
    (usize, usize),
    Seq<E>,
> {
    if lists.contains_key(label) {
        lists.insert(label, lists[label].push(entry))
    } else {
        lists.insert(label, seq![entry])
    }
}

/// Every eigenstate that a bin records lies within a basis of `length`
/// states.
pub open spec fn recordable<V>(bucket: Seq<(V, usize)>, length: nat) -> bool {
    forall|j: int| 0 <= j < bucket.len() ==> (#[trigger] bucket[j]).1 < length
}

/// Every bin is recordable.
pub open spec fn all_recordable<V>(buckets: Seq<Seq<(V, usize)>>, length: nat) -> bool {
    forall|i: int| 0 <= i < buckets.len() ==> recordable(#[trigger] buckets[i], length)
}

/// The member `j` of a bin receives a weight: it is the first member, or
/// a further member of the sector of the first.
pub open spec fn weighs<V>(bucket: Seq<(V, usize)>, j: int) -> bool {
    0 <= j < bucket.len() && bucket[j].0 == bucket[0].0
}

/// The weights after the first `upto` members of a bin have been looked
/// at: the first member stands for the bin, the further members of its
/// sector are folded into it.
pub open spec fn bucket_weights<V>(weights: Seq<Weight>, bucket: Seq<(V, usize)>, upto: nat) -> Seq<
    Weight,
>
    decreases upto,
{
    if upto == 0 {
        weights
    } else if upto == 1 {
        weights.update(bucket[0].1 as int, Weight::Share(bucket.len() as usize))
    } else {
        let rest = bucket_weights(weights, bucket, (upto - 1) as nat);
        if bucket[upto - 1].0 == bucket[0].0 {
            rest.update(bucket[upto - 1].1 as int, Weight::Folded)
        } else {
            rest
        }
    }
}

/// The redirections after the first `upto` members of a bin have been
/// looked at: every member of another sector than the first is
/// redirected, in the list of its sector, to the first.
pub open spec fn bucket_pairs<V: EigenValue>(
    pairs: Map<(usize, usize), Seq<(usize, usize)>>,
    bucket: Seq<(V, usize)>,
    upto: nat,
) -> Map<(usize, usize), Seq<(usize, usize)>>
    decreases upto,
{
    if upto <= 1 {
        pairs
    } else {
        let rest = bucket_pairs(pairs, bucket, (upto - 1) as nat);
        if bucket[upto - 1].0 == bucket[0].0 {
            rest
        } else {
            filed(rest, bucket[upto - 1].0.label_of(), (bucket[upto - 1].1, bucket[0].1))
        }
    }
}

/// The weights of a basis of `length` states after the bins have been
/// looked at in their order.
pub open spec fn pooled_weights<V>(length: nat, buckets: Seq<Seq<(V, usize)>>) -> Seq<Weight>
    decreases buckets.len(),
{
    if buckets.len() == 0 {
        Seq::new(length, |i: int| Weight::Share(1))
    } else {
        bucket_weights(
            pooled_weights(length, buckets.drop_last()),
            buckets.last(),
            buckets.last().len(),
        )
    }
}

/// The redirections, sector by sector, after the bins have been looked at
/// in their order.
pub open spec fn pooled_pairs<V: EigenValue>(buckets: Seq<Seq<(V, usize)>>) -> Map<
    (usize, usize),
    Seq<(usize, usize)>,
>
    decreases buckets.len(),
{
    if buckets.len() == 0 {
        Map::empty()
    } else {
        bucket_pairs(pooled_pairs(buckets.drop_last()), buckets.last(), buckets.last().len())
    }
}

/// The redirections of the member `from` of a bin after the first `upto`
/// members of its sector have been paired with it.
pub open spec fn entry_triples<V: EigenValue>(
    triples: Map<(usize, usize), Seq<(usize, usize, usize)>>,
    bucket: Seq<(V, usize)>,
    from: int,
    upto: nat,
) -> Map<(usize, usize), Seq<(usize, usize, usize)>>
    decreases upto,
{
    if upto == 0 {
        triples
    } else {
        let rest = entry_triples(triples, bucket, from, (upto - 1) as nat);
        if bucket[upto - 1].0 == bucket[from].0 {
            filed(
                rest,
                bucket[from].0.label_of(),
                (bucket[from].1, bucket[upto - 1].1, bucket[0].1),
            )
        } else {
            rest
        }
    }
}

/// The redirections of matrix elements after the first `upto` members of
/// a bin have been looked at: every member of another sector than the
/// first is redirected, together with every member of its own sector, to
/// the first.
pub open spec fn bucket_triples<V: EigenValue>(
    triples: Map<(usize, usize), Seq<(usize, usize, usize)>>,
    bucket: Seq<(V, usize)>,
    upto: nat,
) -> Map<(usize, usize), Seq<(usize, usize, usize)>>
    decreases upto,
{
    if upto <= 1 {
        triples
    } else {
        let rest = bucket_triples(triples, bucket, (upto - 1) as nat);
        if bucket[upto - 1].0 == bucket[0].0 {
            rest
        } else {
            entry_triples(rest, bucket, upto - 1, bucket.len())
        }
    }
}

/// The redirections of matrix elements, sector by sector, after the bins
/// have been looked at in their order.
pub open spec fn pooled_triples<V: EigenValue>(buckets: Seq<Seq<(V, usize)>>) -> Map<
    (usize, usize),
    Seq<(usize, usize, usize)>,
>
    decreases buckets.len(),
{
    if buckets.len() == 0 {
        Map::empty()
    } else {
        bucket_triples(pooled_triples(buckets.drop_last()), buckets.last(), buckets.last().len())
    }
}

/// The contents of a list of bins.
pub open spec fn contents<V>(buckets: Seq<Vec<(V, usize)>>) -> Seq<Seq<(V, usize)>> {
    Seq::new(buckets.len(), |i: int| buckets[i]@)
}

/// `r` is the outcome of pairing the bins `buckets` for a basis of
/// `length` states: the weights and the redirections if every bin is
/// recordable, and `Err(OverFlow)` otherwise.
pub open spec fn is_pairing<V: EigenValue>(
    r: Result<(Vec<Weight>, FnvHashMap<(usize, usize), Vec<(usize, usize)>>), Error>,
    length: nat,
    buckets: Seq<Seq<(V, usize)>>,
) -> bool {
    &&& !all_recordable(buckets, length) ==> fails_with(r, ErrorCode::OverFlow)
    &&& all_recordable(buckets, length) ==> r is Ok && r->Ok_0.0@ == pooled_weights(
        length,
        buckets,
    ) && lists_of(r->Ok_0.1@) == pooled_pairs(buckets)
}

/// As [`is_pairing`], for the redirections of matrix elements.
pub open spec fn is_tripling<V: EigenValue>(
    r: Result<(Vec<Weight>, FnvHashMap<(usize, usize), Vec<(usize, usize, usize)>>), Error>,
    length: nat,
    buckets: Seq<Seq<(V, usize)>>,
) -> bool {
    &&& !all_recordable(buckets, length) ==> fails_with(r, ErrorCode::OverFlow)
    &&& all_recordable(buckets, length) ==> r is Ok && r->Ok_0.0@ == pooled_weights(
        length,
        buckets,
    ) && lists_of(r->Ok_0.1@) == pooled_triples(buckets)
}

/// One of the members `1, .., upto - 1` of the bin is a further member
/// of the first sector and is the eigenstate `i`.
pub open spec fn folds_upto<V>(bucket: Seq<(V, usize)>, i: int, upto: nat) -> bool {
    exists|j: int| 1 <= j < upto && weighs(bucket, j) && (#[trigger] bucket[j]).1 == i
}

/// The bin folds the eigenstate `i`: a further member of the first sector
/// is the eigenstate `i`.
pub open spec fn folds<V>(bucket: Seq<(V, usize)>, i: int) -> bool {
    folds_upto(bucket, i, bucket.len())
}

/// The bin gives the eigenstate `i` a weight: its first member is the
/// eigenstate `i`, or it folds the eigenstate `i`.
pub open spec fn touches<V>(bucket: Seq<(V, usize)>, i: int) -> bool {
    (bucket.len() > 0 && bucket[0].1 == i) || folds(bucket, i)
}

/// What a bin does to the weight of the eigenstate `i`: if the bin folds
/// it, it is folded; else, if it is the first member, it carries one part
/// in as many as the bin has members, so that the parts of all members add
/// up to one; else its weight stays as it was.
pub proof fn lemma_bucket_weights<V>(
    weights: Seq<Weight>,
    bucket: Seq<(V, usize)>,
    upto: nat,
    i: int,
)
    requires
        1 <= upto <= bucket.len(),
        recordable(bucket, weights.len()),
        0 <= i < weights.len(),
    ensures
        bucket_weights(weights, bucket, upto).len() == weights.len(),
        bucket_weights(weights, bucket, upto)[i] == if folds_upto(bucket, i, upto) {
            Weight::Folded
        } else if bucket[0].1 == i {
            Weight::Share(bucket.len() as usize)
        } else {
            weights[i]
        },
    decreases upto,
{
    assert(bucket[0].1 < weights.len());
    if upto > 1 {
        let before = (upto - 1) as nat;
        lemma_bucket_weights(weights, bucket, before, i);
        let last = bucket[upto - 1];
        assert(last.1 < weights.len());
        if weighs(bucket, upto - 1) && last.1 == i {
            assert(folds_upto(bucket, i, upto));
        } else if folds_upto(bucket, i, before) {
            let j = choose|j: int| 1 <= j < before && weighs(bucket, j) && (#[trigger] bucket[j]).1 == i;
            assert(1 <= j < upto && weighs(bucket, j) && bucket[j].1 == i);
        } else if folds_upto(bucket, i, upto) {
            let j = choose|j: int| 1 <= j < upto && weighs(bucket, j) && (#[trigger] bucket[j]).1 == i;
            assert(1 <= j < before && weighs(bucket, j) && bucket[j].1 == i);
        }
    }
}

/// The weight that a list of bins gives the eigenstate `i`, where every
/// bin has a member and records eigenstates of the basis only:
/// - if no bin gives it a weight, it keeps the full weight;
/// - if it is the first member of no bin and some bin folds it, it is
///   folded;
/// - if it is the first member of one bin and receives no other weight,
///   it carries one part in as many as that bin has members.
/// The order of the bins has no part in any of the three.
pub proof fn lemma_pooled_weights<V>(length: nat, buckets: Seq<Seq<(V, usize)>>, i: int)
    requires
        forall|a: int| 0 <= a < buckets.len() ==> (#[trigger] buckets[a]).len() > 0,
        all_recordable(buckets, length),
        0 <= i < length,
    ensures
        pooled_weights(length, buckets).len() == length,
        (forall|a: int| 0 <= a < buckets.len() ==> !touches(#[trigger] buckets[a], i))
            ==> pooled_weights(length, buckets)[i] == Weight::Share(1),
        (forall|a: int| 0 <= a < buckets.len() ==> (#[trigger] buckets[a])[0].1 != i) && (
        exists|a: int| 0 <= a < buckets.len() && folds(#[trigger] buckets[a], i))
            ==> pooled_weights(length, buckets)[i] == Weight::Folded,
        forall|a: int|
            0 <= a < buckets.len() && (#[trigger] buckets[a])[0].1 == i && !folds(buckets[a], i)
                && (forall|b: int|
                0 <= b < buckets.len() && b != a ==> !touches(#[trigger] buckets[b], i))
                ==> pooled_weights(length, buckets)[i] == Weight::Share(
                buckets[a].len() as usize,
            ),
    decreases buckets.len(),
{
    if buckets.len() > 0 {
        let before = buckets.drop_last();
        let last = buckets.last();
        let at = buckets.len() - 1;
        assert forall|a: int| 0 <= a < before.len() implies #[trigger] before[a] == buckets[a] by {}
        assert(buckets[at] == last);
        assert(all_recordable(before, length)) by {
            assert forall|a: int| 0 <= a < before.len() implies recordable(
                #[trigger] before[a],
                length,
            ) by {
                assert(before[a] == buckets[a]);
            }
        }
        lemma_pooled_weights(length, before, i);
        let earlier = pooled_weights(length, before);
        let weights = pooled_weights(length, buckets);
        assert(recordable(last, length));
        lemma_bucket_weights(earlier, last, last.len(), i);
        if forall|a: int| 0 <= a < buckets.len() ==> !touches(#[trigger] buckets[a], i) {
            assert(!touches(buckets[at], i));
            assert forall|a: int| 0 <= a < before.len() implies !touches(
                #[trigger] before[a],
                i,
            ) by {
                assert(!touches(buckets[a], i));
            }
        }
        if (forall|a: int| 0 <= a < buckets.len() ==> (#[trigger] buckets[a])[0].1 != i) && (
        exists|a: int| 0 <= a < buckets.len() && folds(#[trigger] buckets[a], i)) {
            assert(buckets[at][0].1 != i);
            if !folds(last, i) {
                let a = choose|a: int| 0 <= a < buckets.len() && folds(#[trigger] buckets[a], i);
                assert(a < at);
                assert(folds(before[a], i));
                assert forall|b: int| 0 <= b < before.len() implies (#[trigger] before[b])[0].1
                    != i by {
                    assert(buckets[b][0].1 != i);
                }
            }
        }
        assert forall|a: int|
            0 <= a < buckets.len() && (#[trigger] buckets[a])[0].1 == i && !folds(buckets[a], i)
                && (forall|b: int|
                0 <= b < buckets.len() && b != a ==> !touches(
                    #[trigger] buckets[b],
                    i,
                )) implies weights[i] == Weight::Share(buckets[a].len() as usize) by {
            if a < at {
                assert(!touches(buckets[at], i));
                assert(before[a] == buckets[a]);
                assert forall|b: int| 0 <= b < before.len() && b != a implies !touches(
                    #[trigger] before[b],
                    i,
                ) by {
                    assert(!touches(buckets[b], i));
                }
            }
        }
    }
}

/// Appends `entry` to the list of `label`.
fn file_under<E>(lists: &mut FnvHashMap<(usize, usize), Vec<E>>, label: (usize, usize), entry: E)
    ensures
        lists_of(final(lists)@) == filed(lists_of(old(lists)@), label, entry),
{
    let mut list = match table_remove(lists, &label) {
        Some(list) => list,
        None => Vec::new(),
    };
    list.push(entry);
    table_insert(lists, label, list);
    assert(lists_of(lists@) =~= filed(lists_of(old(lists)@), label, entry));
}

/// Whether two labels denote the same sector.
fn same_sector<V: EigenValue>(one: &V, other: &V) -> (same: bool)
    ensures
        same == (*one == *other),
{
    let mine = one.label();
    let theirs = other.label();
    proof {
        if mine == theirs {
            one.label_is_faithful(other);
        }
    }
    mine.0 == theirs.0 && mine.1 == theirs.1
}

/// The weights of a basis of `length` states before any bin has been
/// looked at.
fn full_weights(length: usize) -> (counts: Vec<Weight>)
    ensures
        counts@ == Seq::new(length as nat, |i: int| Weight::Share(1)),
{
    let mut counts: Vec<Weight> = Vec::with_capacity(length);
    let mut filled: usize = 0;
    while filled < length
        invariant
            filled <= length,
            counts@ == Seq::new(filled as nat, |i: int| Weight::Share(1)),
        decreases length - filled,
    {
        counts.push(Weight::Share(1));
        filled += 1;
        assert(counts@ =~= Seq::new(filled as nat, |i: int| Weight::Share(1)));
    }
    counts
}

/// Sets the weights that one bin gives rise to; `false` if the bin is not
/// recordable.
fn weigh_bucket<V: EigenValue>(counts: &mut Vec<Weight>, bucket: &Vec<(V, usize)>) -> (ok: bool)
    requires
        bucket@.len() > 0,
    ensures
        ok == recordable(bucket@, old(counts)@.len()),
        ok ==> final(counts)@ == bucket_weights(old(counts)@, bucket@, bucket@.len()),
        final(counts)@.len() == old(counts)@.len(),
{
    let length = counts.len();
    let (egn_v0, idx0) = bucket[0];
    if length <= idx0 {
        return false;
    }
    counts.set(idx0, Weight::Share(bucket.len()));
    let mut j: usize = 1;
    while j < bucket.len()
        invariant
            1 <= j <= bucket@.len(),
            length == old(counts)@.len(),
            counts@.len() == length,
            (egn_v0, idx0) == bucket@[0],
            counts@ == bucket_weights(old(counts)@, bucket@, j as nat),
            forall|i: int| 0 <= i < j ==> (#[trigger] bucket@[i]).1 < length,
        decreases bucket@.len() - j,
    {
        let (egn_v, idx) = bucket[j];
        if length <= idx {
            return false;
        }
        if same_sector(&egn_v, &egn_v0) {
            counts.set(idx, Weight::Folded);
        }
        j += 1;
    }
    true
}

/// The weights that the bins give rise to, looked at in their order;
/// `None` if a bin is not recordable.
fn weigh_buckets<V: EigenValue>(length: usize, buckets: &Vec<Vec<(V, usize)>>) -> (weights: Option<
    Vec<Weight>,
>)
    requires
        forall|i: int| 0 <= i < buckets@.len() ==> (#[trigger] buckets@[i])@.len() > 0,
    ensures
        weights is Some <==> all_recordable(contents(buckets@), length as nat),
        weights is Some ==> weights->Some_0@ == pooled_weights(
            length as nat,
            contents(buckets@),
        ),
{
    let ghost all = contents(buckets@);
    let mut counts = full_weights(length);
    let mut at: usize = 0;
    proof {
        assert(all.take(0) =~= Seq::<Seq<(V, usize)>>::empty());
    }
    while at < buckets.len()
        invariant
            at <= buckets@.len(),
            all == contents(buckets@),
            forall|i: int| 0 <= i < buckets@.len() ==> (#[trigger] buckets@[i])@.len() > 0,
            counts@.len() == length,
            all_recordable(all.take(at as int), length as nat),
            counts@ == pooled_weights(length as nat, all.take(at as int)),
        decreases buckets@.len() - at,
    {
        let bucket = &buckets[at];
        proof {
            assert(all.take(at + 1).drop_last() =~= all.take(at as int));
            assert(all.take(at + 1).last() == bucket@);
            assert(all[at as int] == bucket@);
        }
        if !weigh_bucket(&mut counts, bucket) {
            return None;
        }
        proof {
            assert forall|i: int| 0 <= i < at + 1 implies recordable(
                #[trigger] all.take(at + 1)[i],
                length as nat,
            ) by {
                if i < at {
                    assert(all.take(at as int)[i] == all.take(at + 1)[i]);
                }
            }
        }
        at += 1;
    }
    proof {
        assert(all.take(at as int) =~= all);
    }
    Some(counts)
}

/// The redirections that the bins give rise to, looked at in their order.
fn pair_buckets<V: EigenValue>(buckets: &Vec<Vec<(V, usize)>>) -> (pair_map: FnvHashMap<
    (usize, usize),
    Vec<(usize, usize)>,
>)
    requires
        forall|i: int| 0 <= i < buckets@.len() ==> (#[trigger] buckets@[i])@.len() > 0,
    ensures
        lists_of(pair_map@) == pooled_pairs(contents(buckets@)),
{
    let ghost all = contents(buckets@);
    let mut pair_map: FnvHashMap<(usize, usize), Vec<(usize, usize)>> = table_new();
    let mut at: usize = 0;
    proof {
        assert(all.take(0) =~= Seq::<Seq<(V, usize)>>::empty());
        assert(lists_of(pair_map@) =~= Map::<(usize, usize), Seq<(usize, usize)>>::empty());
    }
    while at < buckets.len()
        invariant
            at <= buckets@.len(),
            all == contents(buckets@),
            forall|i: int| 0 <= i < buckets@.len() ==> (#[trigger] buckets@[i])@.len() > 0,
            lists_of(pair_map@) == pooled_pairs(all.take(at as int)),
        decreases buckets@.len() - at,
    {
        let bucket = &buckets[at];
        proof {
            assert(all.take(at + 1).drop_last() =~= all.take(at as int));
            assert(all.take(at + 1).last() == bucket@);
        }
        let (egn_v0, idx0) = bucket[0];
        let mut j: usize = 1;
        while j < bucket.len()
            invariant
                1 <= j <= bucket@.len(),
                (egn_v0, idx0) == bucket@[0],
                lists_of(pair_map@) == bucket_pairs(
                    pooled_pairs(all.take(at as int)),
                    bucket@,
                    j as nat,
                ),
            decreases bucket@.len() - j,
        {
            let (egn_v, idx) = bucket[j];
            if !same_sector(&egn_v, &egn_v0) {
                file_under(&mut pair_map, egn_v.label(), (idx, idx0));
            }
            j += 1;
        }
        at += 1;
    }
    proof {
        assert(all.take(at as int) =~= all);
    }
    pair_map
}

/// The redirections of matrix elements that the bins give rise to, looked
/// at in their order.
fn triple_buckets<V: EigenValue>(buckets: &Vec<Vec<(V, usize)>>) -> (pair_map: FnvHashMap<
    (usize, usize),
    Vec<(usize, usize, usize)>,
>)
    requires
        forall|i: int| 0 <= i < buckets@.len() ==> (#[trigger] buckets@[i])@.len() > 0,
    ensures
        lists_of(pair_map@) == pooled_triples(contents(buckets@)),
{
    let ghost all = contents(buckets@);
    let mut pair_map: FnvHashMap<(usize, usize), Vec<(usize, usize, usize)>> = table_new();
    let mut at: usize = 0;
    proof {
        assert(all.take(0) =~= Seq::<Seq<(V, usize)>>::empty());
        assert(lists_of(pair_map@) =~= Map::<
            (usize, usize),
            Seq<(usize, usize, usize)>,
        >::empty());
    }
    while at < buckets.len()
        invariant
            at <= buckets@.len(),
            all == contents(buckets@),
            forall|i: int| 0 <= i < buckets@.len() ==> (#[trigger] buckets@[i])@.len() > 0,
            lists_of(pair_map@) == pooled_triples(all.take(at as int)),
        decreases buckets@.len() - at,
    {
        let bucket = &buckets[at];
        proof {
            assert(all.take(at + 1).drop_last() =~= all.take(at as int));
            assert(all.take(at + 1).last() == bucket@);
        }
        let (egn_v0, idx0) = bucket[0];
        let mut j: usize = 1;
        while j < bucket.len()
            invariant
                1 <= j <= bucket@.len(),
                (egn_v0, idx0) == bucket@[0],
                lists_of(pair_map@) == bucket_triples(
                    pooled_triples(all.take(at as int)),
                    bucket@,
                    j as nat,
                ),
            decreases bucket@.len() - j,
        {
            let (egn_v1, idx1) = bucket[j];
            if !same_sector(&egn_v1, &egn_v0) {
                let ghost before = lists_of(pair_map@);
                let mut i: usize = 0;
                while i < bucket.len()
                    invariant
                        i <= bucket@.len(),
                        1 <= j < bucket@.len(),
                        idx0 == bucket@[0].1,
                        (egn_v1, idx1) == bucket@[j as int],
                        lists_of(pair_map@) == entry_triples(before, bucket@, j as int, i as nat),
                    decreases bucket@.len() - i,
                {
                    let (egn_v2, idx2) = bucket[i];
                    if same_sector(&egn_v2, &egn_v1) {
                        file_under(&mut pair_map, egn_v1.label(), (idx1, idx2, idx0));
                    }
                    i += 1;
                }
            }
            j += 1;
        }
        at += 1;
    }
    proof {
        assert(all.take(at as int) =~= all);
    }
    pair_map
}

/// Derives from the bins, looked at in the order given, how an average
/// over the eigenstates of a basis of `length` states is pooled: the
/// weight of every eigenstate, and for every sector the redirections
/// `(from, to)` of its eigenstates to the eigenstate that stands for their
/// level.  The first member of a bin stands for the bin and carries one
/// part in as many as the bin has members; the further members of its
/// sector are folded and not redirected; every member of another sector
/// is redirected to the first.  `Err(OverFlow)` if an eigenstate that a
/// bin records lies beyond the basis.
pub fn degeneracy_pair_of<V: EigenValue>(length: usize, buckets: &Vec<Vec<(V, usize)>>) -> (r:
    Result<(Vec<Weight>, FnvHashMap<(usize, usize), Vec<(usize, usize)>>), Error>)
    requires
        forall|i: int| 0 <= i < buckets@.len() ==> (#[trigger] buckets@[i])@.len() > 0,
    ensures
        is_pairing(r, length as nat, contents(buckets@)),
{
    match weigh_buckets(length, buckets) {
        Some(counts) => Ok((counts, pair_buckets(buckets))),
        None => Err(Error::make_error_syntax(ErrorCode::OverFlow)),
    }
}

/// As [`degeneracy_pair_of`], for an observable that is a matrix: every
/// member of a bin of another sector than the first is redirected,
/// together with every member of its own sector in the bin, to the first
/// member, as `(from, with, to)`.
pub fn degeneracy_triple_of<V: EigenValue>(length: usize, buckets: &Vec<Vec<(V, usize)>>) -> (r:
    Result<(Vec<Weight>, FnvHashMap<(usize, usize), Vec<(usize, usize, usize)>>), Error>)
    requires
        forall|i: int| 0 <= i < buckets@.len() ==> (#[trigger] buckets@[i])@.len() > 0,
    ensures
        is_tripling(r, length as nat, contents(buckets@)),
{
    match weigh_buckets(length, buckets) {
        Some(counts) => Ok((counts, triple_buckets(buckets))),
        None => Err(Error::make_error_syntax(ErrorCode::OverFlow)),
    }
}

/// `order` names every bin of `energy_map` exactly once.
pub open spec fn arranges<V>(order: Seq<i128>, energy_map: Map<i128, Vec<(V, usize)>>) -> bool {
    &&& order.no_duplicates()
    &&& forall|k: i128| energy_map.contains_key(k) <==> #[trigger] order.contains(k)
}

/// The bins of `energy_map` in the order `order`.
pub open spec fn along<V>(energy_map: Map<i128, Vec<(V, usize)>>, order: Seq<i128>) -> Seq<
    Seq<(V, usize)>,
> {
    Seq::new(order.len(), |i: int| energy_map[order[i]]@)
}

/// The bins of `energy_map`, in the order in which the table hands them
/// out.
fn buckets_in_order<V: EigenValue>(energy_map: &FnvHashMap<i128, Vec<(V, usize)>>) -> (found: (
    Vec<Vec<(V, usize)>>,
    Ghost<Seq<i128>>,
))
    ensures
        arranges(found.1@, energy_map@),
        contents(found.0@) == along(energy_map@, found.1@),
        all_bins_filled(lists_of(energy_map@)) ==> forall|i: int|
            0 <= i < found.0@.len() ==> (#[trigger] found.0@[i])@.len() > 0,
{
    let entries = table_entries(energy_map);
    let ghost order = Seq::new(entries@.len(), |i: int| *entries@[i].0);
    let mut buckets: Vec<Vec<(V, usize)>> = Vec::with_capacity(entries.len());
    let mut at: usize = 0;
    while at < entries.len()
        invariant
            at <= entries@.len(),
            buckets@.len() == at,
            forall|i: int|
                0 <= i < entries@.len() ==> energy_map@.contains_key(*(#[trigger] entries@[i]).0)
                    && energy_map@[*entries@[i].0] == *entries@[i].1,
            forall|i: int| 0 <= i < at ==> (#[trigger] buckets@[i])@ == (*entries@[i].1)@,
        decreases entries@.len() - at,
    {
        let list: &Vec<(V, usize)> = entries[at].1;
        let mut copy: Vec<(V, usize)> = Vec::with_capacity(list.len());
        let mut j: usize = 0;
        while j < list.len()
            invariant
                j <= list@.len(),
                copy@ == list@.take(j as int),
            decreases list@.len() - j,
        {
            copy.push(list[j]);
            j += 1;
            assert(copy@ =~= list@.take(j as int));
        }
        assert(list@.take(j as int) =~= list@);
        buckets.push(copy);
        at += 1;
    }
    proof {
        assert(contents(buckets@) =~= along(energy_map@, order));
        assert forall|k: i128| energy_map@.contains_key(k) implies #[trigger] order.contains(k) by {
            let i = choose|i: int| 0 <= i < entries@.len() && *(#[trigger] entries@[i]).0 == k;
            assert(order[i] == k);
        }
        assert forall|k: i128| #[trigger] order.contains(k) implies energy_map@.contains_key(k) by {
            let i = choose|i: int| 0 <= i < order.len() && order[i] == k;
            assert(energy_map@.contains_key(*entries@[i].0));
        }
        if all_bins_filled(lists_of(energy_map@)) {
            assert forall|i: int| 0 <= i < buckets@.len() implies (#[trigger] buckets@[i])@.len()
                > 0 by {
                assert(lists_of(energy_map@).contains_key(*entries@[i].0));
            }
        }
    }
    (buckets, Ghost(order))
}

/// The weight that a table of bins gives the eigenstate `i` does not
/// depend on the order in which the bins are looked at, where every bin has
/// a member and records eigenstates of the basis only.  In every
/// arrangement of the bins:
/// - if no bin gives it a weight, it keeps the full weight;
/// - if it is the first member of no bin and some bin folds it, it is
///   folded;
/// - if it is the first member of one bin and receives no other weight,
///   it carries one part in as many as that bin has members.
pub proof fn lemma_degeneracy_weights<V>(
    energy_map: Map<i128, Vec<(V, usize)>>,
    order: Seq<i128>,
    length: nat,
    i: int,
)
    requires
        arranges(order, energy_map),
        all_bins_filled(lists_of(energy_map)),
        forall|k: i128| #[trigger] energy_map.contains_key(k) ==> recordable(energy_map[k]@, length),
        0 <= i < length,
    ensures
        all_recordable(along(energy_map, order), length),
        pooled_weights(length, along(energy_map, order)).len() == length,
        (forall|k: i128| #[trigger] energy_map.contains_key(k) ==> !touches(energy_map[k]@, i))
            ==> pooled_weights(length, along(energy_map, order))[i] == Weight::Share(1),
        (forall|k: i128| #[trigger] energy_map.contains_key(k) ==> energy_map[k]@[0].1 != i) && (
        exists|k: i128| #[trigger] energy_map.contains_key(k) && folds(energy_map[k]@, i))
            ==> pooled_weights(length, along(energy_map, order))[i] == Weight::Folded,
        forall|k: i128|
            #[trigger] energy_map.contains_key(k) && energy_map[k]@[0].1 == i && !folds(
                energy_map[k]@,
                i,
            ) && (forall|l: i128|
                #[trigger] energy_map.contains_key(l) && l != k ==> !touches(energy_map[l]@, i))
                ==> pooled_weights(length, along(energy_map, order))[i] == Weight::Share(
                energy_map[k]@.len() as usize,
            ),
{
    let buckets = along(energy_map, order);
    assert forall|a: int| 0 <= a < buckets.len() implies energy_map.contains_key(
        #[trigger] order[a],
    ) && buckets[a] == energy_map[order[a]]@ by {
        assert(order.contains(order[a]));
    }
    assert forall|a: int| 0 <= a < buckets.len() implies (#[trigger] buckets[a]).len() > 0 by {
        assert(energy_map.contains_key(order[a]));
        assert(lists_of(energy_map).contains_key(order[a]));
    }
    assert forall|a: int| 0 <= a < buckets.len() implies recordable(
        #[trigger] buckets[a],
        length,
    ) by {
        assert(energy_map.contains_key(order[a]));
    }
    lemma_pooled_weights(length, buckets, i);
    let weights = pooled_weights(length, buckets);
    if forall|k: i128| #[trigger] energy_map.contains_key(k) ==> !touches(energy_map[k]@, i) {
        assert forall|a: int| 0 <= a < buckets.len() implies !touches(#[trigger] buckets[a], i) by {
            assert(energy_map.contains_key(order[a]));
        }
    }
    if (forall|k: i128| #[trigger] energy_map.contains_key(k) ==> energy_map[k]@[0].1 != i) && (
    exists|k: i128| #[trigger] energy_map.contains_key(k) && folds(energy_map[k]@, i)) {
        let k = choose|k: i128| #[trigger] energy_map.contains_key(k) && folds(energy_map[k]@, i);
        assert(order.contains(k));
        let a = choose|a: int| 0 <= a < order.len() && order[a] == k;
        assert(folds(buckets[a], i));
        assert forall|b: int| 0 <= b < buckets.len() implies (#[trigger] buckets[b])[0].1 != i by {
            assert(energy_map.contains_key(order[b]));
        }
    }
    assert forall|k: i128|
        #[trigger] energy_map.contains_key(k) && energy_map[k]@[0].1 == i && !folds(
            energy_map[k]@,
            i,
        ) && (forall|l: i128|
            #[trigger] energy_map.contains_key(l) && l != k ==> !touches(
                energy_map[l]@,
                i,
            )) implies weights[i] == Weight::Share(energy_map[k]@.len() as usize) by {
        assert(order.contains(k));
        let a = choose|a: int| 0 <= a < order.len() && order[a] == k;
        assert(buckets[a] == energy_map[k]@);
        assert forall|b: int| 0 <= b < buckets.len() && b != a implies !touches(
            #[trigger] buckets[b],
            i,
        ) by {
            assert(energy_map.contains_key(order[b]));
            assert(order[b] != order[a]);
        }
    }
}

/// Pairs the bins of `energy_map` as [`degeneracy_pair_of`] does, in the
/// order in which the table hands them out.  Where the bins weigh no
/// eigenstate twice the weights do not depend on that order; the order of
/// the redirections within the list of a sector does.
pub fn degeneracy_pair<V: EigenValue>(
    length: usize,
    energy_map: &FnvHashMap<i128, Vec<(V, usize)>>,
) -> (r: Result<(Vec<Weight>, FnvHashMap<(usize, usize), Vec<(usize, usize)>>), Error>)
    requires
        all_bins_filled(lists_of(energy_map@)),
    ensures
        exists|order: Seq<i128>|
            arranges(order, energy_map@) && #[trigger] is_pairing(
                r,
                length as nat,
                along(energy_map@, order),
            ),
{
    let (buckets, Ghost(order)) = buckets_in_order(energy_map);
    let r = degeneracy_pair_of(length, &buckets);
    assert(is_pairing(r, length as nat, along(energy_map@, order)));
    r
}

/// Pairs the bins of `energy_map` as [`degeneracy_triple_of`] does, in the
/// order in which the table hands them out.
pub fn degeneracy_triple<V: EigenValue>(
    length: usize,
    energy_map: &FnvHashMap<i128, Vec<(V, usize)>>,
) -> (r: Result<(Vec<Weight>, FnvHashMap<(usize, usize), Vec<(usize, usize, usize)>>), Error>)
    requires
        all_bins_filled(lists_of(energy_map@)),
    ensures
        exists|order: Seq<i128>|
            arranges(order, energy_map@) && #[trigger] is_tripling(
                r,
                length as nat,
                along(energy_map@, order),
            ),
{
    let (buckets, Ghost(order)) = buckets_in_order(energy_map);
    let r = degeneracy_triple_of(length, &buckets);
    assert(is_tripling(r, length as nat, along(energy_map@, order)));
    r
}

} // verus!
