//! The finite sequences that the walks over a configuration produce.

use vstd::prelude::*;
use crate::theory::bits::bit_at;
use crate::theory::orbit::{rotate_by, period_of, commensurate};

verus! {

/// The digits of `n`, site `0` first.
pub open spec fn bits_of(n: nat, length: nat) -> Seq<nat> {
    Seq::new(length, |i: int| bit_at(n, i as nat))
}

/// The digits of neighbouring sites `(i, i + 1)` of an open chain.
pub open spec fn open_pairs(n: nat, length: nat) -> Seq<(nat, nat)> {
    Seq::new((length - 1) as nat, |i: int| (bit_at(n, i as nat), bit_at(n, (i + 1) as nat)))
}

/// The digits of the sites `(i, i + dist)` of a periodic chain, for every
/// site `i`.
pub open spec fn periodic_pairs(n: nat, length: nat, dist: nat) -> Seq<(nat, nat)> {
    Seq::new(
        length,
        |i: int| (bit_at(n, i as nat), bit_at(n, ((i + dist) % (length as int)) as nat)),
    )
}

/// As `periodic_pairs`, each digit together with its site.
pub open spec fn periodic_bonds(n: nat, length: nat, dist: nat) -> Seq<((nat, nat), (nat, nat))> {
    Seq::new(
        length,
        |i: int|
            (
                (i as nat, bit_at(n, i as nat)),
                (
                    ((i + dist) % (length as int)) as nat,
                    bit_at(n, ((i + dist) % (length as int)) as nat),
                ),
            ),
    )
}

/// The orbit of `n` under translation, starting with `n` itself.
pub open spec fn orbit_of(n: nat, length: nat) -> Seq<nat> {
    Seq::new(period_of(n, length), |i: int| rotate_by(n, length, i as nat))
}

/// The momentum indices `k` with `from <= k < length` that are compatible
/// with an orbit of period `period`, in increasing order.
pub open spec fn commensurate_from(period: nat, length: nat, from: nat) -> Seq<nat>
    decreases length - from,
{
    if from >= length {
        Seq::empty()
    } else if commensurate(from, period, length) {
        seq![from] + commensurate_from(period, length, from + 1)
    } else {
        commensurate_from(period, length, from + 1)
    }
}

/// All momentum indices of a chain that are compatible with an orbit of
/// period `period`.
pub open spec fn commensurate_indices(period: nat, length: nat) -> Seq<nat> {
    commensurate_from(period, length, 0)
}

/// The first compatible index at or after `from`: it is compatible, no
/// index between `from` and it is, and the list continues behind it.  If
/// the list is empty, no index from `from` on is compatible.
pub proof fn lemma_commensurate_head(period: nat, length: nat, from: nat)
    ensures
        commensurate_from(period, length, from).len() == 0 ==> forall|j: nat|
            from <= j < length ==> !#[trigger] commensurate(j, period, length),
        commensurate_from(period, length, from).len() > 0 ==> {
            let head = commensurate_from(period, length, from)[0];
            &&& from <= head < length
            &&& commensurate(head, period, length)
            &&& forall|j: nat| from <= j < head ==> !#[trigger] commensurate(j, period, length)
            &&& commensurate_from(period, length, from).skip(1) == commensurate_from(
                period,
                length,
                head + 1,
            )
        },
    decreases length - from,
{
    if from < length {
        let rest = commensurate_from(period, length, from + 1);
        lemma_commensurate_head(period, length, from + 1);
        if commensurate(from, period, length) {
            assert((seq![from] + rest).skip(1) =~= rest);
        }
    }
}

} // verus!
