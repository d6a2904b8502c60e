//! Sectors of the state space: the configurations of a chain that share a
//! quantum number, listed in increasing order.

use vstd::prelude::*;
use vstd::arithmetic::power2::pow2;
use crate::theory::bits::{popcount, lemma_popcount_high_bit, lemma_popcount_bound, lemma_pow2_double};
use crate::theory::orbit::{is_representative, period_of, commensurate};

verus! {

/// The numbers below `bound` that satisfy `keep`, in increasing order.
pub open spec fn ascending(bound: nat, keep: spec_fn(nat) -> bool) -> Seq<nat>
    decreases bound,
{
    if bound == 0 {
        Seq::empty()
    } else {
        let rest = ascending((bound - 1) as nat, keep);
        if keep((bound - 1) as nat) {
            rest.push((bound - 1) as nat)
        } else {
            rest
        }
    }
}

/// Membership in the number sector `m`.
pub open spec fn in_number_sector(m: nat) -> spec_fn(nat) -> bool {
    |n: nat| popcount(n) == m
}

/// Membership in the momentum sector `(m, k)` of a chain with `length`
/// sites: the representatives with `m` set sites whose orbit carries a
/// state of momentum `k`.
pub open spec fn in_momentum_sector(length: nat, m: nat, k: nat) -> spec_fn(nat) -> bool {
    |n: nat|
        popcount(n) == m && is_representative(n, length) && commensurate(
            k,
            period_of(n, length),
            length,
        )
}

/// The configurations of the number sector `m`, in increasing order.
pub open spec fn number_sector(length: nat, m: nat) -> Seq<nat> {
    ascending(pow2(length), in_number_sector(m))
}

/// The representatives of the momentum sector `(m, k)`, in increasing
/// order.
pub open spec fn momentum_sector(length: nat, m: nat, k: nat) -> Seq<nat> {
    ascending(pow2(length), in_momentum_sector(length, m, k))
}

/// Every entry of `ascending` lies below the bound and satisfies the
/// predicate; the entries increase strictly.
pub proof fn lemma_ascending_entries(bound: nat, keep: spec_fn(nat) -> bool)
    ensures
        ascending(bound, keep).len() <= bound,
        forall|i: int|
            0 <= i < ascending(bound, keep).len() ==> (#[trigger] ascending(bound, keep)[i])
                < bound && keep(ascending(bound, keep)[i]),
        forall|i: int, j: int|
            0 <= i < j < ascending(bound, keep).len() ==> (#[trigger] ascending(bound, keep)[i])
                < (#[trigger] ascending(bound, keep)[j]),
    decreases bound,
{
    if bound > 0 {
        lemma_ascending_entries((bound - 1) as nat, keep);
    }
}

/// A number below the bound that satisfies the predicate is listed, at the
/// position given by the number of smaller entries.
pub proof fn lemma_ascending_position(bound: nat, keep: spec_fn(nat) -> bool, n: nat)
    requires
        n < bound,
        keep(n),
    ensures
        ascending(n, keep).len() < ascending(bound, keep).len(),
        ascending(bound, keep)[ascending(n, keep).len() as int] == n,
    decreases bound,
{
    if n + 1 < bound {
        lemma_ascending_position((bound - 1) as nat, keep, n);
    }
}

/// The number of ways to choose `k` out of `n` things.
pub open spec fn binomial(n: nat, k: nat) -> nat
    decreases n,
{
    if k == 0 {
        1
    } else if n == 0 {
        0
    } else {
        binomial((n - 1) as nat, (k - 1) as nat) + binomial((n - 1) as nat, k)
    }
}

/// The number of configurations below `bound` with `m` set sites.
pub open spec fn count_with(bound: nat, m: nat) -> nat {
    ascending(bound, in_number_sector(m)).len()
}

/// The number of configurations below `bound` with fewer than `limit` set
/// sites, counted sector by sector.
pub open spec fn count_below(bound: nat, limit: nat) -> nat
    decreases limit,
{
    if limit == 0 {
        0
    } else {
        count_below(bound, (limit - 1) as nat) + count_with(bound, (limit - 1) as nat)
    }
}

/// The configurations of the upper half `[2^e, 2^e + j)` with `m` set
/// sites are those of `[0, j)` with `m - 1` set sites, with the top site
/// set.
proof fn lemma_count_upper_half(e: nat, j: nat, m: nat)
    requires
        j <= pow2(e),
    ensures
        count_with(pow2(e) + j, m) == count_with(pow2(e), m) + if m >= 1 {
            count_with(j, (m - 1) as nat)
        } else {
            0
        },
    decreases j,
{
    if j > 0 {
        let i = (j - 1) as nat;
        lemma_count_upper_half(e, i, m);
        lemma_popcount_high_bit(i, e);
        assert(pow2(e) + j - 1 == i + pow2(e));
    }
}

/// A number sector of a chain with `length` sites has as many
/// configurations as there are ways to choose the set sites.
pub proof fn lemma_number_sector_size(length: nat, m: nat)
    ensures
        number_sector(length, m).len() == binomial(length, m),
    decreases length,
{
    if length == 0 {
        vstd::arithmetic::power2::lemma2_to64();
        assert(pow2(0) == 1);
        assert(ascending(0, in_number_sector(m)).len() == 0);
        assert(popcount(0) == 0);
    } else {
        let e = (length - 1) as nat;
        lemma_pow2_double(e);
        lemma_count_upper_half(e, pow2(e), m);
        lemma_number_sector_size(e, m);
        if m >= 1 {
            lemma_number_sector_size(e, (m - 1) as nat);
        }
    }
}

/// What one more configuration adds to `count_below`.
proof fn lemma_count_below_step(bound: nat, limit: nat)
    ensures
        count_below(bound + 1, limit) == count_below(bound, limit) + if popcount(bound) < limit {
            1nat
        } else {
            0nat
        },
    decreases limit,
{
    if limit > 0 {
        lemma_count_below_step(bound, (limit - 1) as nat);
    }
}

/// If every configuration below `bound` has fewer than `limit` set sites,
/// the sectors below `limit` hold all of them.
proof fn lemma_count_below_all(bound: nat, limit: nat)
    requires
        forall|n: nat| n < bound ==> popcount(n) < limit,
    ensures
        count_below(bound, limit) == bound,
    decreases bound,
{
    if bound == 0 {
        lemma_count_below_zero(limit);
    } else {
        lemma_count_below_all((bound - 1) as nat, limit);
        lemma_count_below_step((bound - 1) as nat, limit);
    }
}

/// There is no configuration below zero.
proof fn lemma_count_below_zero(limit: nat)
    ensures
        count_below(0, limit) == 0,
    decreases limit,
{
    if limit > 0 {
        lemma_count_below_zero((limit - 1) as nat);
    }
}

/// The number sectors partition the state space: every configuration of a
/// chain with `length` sites lies in exactly one of the sectors
/// `0, .., length`, these sectors together hold `2^length` configurations,
/// and the sector `m` holds `binomial(length, m)` of them.
pub proof fn lemma_number_sectors_partition(length: nat)
    ensures
        forall|n: nat| n < pow2(length) ==> popcount(n) <= length,
        forall|n: nat, m: nat|
            n < pow2(length) ==> (#[trigger] number_sector(length, m).contains(n) <==> popcount(n)
                == m),
        forall|m: nat| #[trigger] number_sector(length, m).len() == binomial(length, m),
        count_below(pow2(length), length + 1) == pow2(length),
{
    assert forall|n: nat| n < pow2(length) implies popcount(n) <= length by {
        lemma_popcount_bound(n, length);
    }
    assert forall|n: nat, m: nat| n < pow2(length) implies (#[trigger] number_sector(
        length,
        m,
    ).contains(n) <==> popcount(n) == m) by {
        let keep = in_number_sector(m);
        lemma_ascending_entries(pow2(length), keep);
        if popcount(n) == m {
            lemma_ascending_position(pow2(length), keep, n);
        }
    }
    assert forall|m: nat| #[trigger] number_sector(length, m).len() == binomial(length, m) by {
        lemma_number_sector_size(length, m);
    }
    lemma_count_below_all(pow2(length), length + 1);
}

} // verus!
