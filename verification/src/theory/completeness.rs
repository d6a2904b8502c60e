//! How the momentum sectors of a chain add up.

use vstd::prelude::*;
use vstd::arithmetic::power2::pow2;
use vstd::arithmetic::div_mod::{
    lemma_truncate_middle, lemma_fundamental_div_mod, lemma_fundamental_div_mod_converse,
};
use crate::theory::bits::popcount;
use crate::theory::orbit::{
    fits, rotate_by, orbit_min, is_representative, period_of, commensurate, lemma_period,
    lemma_period_divides_length, lemma_orbit_min, lemma_orbit_min_unique, lemma_orbit_distinct,
    lemma_rotate_back, lemma_rotate_by_add, lemma_rotate_by_mod, lemma_rotate_by_fits,
    lemma_rotate_by_popcount,
};
use crate::theory::sector::{
    ascending, in_momentum_sector, in_number_sector, number_sector, binomial,
    lemma_number_sector_size,
};

verus! {

/// The number of momentum indices below `upto` that are compatible with an
/// orbit of period `period`.
pub open spec fn commensurate_count(period: nat, length: nat, upto: nat) -> nat
    decreases upto,
{
    if upto == 0 {
        0
    } else {
        commensurate_count(period, length, (upto - 1) as nat) + if commensurate(
            (upto - 1) as nat,
            period,
            length,
        ) {
            1nat
        } else {
            0nat
        }
    }
}

/// The sizes of the momentum sectors `(m, k)` with `k` below `upto`, added
/// up, where a sector holds the representatives below `bound` only.
pub open spec fn momentum_total(bound: nat, length: nat, m: nat, upto: nat) -> nat
    decreases upto,
{
    if upto == 0 {
        0
    } else {
        momentum_total(bound, length, m, (upto - 1) as nat) + ascending(
            bound,
            in_momentum_sector(length, m, (upto - 1) as nat),
        ).len()
    }
}

/// Being a representative with `m` set sites.
pub open spec fn represents(length: nat, m: nat) -> spec_fn(nat) -> bool {
    |n: nat| popcount(n) == m && is_representative(n, length)
}

/// The number of pairs of a representative below `bound` with `m` set
/// sites and a momentum index below `upto` that is compatible with its
/// orbit.
pub open spec fn pair_total(bound: nat, length: nat, m: nat, upto: nat) -> nat
    decreases bound,
{
    if bound == 0 {
        0
    } else {
        pair_total((bound - 1) as nat, length, m, upto) + if represents(length, m)(
            (bound - 1) as nat,
        ) {
            commensurate_count(period_of((bound - 1) as nat, length), length, upto)
        } else {
            0nat
        }
    }
}

/// The periods of the representatives below `bound` with `m` set sites,
/// added up.
pub open spec fn period_total(bound: nat, length: nat, m: nat) -> nat
    decreases bound,
{
    if bound == 0 {
        0
    } else {
        period_total((bound - 1) as nat, length, m) + if represents(length, m)(
            (bound - 1) as nat,
        ) {
            period_of((bound - 1) as nat, length)
        } else {
            0nat
        }
    }
}

/// The number of multiples of `q` below `upto`.
pub open spec fn multiples_below(q: nat, upto: nat) -> nat
    decreases upto,
{
    if upto == 0 {
        0
    } else {
        multiples_below(q, (upto - 1) as nat) + if (upto - 1) % (q as int) == 0 {
            1nat
        } else {
            0nat
        }
    }
}

/// There are `ceil(upto / q)` multiples of `q` below `upto`.
proof fn lemma_multiples_below(q: nat, upto: nat)
    requires
        q >= 1,
    ensures
        multiples_below(q, upto) == (upto + q - 1) / (q as int),
    decreases upto,
{
    if upto == 0 {
        lemma_fundamental_div_mod_converse((q - 1) as int, q as int, 0, (q - 1) as int);
    } else {
        let u = (upto - 1) as nat;
        lemma_multiples_below(q, u);
        lemma_fundamental_div_mod(u as int, q as int);
        let c = u / q;
        let r = u % q;
        assert(u == q * c + r);
        if r == 0 {
            assert((c + 1) * q == q * c + q && c * q == q * c) by (nonlinear_arith);
            lemma_fundamental_div_mod_converse((u + q) as int, q as int, (c + 1) as int, 0);
            lemma_fundamental_div_mod_converse(
                (u + q - 1) as int,
                q as int,
                c as int,
                (q - 1) as int,
            );
        } else {
            assert((c + 1) * q == q * c + q && c * q == q * c) by (nonlinear_arith);
            lemma_fundamental_div_mod_converse(
                (u + q) as int,
                q as int,
                (c + 1) as int,
                r as int,
            );
            lemma_fundamental_div_mod_converse(
                (u + q - 1) as int,
                q as int,
                (c + 1) as int,
                (r - 1) as int,
            );
        }
    }
}

/// On a chain whose length is `period` times `q`, the momentum indices
/// compatible with the period are the multiples of `q`.
proof fn lemma_commensurate_multiples(period: nat, q: nat, upto: nat)
    requires
        period >= 1,
        q >= 1,
    ensures
        commensurate_count(period, period * q, upto) == multiples_below(q, upto),
    decreases upto,
{
    if upto > 0 {
        let k = (upto - 1) as nat;
        lemma_commensurate_multiples(period, q, k);
        lemma_truncate_middle(k as int, period as int, q as int);
        assert(k * period == period * k) by (nonlinear_arith);
        assert((period * (k % q) == 0) <==> (k % q == 0)) by (nonlinear_arith)
            requires
                period >= 1,
                k % q >= 0,
        ;
    }
}

/// An orbit whose period divides the chain length carries as many momenta
/// as its period.
pub proof fn lemma_commensurate_count(period: nat, length: nat)
    requires
        period >= 1,
        length >= 1,
        length % period == 0,
    ensures
        commensurate_count(period, length, length) == period,
{
    lemma_fundamental_div_mod(length as int, period as int);
    let q = length / period;
    assert(length == period * q);
    assert(q >= 1) by (nonlinear_arith)
        requires
            length == period * q,
            length >= 1,
            period >= 1,
    ;
    lemma_commensurate_multiples(period, q, length);
    lemma_multiples_below(q, length);
    assert(q * period == period * q) by (nonlinear_arith);
    lemma_fundamental_div_mod_converse(
        (length + q - 1) as int,
        q as int,
        period as int,
        (q - 1) as int,
    );
}

/// What the configuration `bound` adds to the sizes of the momentum
/// sectors.
proof fn lemma_momentum_total_step(bound: nat, length: nat, m: nat, upto: nat)
    ensures
        momentum_total(bound + 1, length, m, upto) == momentum_total(bound, length, m, upto)
            + if represents(length, m)(bound) {
            commensurate_count(period_of(bound, length), length, upto)
        } else {
            0nat
        },
    decreases upto,
{
    if upto > 0 {
        lemma_momentum_total_step(bound, length, m, (upto - 1) as nat);
    }
}

/// The sizes of the momentum sectors count the pairs of a representative
/// and a momentum that its orbit carries.
pub proof fn lemma_momentum_total_counts_pairs(bound: nat, length: nat, m: nat, upto: nat)
    ensures
        momentum_total(bound, length, m, upto) == pair_total(bound, length, m, upto),
    decreases bound,
{
    if bound == 0 {
        lemma_momentum_total_empty(length, m, upto);
    } else {
        lemma_momentum_total_counts_pairs((bound - 1) as nat, length, m, upto);
        lemma_momentum_total_step((bound - 1) as nat, length, m, upto);
    }
}

/// Sectors without configurations are empty.
proof fn lemma_momentum_total_empty(length: nat, m: nat, upto: nat)
    ensures
        momentum_total(0, length, m, upto) == 0,
    decreases upto,
{
    if upto > 0 {
        lemma_momentum_total_empty(length, m, (upto - 1) as nat);
    }
}

/// Over all momenta of the chain, every representative is paired as often
/// as its period says.
proof fn lemma_pair_total_is_period_total(bound: nat, length: nat, m: nat)
    requires
        length >= 1,
        bound <= pow2(length),
    ensures
        pair_total(bound, length, m, length) == period_total(bound, length, m),
    decreases bound,
{
    if bound > 0 {
        let n = (bound - 1) as nat;
        lemma_pair_total_is_period_total(n, length, m);
        lemma_period(n, length);
        lemma_period_divides_length(n, length);
        lemma_commensurate_count(period_of(n, length), length);
    }
}

/// The momentum sectors of the configurations with `m` set sites add up:
/// the sizes of the sectors `(m, k)` over all momenta `k` of the chain give
/// the number of pairs of a representative with `m` set sites and a
/// momentum that its orbit carries, and an orbit carries as many momenta as
/// its period, so that the sizes add up to the sum of the periods of the
/// representatives.
pub proof fn lemma_momentum_sectors_complete(length: nat, m: nat)
    requires
        length >= 1,
    ensures
        momentum_total(pow2(length), length, m, length) == pair_total(
            pow2(length),
            length,
            m,
            length,
        ),
        momentum_total(pow2(length), length, m, length) == period_total(pow2(length), length, m),
{
    lemma_momentum_total_counts_pairs(pow2(length), length, m, length);
    lemma_pair_total_is_period_total(pow2(length), length, m);
}

/// Where every orbit has period one, the sum of the periods counts the
/// representatives.
proof fn lemma_period_total_of_fixed_points(bound: nat, length: nat, m: nat)
    requires
        forall|n: nat| n < bound && represents(length, m)(n) ==> period_of(n, length) == 1,
    ensures
        period_total(bound, length, m) == ascending(bound, represents(length, m)).len(),
    decreases bound,
{
    if bound > 0 {
        lemma_period_total_of_fixed_points((bound - 1) as nat, length, m);
    }
}

/// Where every representative with `m` set sites is a fixed point of the
/// translation, the sizes of the momentum sectors `(m, k)` over all momenta
/// `k` of the chain add up to the number of these representatives.
pub proof fn lemma_momentum_sectors_count_representatives(length: nat, m: nat)
    requires
        length >= 1,
        forall|n: nat|
            n < pow2(length) && represents(length, m)(n) ==> period_of(n, length) == 1,
    ensures
        momentum_total(pow2(length), length, m, length) == ascending(
            pow2(length),
            represents(length, m),
        ).len(),
{
    lemma_momentum_sectors_complete(length, m);
    lemma_period_total_of_fixed_points(pow2(length), length, m);
}

/// Two predicates that agree below the bound list the same numbers.
proof fn lemma_ascending_same(bound: nat, one: spec_fn(nat) -> bool, other: spec_fn(nat) -> bool)
    requires
        forall|x: nat| x < bound ==> (#[trigger] one(x) <==> other(x)),
    ensures
        ascending(bound, one) == ascending(bound, other),
    decreases bound,
{
    if bound > 0 {
        lemma_ascending_same((bound - 1) as nat, one, other);
    }
}

/// A predicate that holds of no number below the bound lists nothing.
proof fn lemma_ascending_none(bound: nat, keep: spec_fn(nat) -> bool)
    requires
        forall|x: nat| x < bound ==> !#[trigger] keep(x),
    ensures
        ascending(bound, keep).len() == 0,
    decreases bound,
{
    if bound > 0 {
        lemma_ascending_none((bound - 1) as nat, keep);
    }
}

/// A list splits into the lists of two predicates that exclude each other
/// and together make up its own.
proof fn lemma_ascending_split(
    bound: nat,
    whole: spec_fn(nat) -> bool,
    part: spec_fn(nat) -> bool,
    rest: spec_fn(nat) -> bool,
)
    requires
        forall|x: nat| x < bound ==> (#[trigger] whole(x) <==> (part(x) || rest(x))),
        forall|x: nat| x < bound ==> !(#[trigger] part(x) && rest(x)),
    ensures
        ascending(bound, whole).len() == ascending(bound, part).len() + ascending(
            bound,
            rest,
        ).len(),
    decreases bound,
{
    if bound > 0 {
        lemma_ascending_split((bound - 1) as nat, whole, part, rest);
    }
}

/// A predicate that holds of one number below the bound lists one number.
proof fn lemma_ascending_single(bound: nat, keep: spec_fn(nat) -> bool, y: nat)
    requires
        y < bound,
        forall|x: nat| x < bound ==> (#[trigger] keep(x) <==> x == y),
    ensures
        ascending(bound, keep).len() == 1,
    decreases bound,
{
    if bound - 1 == y {
        lemma_ascending_none(y, keep);
    } else {
        lemma_ascending_single((bound - 1) as nat, keep, y);
    }
}

/// A predicate whose numbers below the bound are enumerated without
/// repetition by `f` on `0, .., p - 1` lists `p` numbers.
proof fn lemma_ascending_counts_image(
    bound: nat,
    keep: spec_fn(nat) -> bool,
    p: nat,
    f: spec_fn(nat) -> nat,
)
    requires
        forall|t: nat| t < p ==> #[trigger] f(t) < bound && keep(f(t)),
        forall|s: nat, t: nat| s < t < p ==> #[trigger] f(s) != #[trigger] f(t),
        forall|x: nat| x < bound && #[trigger] keep(x) ==> exists|t: nat| t < p && #[trigger] f(t) == x,
    ensures
        ascending(bound, keep).len() == p,
    decreases p,
{
    if p == 0 {
        assert forall|x: nat| x < bound implies !#[trigger] keep(x) by {
            if keep(x) {
                let t = choose|t: nat| t < p && #[trigger] f(t) == x;
            }
        }
        lemma_ascending_none(bound, keep);
    } else {
        let last = (p - 1) as nat;
        let y = f(last);
        let single = |x: nat| x == y;
        let rest = |x: nat| keep(x) && x != y;
        lemma_ascending_split(bound, keep, single, rest);
        lemma_ascending_single(bound, single, y);
        assert forall|x: nat| x < bound && #[trigger] rest(x) implies exists|t: nat|
            t < last && #[trigger] f(t) == x by {
            let t = choose|t: nat| t < p && #[trigger] f(t) == x;
            assert(t != last);
            assert(t < last && f(t) == x);
        }
        assert forall|t: nat| t < last implies #[trigger] f(t) < bound && rest(f(t)) by {
            assert(f(t) != f(last));
        }
        lemma_ascending_counts_image(bound, rest, last, f);
    }
}

/// Lying on the orbit of the representative `rep`.
pub open spec fn in_orbit_of(length: nat, rep: nat) -> spec_fn(nat) -> bool {
    |x: nat| orbit_min(x, length) == rep
}

/// The orbit of a representative has as many members as its period says.
pub proof fn lemma_orbit_size(rep: nat, length: nat)
    requires
        length >= 1,
        fits(rep, length),
        is_representative(rep, length),
    ensures
        ascending(pow2(length), in_orbit_of(length, rep)).len() == period_of(rep, length),
{
    let p = period_of(rep, length);
    let keep = in_orbit_of(length, rep);
    let f = |t: nat| rotate_by(rep, length, t);
    lemma_period(rep, length);
    assert forall|t: nat| t < p implies #[trigger] f(t) < pow2(length) && keep(f(t)) by {
        let x = rotate_by(rep, length, t);
        lemma_rotate_by_fits(rep, length, t);
        let back = lemma_rotate_back(rep, length, t);
        assert forall|k: nat| rep <= #[trigger] rotate_by(x, length, k) by {
            lemma_rotate_by_add(rep, length, t, k);
        }
        lemma_orbit_min_unique(x, length, rep, back);
    }
    assert forall|s: nat, t: nat| s < t < p implies #[trigger] f(s) != #[trigger] f(t) by {
        lemma_orbit_distinct(rep, length, s, t);
    }
    assert forall|x: nat| x < pow2(length) && #[trigger] keep(x) implies exists|t: nat|
        t < p && #[trigger] f(t) == x by {
        let at = lemma_orbit_min(x, length);
        let back = lemma_rotate_back(x, length, at);
        lemma_rotate_by_mod(rep, length, p, back);
        let t = back % p;
        assert(t < p && f(t) == x);
    }
    lemma_ascending_counts_image(pow2(length), keep, p, f);
}

/// The configurations with `m` set sites whose orbit has a representative
/// below `bound`.
pub open spec fn represented_below(length: nat, m: nat, bound: nat) -> spec_fn(nat) -> bool {
    |x: nat| popcount(x) == m && orbit_min(x, length) < bound
}

/// The orbits of the representatives below `bound` with `m` set sites
/// hold as many configurations as their periods add up to.
proof fn lemma_orbits_fill(bound: nat, length: nat, m: nat)
    requires
        length >= 1,
        bound <= pow2(length),
    ensures
        ascending(pow2(length), represented_below(length, m, bound)).len() == period_total(
            bound,
            length,
            m,
        ),
    decreases bound,
{
    let top = pow2(length);
    if bound == 0 {
        lemma_ascending_none(top, represented_below(length, m, 0));
    } else {
        let rep = (bound - 1) as nat;
        lemma_orbits_fill(rep, length, m);
        let whole = represented_below(length, m, bound);
        let rest = represented_below(length, m, rep);
        let part = |x: nat| popcount(x) == m && orbit_min(x, length) == rep;
        lemma_ascending_split(top, whole, part, rest);
        assert forall|x: nat| x < top implies popcount(#[trigger] orbit_min(x, length))
            == popcount(x) && is_representative(orbit_min(x, length), length) by {
            let at = lemma_orbit_min(x, length);
            lemma_rotate_by_popcount(x, length, at);
        }
        if represents(length, m)(rep) {
            lemma_orbit_size(rep, length);
            lemma_ascending_same(top, part, in_orbit_of(length, rep));
        } else {
            lemma_ascending_none(top, part);
        }
    }
}

/// The orbits of the representatives with `m` set sites make up the number
/// sector `m`: the periods of these representatives add up to the size of
/// the sector.
pub proof fn lemma_orbits_partition_number_sector(length: nat, m: nat)
    requires
        length >= 1,
    ensures
        period_total(pow2(length), length, m) == number_sector(length, m).len(),
        period_total(pow2(length), length, m) == binomial(length, m),
{
    let top = pow2(length);
    lemma_orbits_fill(top, length, m);
    assert forall|x: nat| x < top implies (#[trigger] represented_below(length, m, top)(x)
        <==> in_number_sector(m)(x)) by {
        let at = lemma_orbit_min(x, length);
        assert(rotate_by(x, length, 0) == x);
    }
    lemma_ascending_same(top, represented_below(length, m, top), in_number_sector(m));
    lemma_number_sector_size(length, m);
}

/// The momentum sectors resolve the number sector completely: the sizes of
/// the sectors `(m, k)` over all momenta `k` of the chain add up to the
/// size of the number sector `m`, which is `binomial(length, m)`.
pub proof fn lemma_momentum_sectors_resolve_number_sector(length: nat, m: nat)
    requires
        length >= 1,
    ensures
        momentum_total(pow2(length), length, m, length) == number_sector(length, m).len(),
        momentum_total(pow2(length), length, m, length) == binomial(length, m),
{
    lemma_momentum_sectors_complete(length, m);
    lemma_orbits_partition_number_sector(length, m);
}

} // verus!
