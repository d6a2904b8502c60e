//! The basis of a number sector.

use vstd::prelude::*;
use vstd::arithmetic::power2::pow2;
use fnv::FnvHashMap;
use crate::bases::{BasisGenerator, lists, indexes_sector, scan_number};
use crate::error::{Error, ErrorCode, fails_with};
use crate::states::number::{NumberState, is_number_state};
use crate::states::symmetry::{EigenNumber, NumberConservation};
use crate::theory::sector::{
    number_sector, binomial, in_number_sector, lemma_number_sector_size, lemma_ascending_entries,
};

verus! {

pub type BasisN = BasisGenerator<EigenNumber>;

/// The binomial coefficient, computed by `num::integer::binomial`.  That
/// function is documented not to overflow a machine word for any `k` as
/// long as `n` is at most 34 for 32-bit words and at most 67 for 64-bit
/// words.
#[verifier::external_body]
pub(crate) fn binomial_coefficient(n: usize, k: usize) -> (c: usize)
    requires
        n < usize::BITS,
    ensures
        c == binomial(n as nat, k as nat),
{
    num::integer::binomial(n, k)
}

/// `states` lists the configurations `reps` as states of their number
/// sector.
pub open spec fn lists_number_states(
    states: Seq<NumberState>,
    reps: Seq<nat>,
    length: usize,
) -> bool {
    &&& states.len() == reps.len()
    &&& forall|i: int|
        0 <= i < reps.len() ==> is_number_state(#[trigger] states[i], reps[i] as usize, length)
}

/// Turns a list of configurations into the list of their number states.
pub(crate) fn number_states(
    light: &Vec<(usize, usize)>,
    Ghost(reps): Ghost<Seq<nat>>,
    length: usize,
) -> (states: Vec<NumberState>)
    requires
        0 < length < usize::BITS,
        lists(light@, reps, length),
        forall|i: int| 0 <= i < reps.len() ==> (#[trigger] reps[i]) < pow2(length as nat),
    ensures
        lists_number_states(states@, reps, length),
{
    let mut states: Vec<NumberState> = Vec::with_capacity(light.len());
    let mut i: usize = 0;
    proof {
        vstd::bits::lemma_usize_pow2_no_overflow(length as nat);
    }
    while i < light.len()
        invariant
            0 < length < usize::BITS,
            pow2(length as nat) <= usize::MAX,
            lists(light@, reps, length),
            forall|i: int| 0 <= i < reps.len() ==> (#[trigger] reps[i]) < pow2(length as nat),
            i <= light.len(),
            states@.len() == i,
            forall|j: int|
                0 <= j < i ==> is_number_state(#[trigger] states@[j], reps[j] as usize, length),
        decreases light.len() - i,
    {
        let entry = light[i];
        assert(entry == light@[i as int]);
        assert(reps[i as int] < pow2(length as nat));
        states.push(NumberState::from_rep(entry.0, entry.1));
        i += 1;
    }
    states
}

impl BasisN {
    pub fn new(v: EigenNumber, length: usize) -> (generator: Self)
        ensures
            generator.length == length,
            *generator.value == v,
    {
        Self { length, value: Box::new(v) }
    }

    /// The number of configurations of the sector.
    pub fn dimension(&self) -> (size: usize)
        requires
            self.length < usize::BITS,
        ensures
            size == number_sector(self.length as nat, self.value.0 as nat).len(),
            size == binomial(self.length as nat, self.value.0 as nat),
    {
        proof {
            lemma_number_sector_size(self.length as nat, self.value.0 as nat);
        }
        binomial_coefficient(self.length, self.value.total_number())
    }

    /// The states of the sector in increasing order of their
    /// configurations, and the table that files each configuration, under
    /// the label of the sector followed by the configuration, with its
    /// position in the list.  `Err(OverFlow)` if the sector asks for more
    /// set sites than the chain has.
    pub fn build(&self) -> (r: Result<
        (Vec<NumberState>, FnvHashMap<(usize, usize, usize), usize>),
        Error,
    >)
        requires
            0 < self.length < usize::BITS,
        ensures
            self.value.0 > self.length ==> fails_with(r, ErrorCode::OverFlow),
            self.value.0 <= self.length ==> r is Ok && lists_number_states(
                r->Ok_0.0@,
                number_sector(self.length as nat, self.value.0 as nat),
                self.length,
            ) && indexes_sector(
                r->Ok_0.1@,
                (self.value.0, 0usize),
                number_sector(self.length as nat, self.value.0 as nat),
            ),
    {
        let num = self.value.total_number();
        let length = self.length;
        if num > length {
            return Err(Error::make_error_syntax(ErrorCode::OverFlow));
        }
        let capacity = binomial_coefficient(length, num);
        let (light, indices) = scan_number::<(usize, usize, usize)>(length, num, capacity);
        proof {
            lemma_ascending_entries(
                pow2(length as nat),
                in_number_sector(num as nat),
            );
        }
        let basis = number_states(
            &light,
            Ghost(number_sector(length as nat, num as nat)),
            length,
        );
        Ok((basis, indices))
    }

    /// The configurations of the sector in increasing order, each with the
    /// chain length, and the table that files each configuration with its
    /// position in the list.  `Err(OverFlow)` if the sector asks for more
    /// set sites than the chain has.
    pub fn build_light(&self) -> (r: Result<
        (Vec<(usize, usize)>, FnvHashMap<usize, usize>),
        Error,
    >)
        requires
            self.length < usize::BITS,
        ensures
            self.value.0 > self.length ==> fails_with(r, ErrorCode::OverFlow),
            self.value.0 <= self.length ==> r is Ok && lists(
                r->Ok_0.0@,
                number_sector(self.length as nat, self.value.0 as nat),
                self.length,
            ) && indexes_sector(
                r->Ok_0.1@,
                (self.value.0, 0usize),
                number_sector(self.length as nat, self.value.0 as nat),
            ),
    {
        let num = self.value.total_number();
        let length = self.length;
        if num > length {
            return Err(Error::make_error_syntax(ErrorCode::OverFlow));
        }
        Ok(scan_number::<usize>(length, num, binomial_coefficient(length, num)))
    }
}

} // verus!
