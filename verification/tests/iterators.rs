use exact_diagonalization::error::{Error, ErrorCode};
use exact_diagonalization::states::iterator::{
    is_commensurate, BitIterator, CommenIterator, CycleIterator, PairIterator,
    PeriodicDistancedPairEnumerator, PeriodicDistancedPairIterator, PeriodicPairEnumerator,
    PeriodicPairIterator,
};
use exact_diagonalization::states::{SimpleState, State};

#[test]
fn test_simple_iter() {
    let state = SimpleState::new(10, 5);

    let mut x = state.bit_iter();
    assert_eq!(x.next(), Some(0));
    assert_eq!(x.next(), Some(1));
    assert_eq!(x.next(), Some(0));
    assert_eq!(x.next(), Some(1));
    assert_eq!(x.next(), Some(0));
    assert_eq!(x.next(), None);

    let mut x = state.pair_iter();
    assert_eq!(x.next(), Some((0, 1)));
    assert_eq!(x.next(), Some((1, 0)));
    assert_eq!(x.next(), Some((0, 1)));
    assert_eq!(x.next(), Some((1, 0)));
    assert_eq!(x.next(), None);

    let mut x = state.periodic_pair_iter();
    assert_eq!(x.next(), Some((0, 1)));
    assert_eq!(x.next(), Some((1, 0)));
    assert_eq!(x.next(), Some((0, 1)));
    assert_eq!(x.next(), Some((1, 0)));
    assert_eq!(x.next(), Some((0, 0)));
    assert_eq!(x.next(), None);

    let mut x = state.periodic_pair_enumerate();
    assert_eq!(x.next(), Some(((0, 0), (1, 1))));
    assert_eq!(x.next(), Some(((1, 1), (2, 0))));
    assert_eq!(x.next(), Some(((2, 0), (3, 1))));
    assert_eq!(x.next(), Some(((3, 1), (4, 0))));
    assert_eq!(x.next(), Some(((4, 0), (0, 0))));
    assert_eq!(x.next(), None);

    let mut x = state.cycle_iter();
    assert_eq!(x.next(), Some(10));
    assert_eq!(x.next(), Some(5));
    assert_eq!(x.next(), Some(18));
    assert_eq!(x.next(), Some(9));
    assert_eq!(x.next(), Some(20));
    assert_eq!(x.next(), None);
}

#[test]
fn test_bit_iter() -> Result<(), Error> {
    assert_eq!(
        BitIterator::new(10, 3),
        Err(Error::make_error_syntax(ErrorCode::OverFlow))
    );

    let mut bit_iterator = BitIterator::new(10, 4)?;
    assert_eq!(bit_iterator.next(), Some(0));
    assert_eq!(bit_iterator.next(), Some(1));
    assert_eq!(bit_iterator.next(), Some(0));
    assert_eq!(bit_iterator.next(), Some(1));
    assert_eq!(bit_iterator.next(), None);

    let mut bit_iterator = BitIterator::new(10, 5)?;
    assert_eq!(bit_iterator.next(), Some(0));
    assert_eq!(bit_iterator.next(), Some(1));
    assert_eq!(bit_iterator.next(), Some(0));
    assert_eq!(bit_iterator.next(), Some(1));
    assert_eq!(bit_iterator.next(), Some(0));
    assert_eq!(bit_iterator.next(), None);

    return Ok(());
}

#[test]
fn test_pair_iter() -> Result<(), Error> {
    assert_eq!(
        PairIterator::new(10, 3),
        Err(Error::make_error_syntax(ErrorCode::OverFlow))
    );

    let mut pair_iterator = PairIterator::new(10, 4)?;
    assert_eq!(pair_iterator.next(), Some((0, 1)));
    assert_eq!(pair_iterator.next(), Some((1, 0)));
    assert_eq!(pair_iterator.next(), Some((0, 1)));
    assert_eq!(pair_iterator.next(), None);

    let mut pair_iterator = PairIterator::new(10, 5)?;
    assert_eq!(pair_iterator.next(), Some((0, 1)));
    assert_eq!(pair_iterator.next(), Some((1, 0)));
    assert_eq!(pair_iterator.next(), Some((0, 1)));
    assert_eq!(pair_iterator.next(), Some((1, 0)));
    assert_eq!(pair_iterator.next(), None);

    return Ok(());
}

#[test]
fn test_periodic_pair_iter() -> Result<(), Error> {
    assert_eq!(
        PeriodicPairIterator::new(10, 3),
        Err(Error::make_error_syntax(ErrorCode::OverFlow))
    );

    let mut period_iter = PeriodicPairIterator::new(10, 4)?;
    assert_eq!(period_iter.next(), Some((0, 1)));
    assert_eq!(period_iter.next(), Some((1, 0)));
    assert_eq!(period_iter.next(), Some((0, 1)));
    assert_eq!(period_iter.next(), Some((1, 0)));
    assert_eq!(period_iter.next(), None);

    let mut period_iter = PeriodicPairIterator::new(10, 5)?;
    assert_eq!(period_iter.next(), Some((0, 1)));
    assert_eq!(period_iter.next(), Some((1, 0)));
    assert_eq!(period_iter.next(), Some((0, 1)));
    assert_eq!(period_iter.next(), Some((1, 0)));
    assert_eq!(period_iter.next(), Some((0, 0)));
    assert_eq!(period_iter.next(), None);

    return Ok(());
}

#[test]
fn test_periodic_pair_enumerate() -> Result<(), Error> {
    assert_eq!(
        PeriodicPairEnumerator::new(10, 3),
        Err(Error::make_error_syntax(ErrorCode::OverFlow))
    );

    let mut period_iter = PeriodicPairEnumerator::new(10, 4)?;
    assert_eq!(period_iter.next(), Some(((0, 0), (1, 1))));
    assert_eq!(period_iter.next(), Some(((1, 1), (2, 0))));
    assert_eq!(period_iter.next(), Some(((2, 0), (3, 1))));
    assert_eq!(period_iter.next(), Some(((3, 1), (0, 0))));
    assert_eq!(period_iter.next(), None);

    let mut period_iter = PeriodicPairEnumerator::new(10, 5)?;
    assert_eq!(period_iter.next(), Some(((0, 0), (1, 1))));
    assert_eq!(period_iter.next(), Some(((1, 1), (2, 0))));
    assert_eq!(period_iter.next(), Some(((2, 0), (3, 1))));
    assert_eq!(period_iter.next(), Some(((3, 1), (4, 0))));
    assert_eq!(period_iter.next(), Some(((4, 0), (0, 0))));
    assert_eq!(period_iter.next(), None);

    return Ok(());
}

#[test]
fn test_cycle_iter() -> Result<(), Error> {
    assert_eq!(
        CycleIterator::new(10, 3),
        Err(Error::make_error_syntax(ErrorCode::OverFlow))
    );

    let mut cycle_it = CycleIterator::new(10, 4)?;
    assert_eq!(cycle_it.next(), Some(10));
    assert_eq!(cycle_it.next(), Some(5));
    assert_eq!(cycle_it.next(), None);

    let mut cycle_it = CycleIterator::new(10, 5)?;
    assert_eq!(cycle_it.next(), Some(10));
    assert_eq!(cycle_it.next(), Some(5));
    assert_eq!(cycle_it.next(), Some(18));
    assert_eq!(cycle_it.next(), Some(9));
    assert_eq!(cycle_it.next(), Some(20));
    assert_eq!(cycle_it.next(), None);

    return Ok(());
}

#[test]
fn test_commensurability_iterator() {
    let mut s = CommenIterator::new(6, 12);
    assert_eq!(s.next(), Some(0));
    assert_eq!(s.next(), Some(2));
    assert_eq!(s.next(), Some(4));
    assert_eq!(s.next(), Some(6));
    assert_eq!(s.next(), Some(8));
    assert_eq!(s.next(), Some(10));
    assert_eq!(s.next(), None);

    let mut s = CommenIterator::new(4, 12);
    assert_eq!(s.next(), Some(0));
    assert_eq!(s.next(), Some(3));
    assert_eq!(s.next(), Some(6));
    assert_eq!(s.next(), Some(9));
    assert_eq!(s.next(), None);
}

#[test]
fn exhausted_walkers_stay_exhausted() {
    let mut bits = BitIterator::new(1, 1).unwrap();
    assert_eq!(bits.next(), Some(1));
    assert_eq!(bits.next(), None);
    assert_eq!(bits.next(), None);

    let mut orbit = CycleIterator::new(3, 4).unwrap();
    let mut members = Vec::new();
    while let Some(n) = orbit.next() {
        members.push(n);
    }
    assert_eq!(members, vec![3, 9, 12, 6]);
    assert_eq!(orbit.next(), None);

    let mut ks = CommenIterator::new(1, 4);
    assert_eq!(ks.next(), Some(0));
    assert_eq!(ks.next(), None);
    assert_eq!(ks.next(), None);
}

#[test]
fn single_site_walks() {
    let mut pairs = PairIterator::new(1, 1).unwrap();
    assert_eq!(pairs.next(), None);

    let mut pairs = PeriodicPairIterator::new(1, 1).unwrap();
    assert_eq!(pairs.next(), Some((1, 1)));
    assert_eq!(pairs.next(), None);

    let mut bonds = PeriodicPairEnumerator::new(1, 1).unwrap();
    assert_eq!(bonds.next(), Some(((0, 1), (0, 1))));
    assert_eq!(bonds.next(), None);

    let mut orbit = CycleIterator::new(1, 1).unwrap();
    assert_eq!(orbit.next(), Some(1));
    assert_eq!(orbit.next(), None);
}

#[test]
fn distanced_pairs_wrap_around() {
    assert_eq!(
        PeriodicDistancedPairIterator::new(10, 3, 1),
        Err(Error::make_error_syntax(ErrorCode::OverFlow))
    );
    assert_eq!(
        PeriodicDistancedPairIterator::new(10, 4, 4)
            .unwrap_err()
            .to_string(),
        "State representation over flows."
    );
    assert!(PeriodicDistancedPairEnumerator::new(10, 4, 5).is_err());

    // 0b00110 on five sites: digits 0 1 1 0 0.
    let mut pairs = PeriodicDistancedPairIterator::new(6, 5, 2).unwrap();
    assert_eq!(pairs.next(), Some((0, 1)));
    assert_eq!(pairs.next(), Some((1, 0)));
    assert_eq!(pairs.next(), Some((1, 0)));
    assert_eq!(pairs.next(), Some((0, 0)));
    assert_eq!(pairs.next(), Some((0, 1)));
    assert_eq!(pairs.next(), None);

    let mut bonds = PeriodicDistancedPairEnumerator::new(6, 5, 2).unwrap();
    assert_eq!(bonds.next(), Some(((0, 0), (2, 1))));
    assert_eq!(bonds.next(), Some(((1, 1), (3, 0))));
    assert_eq!(bonds.next(), Some(((2, 1), (4, 0))));
    assert_eq!(bonds.next(), Some(((3, 0), (0, 0))));
    assert_eq!(bonds.next(), Some(((4, 0), (1, 1))));
    assert_eq!(bonds.next(), None);

    let mut same = PeriodicDistancedPairIterator::new(6, 5, 0).unwrap();
    assert_eq!(same.next(), Some((0, 0)));
    assert_eq!(same.next(), Some((1, 1)));
}

#[test]
fn distance_one_agrees_with_neighbours() {
    for n in 0..32usize {
        let mut near = PeriodicPairEnumerator::new(n, 5).unwrap();
        let mut dist = PeriodicDistancedPairEnumerator::new(n, 5, 1).unwrap();
        for _ in 0..6 {
            assert_eq!(near.next(), dist.next());
        }
    }
}

#[test]
fn commensurate_indices_of_a_period() {
    for length in 1..=12usize {
        for period in 0..=length {
            let mut walker = CommenIterator::new(period, length);
            let mut found = Vec::new();
            while let Some(k) = walker.next() {
                found.push(k);
            }
            let expected: Vec<usize> = (0..length).filter(|k| (k * period) % length == 0).collect();
            assert_eq!(found, expected);
            for k in 0..length {
                assert_eq!(is_commensurate(k, period, length), expected.contains(&k));
            }
        }
    }
    assert!(is_commensurate(usize::MAX, usize::MAX, 1));
    assert!(!is_commensurate(usize::MAX, usize::MAX, 2));
    assert_eq!(CommenIterator::new(3, 0).next(), None);
}
