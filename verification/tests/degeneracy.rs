use exact_diagonalization::hamiltonian::degeneracy::{
    count_degeneracy_from, degeneracy_pair, degeneracy_pair_of, degeneracy_triple,
    degeneracy_triple_of, prepare_energy_map, Weight,
};
use exact_diagonalization::states::symmetry::EigenNumMomentum;
use fnv::FnvHashMap;

fn bucket_ids(energies: &[f64], unit: f64) -> Vec<i128> {
    energies.iter().map(|e| (e / unit).floor() as i128).collect()
}

fn as_numbers(weights: &[Weight]) -> Vec<f64> {
    weights
        .iter()
        .map(|w| match w {
            Weight::Share(k) => 1f64 / (*k as f64),
            Weight::Folded => -1f64,
        })
        .collect()
}

fn close_l2(found: &[f64], truth: &[f64], rtol: f64) -> bool {
    let diff: f64 = found
        .iter()
        .zip(truth.iter())
        .map(|(a, b)| (a - b) * (a - b))
        .sum();
    let norm: f64 = truth.iter().map(|b| b * b).sum();
    found.len() == truth.len() && (diff / norm).sqrt() < rtol
}

#[test]
fn test_count_degeneracy_from() {
    let energies = [1.11, 2.999, 3.0, 6.0, 5.99999999];
    let mut energy_map = prepare_energy_map(0, &bucket_ids(&energies, 0.1));

    for (i, vector) in energy_map.iter() {
        match i {
            11 => {
                assert_eq!(vector, &vec![(0, 0)]);
            }
            29 => {
                assert_eq!(vector, &vec![(0, 1), (0, 2)]);
            }
            60 => {
                assert_eq!(vector, &vec![(0, 3), (0, 4)]);
            }
            _ => panic!(),
        }
    }
    assert_eq!(energy_map.len(), 3);

    let others = [1.0999, 2.0, 2.8, 2.91, 3.01, 3.11, 5.91, 6.01];
    assert!(count_degeneracy_from(
        &mut energy_map,
        1,
        &bucket_ids(&others, 0.1)
    ));

    for (i, vector) in energy_map.iter() {
        match i {
            11 => {
                assert_eq!(vector, &vec![(0, 0), (1, 0)]);
            }
            29 => {
                assert_eq!(vector, &vec![(0, 1), (0, 2), (1, 3), (1, 4)]);
            }
            60 => {
                assert_eq!(vector, &vec![(0, 3), (0, 4), (1, 6), (1, 7)]);
            }
            _ => panic!(),
        }
    }
    assert_eq!(energy_map.len(), 3);
}

#[test]
fn test_degeneracy_pair() {
    let length = 5;
    let mut energy_map: FnvHashMap<i128, Vec<(usize, usize)>> = FnvHashMap::default();
    energy_map.insert(
        0,
        vec![(1, 0), (1, 1), (1, 2), (1, 3), (2, 1), (2, 2), (2, 3), (3, 2), (3, 3)],
    );

    let (counts, pair_map) = degeneracy_pair(length, &energy_map).unwrap();
    assert!(close_l2(
        &as_numbers(&counts),
        &[0.111111111111111, -1.0, -1.0, -1.0, 1.0],
        1e-3
    ));
    // The members of the sector of the first member are folded, not
    // redirected: the sector 1 has no list.
    for (egn_v, pairs) in pair_map.iter() {
        match egn_v.0 {
            2 => {
                assert_eq!(pairs, &vec![(1, 0), (2, 0), (3, 0)]);
            }
            3 => {
                assert_eq!(pairs, &vec![(2, 0), (3, 0)]);
            }
            _ => panic!(),
        };
    }
    assert_eq!(pair_map.len(), 2);
    assert_eq!(pair_map.get(&(1, 0)), None);
}

#[test]
fn test_degeneracy_triple() {
    let length = 5;
    let mut energy_map: FnvHashMap<i128, Vec<(usize, usize)>> = FnvHashMap::default();
    energy_map.insert(
        0,
        vec![(1, 0), (1, 1), (1, 2), (1, 3), (2, 1), (2, 2), (2, 3), (3, 2), (3, 3)],
    );

    let (counts, pair_map) = degeneracy_triple(length, &energy_map).unwrap();
    assert!(close_l2(
        &as_numbers(&counts),
        &[0.11111111111111, -1.0, -1.0, -1.0, 1.0],
        1e-3
    ));
    for (egn_v, pairs) in pair_map.iter() {
        match egn_v.0 {
            2 => {
                assert_eq!(
                    pairs,
                    &vec![
                        (1, 1, 0),
                        (1, 2, 0),
                        (1, 3, 0),
                        (2, 1, 0),
                        (2, 2, 0),
                        (2, 3, 0),
                        (3, 1, 0),
                        (3, 2, 0),
                        (3, 3, 0)
                    ]
                );
            }
            3 => {
                assert_eq!(pairs, &vec![(2, 2, 0), (2, 3, 0), (3, 2, 0), (3, 3, 0)]);
            }
            _ => panic!(),
        };
    }
    assert_eq!(pair_map.len(), 2);
    assert_eq!(pair_map.get(&(1, 0)), None);
}

#[test]
fn weights_of_a_bin_are_exact() {
    let buckets = vec![
        vec![(7usize, 2usize), (7, 0), (8, 1), (7, 3)],
        vec![(8usize, 1usize)],
    ];
    let (counts, pairs) = degeneracy_pair_of(5, &buckets).unwrap();
    assert_eq!(
        counts,
        vec![
            Weight::Folded,
            Weight::Share(1),
            Weight::Share(4),
            Weight::Folded,
            Weight::Share(1)
        ]
    );
    assert_eq!(pairs.get(&(7, 0)), None);
    assert_eq!(pairs.get(&(8, 0)), Some(&vec![(1, 2)]));
    assert_eq!(pairs.len(), 1);
    // The canonical state carries one part in four for each of the four members.
    let share = as_numbers(&counts)[2];
    assert_eq!(share * 4.0, 1.0);
}

#[test]
fn bins_are_looked_at_in_the_order_given() {
    let one = vec![(1usize, 0usize), (2, 5)];
    let two = vec![(1usize, 1usize), (2, 6)];
    let (_, pairs) = degeneracy_pair_of(7, &vec![one.clone(), two.clone()]).unwrap();
    assert_eq!(pairs.get(&(2, 0)), Some(&vec![(5, 0), (6, 1)]));
    let (_, pairs) = degeneracy_pair_of(7, &vec![two.clone(), one.clone()]).unwrap();
    assert_eq!(pairs.get(&(2, 0)), Some(&vec![(6, 1), (5, 0)]));
    let (_, triples) = degeneracy_triple_of(7, &vec![one, two]).unwrap();
    assert_eq!(triples.get(&(2, 0)), Some(&vec![(5, 5, 0), (6, 6, 1)]));
    assert_eq!(triples.get(&(1, 0)), None);
}

#[test]
fn members_of_the_first_sector_are_not_redirected() {
    let bin = vec![vec![(1usize, 0usize), (1, 1)]];
    let (counts, pairs) = degeneracy_pair_of(5, &bin).unwrap();
    assert_eq!(counts[0], Weight::Share(2));
    assert_eq!(counts[1], Weight::Folded);
    assert!(pairs.is_empty());
    let (counts, triples) = degeneracy_triple_of(5, &bin).unwrap();
    assert_eq!(counts[1], Weight::Folded);
    assert!(triples.is_empty());

    // A member of another sector is paired with the members of its own
    // sector only.
    let bin = vec![vec![(1usize, 0usize), (2, 3), (1, 1), (2, 4)]];
    let (_, triples) = degeneracy_triple_of(5, &bin).unwrap();
    assert_eq!(
        triples.get(&(2, 0)),
        Some(&vec![(3, 3, 0), (3, 4, 0), (4, 3, 0), (4, 4, 0)])
    );
    assert_eq!(triples.len(), 1);
}

#[test]
fn index_beyond_the_basis_is_an_overflow() {
    let mut energy_map: FnvHashMap<i128, Vec<(usize, usize)>> = FnvHashMap::default();
    energy_map.insert(3, vec![(1, 5)]);
    assert_eq!(
        degeneracy_pair(5, &energy_map).unwrap_err().to_string(),
        "State representation over flows."
    );
    assert_eq!(
        degeneracy_triple(5, &energy_map).unwrap_err().to_string(),
        "State representation over flows."
    );
    assert!(degeneracy_pair(6, &energy_map).is_ok());

    // Every recorded index is held to the length, whatever its sector.
    let same_sector = vec![vec![(1usize, 0usize), (1, 9)]];
    assert!(degeneracy_pair_of(5, &same_sector).is_err());
    assert!(degeneracy_triple_of(5, &same_sector).is_err());
    let other_sector = vec![vec![(1usize, 0usize), (2, 7)]];
    assert_eq!(
        degeneracy_pair_of(5, &other_sector).unwrap_err().to_string(),
        "State representation over flows."
    );
    assert!(degeneracy_triple_of(5, &other_sector).is_err());
    assert!(degeneracy_pair_of(8, &other_sector).is_ok());
    let later_bin = vec![vec![(1usize, 0usize)], vec![(1usize, 1usize), (2, 5)]];
    assert!(degeneracy_pair_of(5, &later_bin).is_err());
    assert!(degeneracy_pair_of(6, &later_bin).is_ok());
}

#[test]
fn empty_input_gives_full_weights() {
    let energy_map: FnvHashMap<i128, Vec<(usize, usize)>> = FnvHashMap::default();
    let (counts, pairs) = degeneracy_pair(3, &energy_map).unwrap();
    assert_eq!(counts, vec![Weight::Share(1); 3]);
    assert!(pairs.is_empty());
    let (counts, triples) = degeneracy_triple(0, &energy_map).unwrap();
    assert!(counts.is_empty());
    assert!(triples.is_empty());
    let none: Vec<i128> = Vec::new();
    assert!(prepare_energy_map(0usize, &none).is_empty());
}

#[test]
fn eigenvalues_join_the_nearest_bin_there_is() {
    // Own bin first, then the bin below, then the bin above.
    let map = prepare_energy_map(0usize, &vec![10, 12, 11]);
    assert_eq!(map.get(&10), Some(&vec![(0, 0), (0, 2)]));
    assert_eq!(map.get(&12), Some(&vec![(0, 1)]));
    assert_eq!(map.get(&11), None);

    let map = prepare_energy_map(0usize, &vec![12, 10, 11, 11]);
    assert_eq!(map.get(&10), Some(&vec![(0, 1), (0, 2), (0, 3)]));
    assert_eq!(map.get(&12), Some(&vec![(0, 0)]));

    let map = prepare_energy_map(0usize, &vec![5, 4, 6, 7, 3]);
    assert_eq!(map.get(&5), Some(&vec![(0, 0), (0, 1), (0, 2)]));
    assert_eq!(map.get(&7), Some(&vec![(0, 3)]));
    assert_eq!(map.get(&3), Some(&vec![(0, 4)]));
    assert_eq!(map.len(), 3);

    let map = prepare_energy_map(0usize, &vec![i128::MIN, i128::MAX, i128::MIN + 1, i128::MAX - 1]);
    assert_eq!(map.get(&i128::MIN), Some(&vec![(0, 0), (0, 2)]));
    assert_eq!(map.get(&i128::MAX), Some(&vec![(0, 1), (0, 3)]));
}

#[test]
fn further_sectors_open_no_bins() {
    let first = EigenNumMomentum::new(2, 0);
    let second = EigenNumMomentum::new(2, 1);
    let mut map = prepare_energy_map(first, &vec![10, 20]);
    assert!(!count_degeneracy_from(&mut map, second, &vec![12, 18, 30]));
    assert_eq!(map.len(), 2);
    assert_eq!(map.get(&10), Some(&vec![(first, 0)]));
    assert!(count_degeneracy_from(&mut map, second, &vec![12, 21, 30, 19]));
    assert_eq!(map.len(), 2);
    assert_eq!(map.get(&10), Some(&vec![(first, 0)]));
    assert_eq!(map.get(&20), Some(&vec![(first, 1), (second, 1), (second, 3)]));
    assert!(!count_degeneracy_from(&mut map, second, &vec![]));

    assert!(degeneracy_pair(2, &map).is_err());
    let (counts, pairs) = degeneracy_pair(4, &map).unwrap();
    assert_eq!(
        counts,
        vec![Weight::Share(1), Weight::Share(3), Weight::Share(1), Weight::Share(1)]
    );
    assert_eq!(pairs.get(&(2, 1)), Some(&vec![(1, 1), (3, 1)]));
    assert_eq!(pairs.get(&(2, 0)), None);
}

#[test]
fn binning_the_same_data_twice_gives_the_same_bins() {
    let ids = bucket_ids(&[1.11, 2.999, 3.0, 6.0, 5.99999999], 0.1);
    assert_eq!(ids, vec![11, 29, 30, 60, 59]);
    assert_eq!(prepare_energy_map(0usize, &ids), prepare_energy_map(0usize, &ids));
}
