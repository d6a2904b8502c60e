use exact_diagonalization::bases::momentum::BasisNK;
use exact_diagonalization::bases::number::BasisN;
use exact_diagonalization::bases::Basis;
use exact_diagonalization::states::bit_fns::{is_rep, period_unsafe, sum_bit};
use exact_diagonalization::states::momentum::NumMomentumState;
use exact_diagonalization::states::number::NumberState;
use exact_diagonalization::states::representation::Representation;
use exact_diagonalization::states::symmetry::{EigenNumMomentum, EigenNumber, EigenValue};
use exact_diagonalization::states::{SimpleState, State};

#[test]
fn test_whole_basis_n() {
    let length = 2;
    let basis_gen = Basis::new(length);
    let (base, indices) = basis_gen.build_n();

    for (egn_v, basis_n) in base.iter() {
        match egn_v.0 {
            0 => {
                assert_eq!(
                    *basis_n,
                    vec![NumberState::new(&SimpleState::new(0, length))]
                );
            }
            1 => {
                assert_eq!(
                    *basis_n,
                    vec![
                        NumberState::new(&SimpleState::new(1, length)),
                        NumberState::new(&SimpleState::new(2, length))
                    ]
                );
            }
            2 => {
                assert_eq!(
                    *basis_n,
                    vec![NumberState::new(&SimpleState::new(3, length))]
                );
            }
            _ => unreachable!(),
        }
    }
    assert_eq!(base.len(), 3);

    for ((m, _, n), idx) in indices.iter() {
        match n {
            0 => {
                assert_eq!(*m, 0);
                assert_eq!(idx.0, 0);
            }
            1 => {
                assert_eq!(*m, 1);
                assert_eq!(idx.0, 0);
            }
            2 => {
                assert_eq!(*m, 1);
                assert_eq!(idx.0, 1);
            }
            3 => {
                assert_eq!(*m, 2);
                assert_eq!(idx.0, 0);
            }
            _ => unreachable!(),
        }
    }
    assert_eq!(indices.len(), 4);
}

#[test]
fn test_whole_basis_light_n() {
    let length = 2;
    let basis_gen = Basis::new(length);
    let (base, indices) = basis_gen.build_light_n();

    for (egn_v, basis_n) in base.iter() {
        match egn_v.0 {
            0 => {
                assert_eq!(*basis_n, vec![(0, 2)]);
            }
            1 => {
                assert_eq!(*basis_n, vec![(1, 2), (2, 2)]);
            }
            2 => {
                assert_eq!(*basis_n, vec![(3, 2)]);
            }
            _ => unreachable!(),
        }
    }
    assert_eq!(base.len(), 3);

    for ((m, _, n), idx) in indices.iter() {
        match n {
            0 => {
                assert_eq!(*m, 0);
                assert_eq!(idx.0, 0);
            }
            1 => {
                assert_eq!(*m, 1);
                assert_eq!(idx.0, 0);
            }
            2 => {
                assert_eq!(*m, 1);
                assert_eq!(idx.0, 1);
            }
            3 => {
                assert_eq!(*m, 2);
                assert_eq!(idx.0, 0);
            }
            _ => unreachable!(),
        }
    }
    assert_eq!(indices.len(), 4);
}

#[test]
fn test_whole_basis_nk() {
    let length = 4;
    let egn_v = EigenNumMomentum(2, 0);
    let basis_gen = Basis::new(length);
    let (base, indices) = basis_gen.build_nk();

    assert_eq!(
        base.get(&EigenNumMomentum::new(2, 0).label()),
        Some(&vec![
            NumMomentumState::new(&(3, length), &egn_v).unwrap(),
            NumMomentumState::new(&(5, length), &egn_v).unwrap()
        ])
    );

    assert_eq!(indices.get(&Representation(egn_v, 3).key()), Some(&(0, 0)));
    assert_eq!(indices.get(&Representation(egn_v, 5).key()), Some(&(1, 0)));
    assert_eq!(indices.get(&Representation(egn_v, 6).key()), Some(&(0, 3)));
    assert_eq!(indices.get(&Representation(egn_v, 9).key()), Some(&(0, 1)));
    assert_eq!(indices.get(&Representation(egn_v, 10).key()), Some(&(1, 1)));
    assert_eq!(indices.get(&Representation(egn_v, 12).key()), Some(&(0, 2)));
    assert_eq!(indices.get(&Representation(egn_v, 0).key()), None);
}

#[test]
fn test_whole_basis_light_nk() {
    let length = 4;
    let basis_gen = Basis::new(length);
    let (base, indices) = basis_gen.build_light_nk();

    assert_eq!(
        base.get(&EigenNumMomentum::new(2, 0).label()),
        Some(&vec![(3, 4), (5, 4)])
    );

    let key = |n: usize| Representation(EigenNumMomentum::new(2, 0), n).key();
    assert_eq!(indices.get(&key(3)), Some(&(0, 0)));
    assert_eq!(indices.get(&key(5)), Some(&(1, 0)));
    assert_eq!(indices.get(&key(6)), Some(&(0, 3)));
    assert_eq!(indices.get(&key(9)), Some(&(0, 1)));
    assert_eq!(indices.get(&key(10)), Some(&(1, 1)));
    assert_eq!(indices.get(&key(12)), Some(&(0, 2)));
    assert_eq!(indices.get(&key(0)), None);
}

#[test]
fn test_basis_nk() {
    let length = 4;
    let n = 0;
    let k = 0;
    let egn_v = EigenNumMomentum(n, k);

    let gen = BasisNK::new(egn_v, length);
    let (base, indices) = gen.build().unwrap();
    assert_eq!(
        base,
        vec![NumMomentumState::new(&(0, length), &egn_v).unwrap()]
    );
    for (&k, &v) in indices.iter() {
        assert!(k.2 == 0 && v == (0, 0));
    }
    assert_eq!(indices.len(), 1);

    let n = 2;
    let egn_v = EigenNumMomentum(n, k);
    let gen = BasisNK::new(egn_v, length);
    let (base, indices) = gen.build().unwrap();
    assert_eq!(
        base,
        vec![
            NumMomentumState::new(&(3, length), &egn_v).unwrap(),
            NumMomentumState::new(&(5, length), &egn_v).unwrap()
        ]
    );
    for (&k, &v) in indices.iter() {
        assert!(
            (k.2 == 3 && v == (0, 0))
                || (k.2 == 5 && v == (1, 0))
                || (k.2 == 6 && v == (0, 3))
                || (k.2 == 9 && v == (0, 1))
                || (k.2 == 10 && v == (1, 1))
                || (k.2 == 12 && v == (0, 2))
        );
        assert_eq!((k.0, k.1), egn_v.label());
    }
    assert_eq!(indices.len(), 6);
}

#[test]
fn test_basis_light_nk() {
    let length = 4;
    let n = 0;
    let k = 0;

    let gen = BasisNK::new(EigenNumMomentum::new(n, k), length);
    let (base, indices) = gen.build_light().unwrap();
    assert_eq!(base, vec![(0, 4)]);
    for (&k, &v) in indices.iter() {
        assert!(k == 0 && v == (0, 0));
    }
    assert_eq!(indices.len(), 1);

    let n = 2;
    let gen = BasisNK::new(EigenNumMomentum::new(n, k), length);
    let (base, indices) = gen.build_light().unwrap();
    assert_eq!(base, vec![(3, 4), (5, 4)]);
    for (&k, &v) in indices.iter() {
        assert!(
            (k == 3 && v == (0, 0))
                || (k == 5 && v == (1, 0))
                || (k == 6 && v == (0, 3))
                || (k == 9 && v == (0, 1))
                || (k == 10 && v == (1, 1))
                || (k == 12 && v == (0, 2))
        );
    }
    assert_eq!(indices.len(), 6);
}

#[test]
fn test_basis_n() {
    let length = 4;
    let rep = 0;

    let gen = BasisN::new(EigenNumber::new(rep), length);
    let (base, indices) = gen.build().unwrap();
    assert_eq!(
        base,
        vec![NumberState::new(&SimpleState {
            rep: 0,
            length
        })]
    );
    for (&k, &v) in indices.iter() {
        assert!(k.2 == 0 && v == 0);
    }
    assert_eq!(indices.len(), 1);

    let rep = 2;
    let gen = BasisN::new(EigenNumber::new(rep), length);
    let (base, indices) = gen.build().unwrap();
    assert_eq!(
        base,
        vec![
            NumberState::new(&SimpleState { rep: 3, length }),
            NumberState::new(&SimpleState { rep: 5, length }),
            NumberState::new(&SimpleState { rep: 6, length }),
            NumberState::new(&SimpleState { rep: 9, length }),
            NumberState::new(&SimpleState { rep: 10, length }),
            NumberState::new(&SimpleState { rep: 12, length })
        ]
    );
    for (&k, &v) in indices.iter() {
        assert!(
            (k.2 == 3 && v == 0)
                || (k.2 == 5 && v == 1)
                || (k.2 == 6 && v == 2)
                || (k.2 == 9 && v == 3)
                || (k.2 == 10 && v == 4)
                || (k.2 == 12 && v == 5)
        );
        assert_eq!((k.0, k.1), (2, 0));
    }
    assert_eq!(indices.len(), 6);
}

#[test]
fn test_basis_light_n() {
    let length = 4;
    let rep = 0;

    let gen = BasisN::new(EigenNumber::new(rep), length);
    let (base, indices) = gen.build_light().unwrap();
    assert_eq!(base, vec![(0, 4)]);
    for (&k, &v) in indices.iter() {
        assert!(k == 0 && v == 0);
    }
    assert_eq!(indices.len(), 1);

    let rep = 2;
    let gen = BasisN::new(EigenNumber::new(rep), length);
    let (base, indices) = gen.build_light().unwrap();
    assert_eq!(base, vec![(3, 4), (5, 4), (6, 4), (9, 4), (10, 4), (12, 4)]);
    for (&k, &v) in indices.iter() {
        assert!(
            (k == 3 && v == 0)
                || (k == 5 && v == 1)
                || (k == 6 && v == 2)
                || (k == 9 && v == 3)
                || (k == 10 && v == 4)
                || (k == 12 && v == 5)
        );
    }
    assert_eq!(indices.len(), 6);
}

#[test]
fn number_basis_rejects_too_many_set_sites() {
    let gen = BasisN::new(EigenNumber::new(5), 4);
    assert_eq!(
        gen.build().unwrap_err().to_string(),
        "State representation over flows."
    );
    assert_eq!(
        gen.build_light().unwrap_err().to_string(),
        "State representation over flows."
    );
    assert!(BasisN::new(EigenNumber::new(4), 4).build_light().is_ok());
}

#[test]
fn empty_momentum_sector_is_a_configuration_error() {
    // With all sites set the only orbit has period 1, which carries momentum 0 only.
    for k in 1..4 {
        let gen = BasisNK::new(EigenNumMomentum::new(4, k), 4);
        assert_eq!(
            gen.build_light().unwrap_err().to_string(),
            "No state in the requested sector."
        );
        assert_eq!(
            gen.build().unwrap_err().to_string(),
            "No state in the requested sector."
        );
    }
    assert!(BasisNK::new(EigenNumMomentum::new(5, 0), 4).build().is_err());
    assert!(BasisNK::new(EigenNumMomentum::new(4, 0), 4).build().is_ok());
}

fn binomial(n: usize, k: usize) -> usize {
    if k > n {
        0
    } else {
        (0..k).fold(1, |c, i| c * (n - i) / (i + 1))
    }
}

#[test]
fn number_sectors_have_binomial_size() {
    for length in 1..=10usize {
        let mut total = 0;
        for m in 0..=length {
            let gen = BasisN::new(EigenNumber::new(m), length);
            let (basis, indices) = gen.build_light().unwrap();
            assert_eq!(basis.len(), binomial(length, m));
            assert_eq!(gen.dimension(), basis.len());
            assert_eq!(indices.len(), basis.len());
            total += basis.len();
        }
        assert_eq!(total, 1 << length);
    }
    assert_eq!(BasisN::new(EigenNumber::new(3), 7).dimension(), 35);
    assert_eq!(BasisN::new(EigenNumber::new(8), 7).dimension(), 0);
    assert_eq!(BasisN::new(EigenNumber::new(0), 0).dimension(), 1);
}

#[test]
fn momentum_sectors_add_up_to_the_number_sector() {
    for length in 1..=9usize {
        for m in 0..=length {
            let mut total = 0;
            let mut by_period = 0;
            for k in 0..length {
                if let Ok((basis, _)) = BasisNK::new(EigenNumMomentum::new(m, k), length).build_light()
                {
                    total += basis.len();
                }
            }
            let mut reps = 0;
            for n in 0..(1usize << length) {
                if sum_bit(n) == m && is_rep(n, length) {
                    reps += 1;
                    by_period += period_unsafe(n, length);
                }
            }
            assert_eq!(total, by_period);
            assert_eq!(total, binomial(length, m));
            if m == 0 || m == length {
                assert_eq!(total, reps);
            }
        }
    }
}

#[test]
fn momentum_index_files_every_orbit_member_once() {
    let length = 6;
    for m in 0..=length {
        for k in 0..length {
            let gen = BasisNK::new(EigenNumMomentum::new(m, k), length);
            assert_eq!(gen.length(), length);
            assert_eq!(gen.value(), EigenNumMomentum(m, k));
            let (basis, indices) = match gen.build_light() {
                Ok(built) => built,
                Err(_) => continue,
            };
            let mut members = 0;
            for (idx, &(rep, l)) in basis.iter().enumerate() {
                assert_eq!(l, length);
                assert_eq!(sum_bit(rep), m);
                assert!(is_rep(rep, length));
                let p = period_unsafe(rep, length);
                assert!(gen.check_commensurability(p));
                let mut temp = rep;
                for i in 0..p {
                    assert_eq!(indices.get(&temp), Some(&(idx, i)));
                    temp = SimpleState::new(temp, length).cyclic_move().rep;
                }
                members += p;
            }
            assert_eq!(indices.len(), members);
            let sorted = basis.windows(2).all(|w| w[0].0 < w[1].0);
            assert!(sorted);
        }
    }
}

#[test]
fn whole_basis_agrees_with_the_sector_builders() {
    let length = 5;
    let whole = Basis::new(length);
    let (light_n, index_n) = whole.build_light_n();
    let (light_nk, index_nk) = whole.build_light_nk();
    let (heavy_nk, heavy_index_nk) = whole.build_nk();
    assert_eq!(index_nk, heavy_index_nk);
    assert_eq!(index_n.len(), 1 << length);
    for m in 0..=length {
        let (basis, indices) = BasisN::new(EigenNumber::new(m), length)
            .build_light()
            .unwrap();
        assert_eq!(light_n.get(&(m, 0)), Some(&basis));
        for (n, idx) in indices.iter() {
            assert_eq!(index_n.get(&(m, 0, *n)), Some(&(*idx, 0)));
        }
        for k in 0..length {
            let sector = EigenNumMomentum::new(m, k);
            match BasisNK::new(sector, length).build_light() {
                Ok((basis, indices)) => {
                    assert_eq!(light_nk.get(&(m, k)), Some(&basis));
                    let states = heavy_nk.get(&(m, k)).unwrap();
                    assert_eq!(states.len(), basis.len());
                    for (state, (rep, _)) in states.iter().zip(basis.iter()) {
                        assert_eq!(state.index(), Representation(sector, *rep));
                        assert_eq!(state.state().len(), period_unsafe(*rep, length));
                    }
                    for (n, at) in indices.iter() {
                        assert_eq!(index_nk.get(&(m, k, *n)), Some(at));
                    }
                }
                Err(_) => {
                    assert_eq!(light_nk.get(&(m, k)), None);
                    assert_eq!(heavy_nk.get(&(m, k)), None);
                }
            }
        }
    }
    assert!(light_n.keys().all(|label| label.0 <= length && label.1 == 0));
    assert!(light_nk.keys().all(|label| label.0 <= length && label.1 < length));
}

#[test]
fn build_from_refines_a_number_basis() {
    let length = 4;
    let (number_basis, _) = BasisN::new(EigenNumber::new(2), length).build().unwrap();
    for k in 0..length {
        let sector = EigenNumMomentum::new(2, k);
        let gen = BasisNK::new(sector, length);
        let (direct, direct_index) = gen.build().unwrap();
        let (refined, refined_index) = gen.build_from(&number_basis).unwrap();
        assert_eq!(refined, direct);
        assert_eq!(refined_index, direct_index);
    }
    let gen = BasisNK::new(EigenNumMomentum::new(2, 0), length);
    let (refined, index) = gen.build_from(&number_basis).unwrap();
    assert_eq!(refined.len(), 2);
    assert_eq!(refined[0].rep(), 3);
    assert_eq!(refined[1].rep(), 5);
    assert_eq!(index.get(&(2, 0, 10)), Some(&(1, 1)));
}

#[test]
fn build_from_rejects_unfit_bases() {
    let length = 4;
    let gen = BasisNK::new(EigenNumMomentum::new(2, 0), length);
    let empty: Vec<NumberState> = Vec::new();
    assert_eq!(
        gen.build_from(&empty).unwrap_err().to_string(),
        "Basis cannot be extended to the requested sector."
    );
    let (other_sector, _) = BasisN::new(EigenNumber::new(1), length).build().unwrap();
    assert_eq!(
        gen.build_from(&other_sector).unwrap_err().to_string(),
        "Basis cannot be extended to the requested sector."
    );
    // The only representative with one set site has period 4, which carries
    // every momentum; a basis without representatives carries none.
    let no_representative = vec![NumberState::from_rep(2, length), NumberState::from_rep(8, length)];
    let gen = BasisNK::new(EigenNumMomentum::new(1, 0), length);
    assert_eq!(
        gen.build_from(&no_representative).unwrap_err().to_string(),
        "No state in the requested sector."
    );
    let simple = vec![SimpleState::new(1, length), SimpleState::new(2, length)];
    let (refined, _) = gen.build_from(&simple).unwrap();
    assert_eq!(refined.len(), 1);
}

#[test]
fn build_from_rejects_lists_that_are_no_basis() {
    let length = 4;
    let gen = BasisNK::new(EigenNumMomentum::new(2, 0), length);
    let unfit = "Basis cannot be extended to the requested sector.";

    // A state of another chain, and a state that does not lie on its chain.
    let longer = vec![SimpleState { rep: 3, length: 5 }];
    assert_eq!(gen.build_from(&longer).unwrap_err().to_string(), unfit);
    let beyond = vec![SimpleState { rep: 3, length: 4 }, SimpleState { rep: 16, length: 4 }];
    assert_eq!(gen.build_from(&beyond).unwrap_err().to_string(), unfit);

    // A representative that is kept must not occur twice.
    let twice = vec![
        NumberState::from_rep(3, length),
        NumberState::from_rep(6, length),
        NumberState::from_rep(3, length),
    ];
    assert_eq!(gen.build_from(&twice).unwrap_err().to_string(), unfit);

    // What is not kept may occur as often as it likes.
    let harmless = vec![
        NumberState::from_rep(6, length),
        NumberState::from_rep(6, length),
        NumberState::from_rep(3, length),
        NumberState::from_rep(10, length),
        NumberState::from_rep(5, length),
    ];
    let (refined, index) = gen.build_from(&harmless).unwrap();
    assert_eq!(refined.len(), 2);
    assert_eq!(refined[0].rep(), 3);
    assert_eq!(refined[1].rep(), 5);
    assert_eq!(index.len(), 6);
    assert_eq!(index.get(&(2, 0, 10)), Some(&(1, 1)));
}
