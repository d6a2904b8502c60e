use exact_diagonalization::bases::momentum::BasisNK;
use exact_diagonalization::bases::number::BasisN;
use exact_diagonalization::bases::Basis;
use exact_diagonalization::error::Error;
use exact_diagonalization::hamiltonian::{
    assemble_column, assemble_matrix, Entry, PeriodicIsing, PeriodicNearestXXZ,
    PeriodicNextNearestXXZ, Term,
};
use exact_diagonalization::states::bit_fns::{bit_flip, bit_flip_unsafe, sum_bit};
use exact_diagonalization::states::momentum::NumMomentumState;
use exact_diagonalization::states::symmetry::{EigenNumMomentum, EigenNumber, EigenValue};
use exact_diagonalization::states::{SimpleState, State};
use ndarray::{arr2, Array2};
use num_complex::Complex64;
use std::collections::HashMap;
use std::f64::consts::PI;

/// The entry `(configuration, value)` of a contribution, for the transverse
/// couplings `delta_x` of range one and two and the longitudinal coupling
/// `delta_z`.
fn weigh(term: Term, delta_x: [f64; 2], delta_z: f64) -> (usize, f64) {
    match term {
        Term::Exchange { target, range } => (target, -delta_x[range - 1]),
        Term::Diagonal {
            target,
            opposed,
            aligned,
        } => (target, (opposed as f64 - aligned as f64) * (delta_z / 2f64)),
    }
}

fn close(found: &Array2<Complex64>, truth: &Array2<Complex64>, tolerance: f64) -> bool {
    found.dim() == truth.dim()
        && found
            .iter()
            .zip(truth.iter())
            .all(|(a, b)| (a - b).norm() < tolerance)
}

#[test]
fn test_apply_hamiltonian() {
    let delta = 2f64;
    let x = PeriodicNearestXXZ::new();
    let mut seen = 0;
    for term in x.apply_to(&SimpleState::new(2, 4)) {
        let data = weigh(term, [1f64, 0f64], delta);
        assert!((data == (1, -1f64)) || (data == (4, -1f64)) || (data == (2, 0f64)));
        seen += 1;
    }
    assert_eq!(seen, 3);
}

#[test]
fn nearest_terms_in_order() {
    let terms = PeriodicNearestXXZ::new().apply_to(&SimpleState::new(2, 4));
    assert_eq!(
        terms,
        vec![
            Term::Exchange { target: 1, range: 1 },
            Term::Exchange { target: 4, range: 1 },
            Term::Diagonal { target: 2, opposed: 2, aligned: 2 },
        ]
    );
    let terms = PeriodicNearestXXZ::new().apply_to(&SimpleState::new(5, 4));
    assert_eq!(
        terms,
        vec![
            Term::Exchange { target: 6, range: 1 },
            Term::Exchange { target: 3, range: 1 },
            Term::Exchange { target: 9, range: 1 },
            Term::Exchange { target: 12, range: 1 },
            Term::Diagonal { target: 5, opposed: 4, aligned: 0 },
        ]
    );
    let terms = PeriodicNearestXXZ::new().apply_to(&(0usize, 3usize));
    assert_eq!(terms, vec![Term::Diagonal { target: 0, opposed: 0, aligned: 3 }]);
    let terms = PeriodicNearestXXZ::new().apply_to(&(1usize, 1usize));
    assert_eq!(terms, vec![Term::Diagonal { target: 1, opposed: 0, aligned: 1 }]);
    // On two sites both bonds join the same pair of sites.
    let terms = PeriodicNearestXXZ::new().apply_to(&(1usize, 2usize));
    assert_eq!(
        terms,
        vec![
            Term::Exchange { target: 2, range: 1 },
            Term::Exchange { target: 2, range: 1 },
            Term::Diagonal { target: 1, opposed: 2, aligned: 0 },
        ]
    );
}

#[test]
fn next_nearest_terms_in_order() {
    // 0b00110 on five sites: digits 0 1 1 0 0.
    let terms = PeriodicNextNearestXXZ::new().apply_to(&SimpleState::new(6, 5));
    assert_eq!(
        terms,
        vec![
            Term::Exchange { target: 5, range: 1 },
            Term::Exchange { target: 10, range: 1 },
            Term::Exchange { target: 3, range: 2 },
            Term::Exchange { target: 12, range: 2 },
            Term::Exchange { target: 18, range: 2 },
            Term::Exchange { target: 20, range: 2 },
            Term::Diagonal { target: 6, opposed: 2, aligned: 3 },
        ]
    );
    assert_eq!(weigh(terms[0], [1.5, 0.25], 2.0), (5, -1.5));
    assert_eq!(weigh(terms[2], [1.5, 0.25], 2.0), (3, -0.25));
    assert_eq!(weigh(terms[6], [1.5, 0.25], 2.0), (6, -1.0));
}

#[test]
fn ising_counts_bonds() {
    let ising = PeriodicIsing::new();
    assert_eq!(
        ising.apply_to(&SimpleState::new(10, 4)),
        Term::Diagonal { target: 10, opposed: 4, aligned: 0 }
    );
    assert_eq!(
        ising.apply_to(&SimpleState::new(0, 4)),
        Term::Diagonal { target: 0, opposed: 0, aligned: 4 }
    );
    assert_eq!(
        ising.apply_to(&SimpleState::new(6, 5)),
        Term::Diagonal { target: 6, opposed: 2, aligned: 3 }
    );
    let delta = 3f64;
    assert_eq!(weigh(ising.apply_to(&SimpleState::new(10, 4)), [0.0, 0.0], delta), (10, 6.0));
    assert_eq!(weigh(ising.apply_to(&SimpleState::new(0, 4)), [0.0, 0.0], delta), (0, -6.0));
}

#[test]
fn exchanges_conserve_the_number_of_set_sites() {
    for length in 3..=7usize {
        for n in 0..(1usize << length) {
            for term in PeriodicNextNearestXXZ::new().apply_to(&SimpleState::new(n, length)) {
                match term {
                    Term::Exchange { target, .. } => {
                        assert_eq!(sum_bit(target), sum_bit(n));
                        assert_ne!(target, n);
                    }
                    Term::Diagonal { target, opposed, aligned } => {
                        assert_eq!(target, n);
                        assert_eq!(opposed + aligned, length);
                    }
                }
            }
        }
    }
}

fn whole_space_matrix(total_ptl: usize, delta: f64) -> Array2<f64> {
    let max_state = 1 << total_ptl;
    let mut hamiltonian = Array2::<f64>::zeros((max_state, max_state));
    let xxz = PeriodicNearestXXZ::new();
    for idx in 0..max_state {
        let state = SimpleState::new(idx, total_ptl);
        for term in xxz.apply_to(&state) {
            let (idx2, val) = weigh(term, [1f64, 0f64], delta);
            hamiltonian[[idx2, idx]] += val;
        }
    }
    hamiltonian
}

fn whole_space_truth(t: f64) -> Array2<f64> {
    arr2(&[
        [-t, 0.0, 0.0, 0.0, 0.0, 0.0, 0.0, 0.0, 0.0, 0.0, 0.0, 0.0, 0.0, 0.0, 0.0, 0.0],
        [0.0, 0.0, -1.0, 0.0, 0.0, 0.0, 0.0, 0.0, -1.0, 0.0, 0.0, 0.0, 0.0, 0.0, 0.0, 0.0],
        [0.0, -1.0, 0.0, 0.0, -1.0, 0.0, 0.0, 0.0, 0.0, 0.0, 0.0, 0.0, 0.0, 0.0, 0.0, 0.0],
        [0.0, 0.0, 0.0, 0.0, 0.0, -1.0, 0.0, 0.0, 0.0, 0.0, -1.0, 0.0, 0.0, 0.0, 0.0, 0.0],
        [0.0, 0.0, -1.0, 0.0, 0.0, 0.0, 0.0, 0.0, -1.0, 0.0, 0.0, 0.0, 0.0, 0.0, 0.0, 0.0],
        [0.0, 0.0, 0.0, -1.0, 0.0, t, -1.0, 0.0, 0.0, -1.0, 0.0, 0.0, -1.0, 0.0, 0.0, 0.0],
        [0.0, 0.0, 0.0, 0.0, 0.0, -1.0, 0.0, 0.0, 0.0, 0.0, -1.0, 0.0, 0.0, 0.0, 0.0, 0.0],
        [0.0, 0.0, 0.0, 0.0, 0.0, 0.0, 0.0, 0.0, 0.0, 0.0, 0.0, -1.0, 0.0, 0.0, -1.0, 0.0],
        [0.0, -1.0, 0.0, 0.0, -1.0, 0.0, 0.0, 0.0, 0.0, 0.0, 0.0, 0.0, 0.0, 0.0, 0.0, 0.0],
        [0.0, 0.0, 0.0, 0.0, 0.0, -1.0, 0.0, 0.0, 0.0, 0.0, -1.0, 0.0, 0.0, 0.0, 0.0, 0.0],
        [0.0, 0.0, 0.0, -1.0, 0.0, 0.0, -1.0, 0.0, 0.0, -1.0, t, 0.0, -1.0, 0.0, 0.0, 0.0],
        [0.0, 0.0, 0.0, 0.0, 0.0, 0.0, 0.0, -1.0, 0.0, 0.0, 0.0, 0.0, 0.0, -1.0, 0.0, 0.0],
        [0.0, 0.0, 0.0, 0.0, 0.0, -1.0, 0.0, 0.0, 0.0, 0.0, -1.0, 0.0, 0.0, 0.0, 0.0, 0.0],
        [0.0, 0.0, 0.0, 0.0, 0.0, 0.0, 0.0, 0.0, 0.0, 0.0, 0.0, -1.0, 0.0, 0.0, -1.0, 0.0],
        [0.0, 0.0, 0.0, 0.0, 0.0, 0.0, 0.0, -1.0, 0.0, 0.0, 0.0, 0.0, 0.0, -1.0, 0.0, 0.0],
        [0.0, 0.0, 0.0, 0.0, 0.0, 0.0, 0.0, 0.0, 0.0, 0.0, 0.0, 0.0, 0.0, 0.0, 0.0, -t],
    ])
}

#[test]
fn test_genawaiter() -> Result<(), Error> {
    let total_ptl = 4;
    let max_state = 1 << total_ptl;
    let mut hamiltonian = Array2::<f64>::zeros((max_state, max_state));
    let delta = 2f64;
    let t = 2f64 * delta;

    for state in 0..max_state {
        let iterator = SimpleState::new(state, total_ptl);
        let mut sum = 0f64;
        let mut bonds = iterator.periodic_pair_enumerate();
        while let Some(((i, si), (j, sj))) = bonds.next() {
            if si == sj {
                sum -= delta / 2f64;
            } else {
                sum += delta / 2f64;
                let flipped = bit_flip_unsafe(state, i, j);
                hamiltonian[[flipped, state]] += -1f64;
            }
        }
        hamiltonian[[state, state]] += sum;
    }

    assert_eq!(hamiltonian, whole_space_truth(t));
    return Ok(());
}

#[test]
fn test_genawaiter2() -> Result<(), Error> {
    let total_ptl = 4;
    let delta = 2f64;
    let t = 2f64 * delta;
    assert_eq!(whole_space_matrix(total_ptl, delta), whole_space_truth(t));
    return Ok(());
}

fn number_sector_truth(m: usize, t: f64) -> Array2<f64> {
    if m == 0 || m == 4 {
        arr2(&[[-t]])
    } else if m == 1 || m == 3 {
        arr2(&[
            [0.0, -1.0, 0.0, -1.0],
            [-1.0, 0.0, -1.0, 0.0],
            [0.0, -1.0, 0.0, -1.0],
            [-1.0, 0.0, -1.0, 0.0],
        ])
    } else {
        arr2(&[
            [0.0, -1.0, 0.0, 0.0, -1.0, 0.0],
            [-1.0, t, -1.0, -1.0, 0.0, -1.0],
            [0.0, -1.0, 0.0, 0.0, -1.0, 0.0],
            [0.0, -1.0, 0.0, 0.0, -1.0, 0.0],
            [-1.0, 0.0, -1.0, -1.0, t, -1.0],
            [0.0, -1.0, 0.0, 0.0, -1.0, 0.0],
        ])
    }
}

#[test]
fn test_number_conservation() -> Result<(), Error> {
    let total_ptl = 4;
    let max_state = 1 << total_ptl;
    let mut magnet_sets: Vec<Vec<SimpleState>> = Vec::new();
    let mut indices: HashMap<usize, (usize, usize)> = HashMap::new();

    let delta = 2f64;
    let t = 2f64 * delta;

    for i in 0..total_ptl + 1 {
        magnet_sets.push(Vec::with_capacity(
            BasisN::new(EigenNumber::new(i), total_ptl).dimension(),
        ));
    }

    for n in 0..max_state {
        let state = SimpleState::new(n, total_ptl);
        let m = state.bit_sum();

        let idx = magnet_sets[m].len();
        magnet_sets[m].push(state);
        indices.insert(n, (m, idx));
    }

    for (m, mset) in magnet_sets.iter().enumerate() {
        let n = BasisN::new(EigenNumber::new(m), total_ptl).dimension();
        let mut hamiltonian: Array2<f64> = Array2::zeros((n, n));

        for (idx, &state) in mset.iter().enumerate() {
            let mut bonds = state.periodic_pair_enumerate();
            while let Some(((i, si), (j, sj))) = bonds.next() {
                if si == sj {
                    hamiltonian[[idx, idx]] -= delta / 2f64;
                } else {
                    hamiltonian[[idx, idx]] += delta / 2f64;

                    let rep2 = bit_flip(state.rep, state.length, i, j)?;
                    let idx2 = indices.get(&rep2).unwrap();
                    hamiltonian[[idx2.1, idx]] -= 1f64;
                }
            }
        }

        assert_eq!(hamiltonian, number_sector_truth(m, t));
    }

    return Ok(());
}

#[test]
fn test_number_conservation2() -> Result<(), Error> {
    let total_ptl = 4;
    let basis_gen = Basis::new(total_ptl);
    let (magnet_sets, indices) = basis_gen.build_n();

    let delta = 2f64;
    let t = 2f64 * delta;

    for (egn_n, mset) in magnet_sets.iter() {
        let m = egn_n.0;
        let n = BasisN::new(EigenNumber::new(m), total_ptl).dimension();
        let mut hamiltonian: Array2<f64> = Array2::zeros((n, n));

        for (idx, state) in mset.iter().enumerate() {
            let mut bonds = state.periodic_pair_enumerate();
            while let Some(((i, si), (j, sj))) = bonds.next() {
                if si == sj {
                    hamiltonian[[idx, idx]] -= delta / 2f64;
                } else {
                    hamiltonian[[idx, idx]] += delta / 2f64;

                    let rep2 = bit_flip(state.rep(), state.length, i, j)?;
                    let idx2 = indices.get(&(egn_n.0, egn_n.1, rep2)).unwrap();
                    hamiltonian[[idx2.0, idx]] -= 1f64;
                }
            }
        }

        assert_eq!(hamiltonian, number_sector_truth(m, t));
    }
    assert_eq!(magnet_sets.len(), 5);

    return Ok(());
}

#[test]
fn number_sector_matrices_from_the_terms() -> Result<(), Error> {
    let total_ptl = 4;
    let delta = 2f64;
    let t = 2f64 * delta;
    let xxz = PeriodicNearestXXZ::new();

    for m in 0..=total_ptl {
        let (basis, indices) = BasisN::new(EigenNumber::new(m), total_ptl).build_light()?;
        let n = basis.len();
        let mut hamiltonian: Array2<f64> = Array2::zeros((n, n));
        for (idx, state) in basis.iter().enumerate() {
            for term in xxz.apply_to(state) {
                let (rep2, value) = weigh(term, [1f64, 0f64], delta);
                let idx2 = indices.get(&rep2).unwrap();
                hamiltonian[[*idx2, idx]] += value;
            }
        }
        assert_eq!(hamiltonian, number_sector_truth(m, t));
    }

    return Ok(());
}

#[test]
fn test_number_conservation3() -> Result<(), Error> {
    let total_ptl = 4;
    let m = 2;
    let basis = BasisN::new(EigenNumber::new(m), total_ptl);

    let (magnet_set, indices) = basis.build()?;

    let delta = 2f64;
    let t = 2f64 * delta;

    let n = basis.dimension();
    let mut hamiltonian: Array2<f64> = Array2::zeros((n, n));

    for (idx, state) in magnet_set.iter().enumerate() {
        let mut bonds = state.periodic_pair_enumerate();
        while let Some(((i, si), (j, sj))) = bonds.next() {
            if si == sj {
                hamiltonian[[idx, idx]] -= delta / 2f64;
            } else {
                hamiltonian[[idx, idx]] += delta / 2f64;

                let rep2 = bit_flip(state.rep(), total_ptl, i, j)?;
                if let Some(&idx2) = indices.get(&(m, 0, rep2)) {
                    hamiltonian[[idx2, idx]] -= 1f64;
                }
            }
        }
    }

    assert_eq!(hamiltonian, number_sector_truth(2, t));

    return Ok(());
}

fn phase_factor(k: usize, length: usize) -> Complex64 {
    Complex64::new(0f64, 2f64 * PI * (k as f64) / (length as f64)).exp()
}

fn normalize_factor(state: &NumMomentumState) -> Complex64 {
    Complex64::from((state.orbit_period() as f64).sqrt() / (state.length as f64))
}

fn hamiltonian_with(l: usize, m: usize, k: usize) -> Result<Array2<Complex64>, Error> {
    let basis_gen = BasisNK::new(EigenNumMomentum::new(m, k), l);
    let (basis, indices) = basis_gen.build().unwrap();

    let delta = Complex64::from(2f64);
    let omega_k = phase_factor(basis[0].wave_number(), basis[0].length);

    let n = basis.len();
    let mut hamiltonian: Array2<Complex64> = Array2::zeros((n, n));

    for (idx, state) in basis.iter().enumerate() {
        let normal_f1 = normalize_factor(state);
        let mut bonds = state.periodic_pair_enumerate();
        while let Some(((i, si), (j, sj))) = bonds.next() {
            if si == sj {
                hamiltonian[[idx, idx]] -= delta / 2f64;
            } else {
                hamiltonian[[idx, idx]] += delta / 2f64;

                let rep2 = bit_flip_unsafe(state.rep(), i, j);
                if let Some((idx2, d)) = indices.get(&(m, k, rep2)) {
                    let normal_f2 = normalize_factor(&basis[*idx2]);
                    hamiltonian[[*idx2, idx]] += -normal_f1 / normal_f2 * omega_k.powu(*d as u32);
                }
            }
        }
    }

    return Ok(hamiltonian);
}

/// The matrix of the nearest XXZ term in a momentum sector, put together
/// from the entries that the library resolves.
fn assembled(l: usize, m: usize, k: usize, delta_x: f64, delta_z: f64) -> Array2<Complex64> {
    let sector = EigenNumMomentum::new(m, k);
    let (basis, indices) = BasisNK::new(sector, l).build_light().unwrap();
    let omega_k = phase_factor(k, l);
    let xxz = PeriodicNearestXXZ::new();
    let n = basis.len();
    let mut hamiltonian: Array2<Complex64> = Array2::zeros((n, n));
    for (idx, state) in basis.iter().enumerate() {
        let terms = xxz.apply_to(state);
        for entry in assemble_column(idx, &terms, sector.label(), &basis, &indices) {
            let (_, value) = weigh(entry.term, [delta_x, 0f64], delta_z);
            let ratio = (entry.column_period as f64).sqrt() / (entry.row_period as f64).sqrt();
            hamiltonian[[entry.row, entry.column]] +=
                Complex64::from(value * ratio) * omega_k.powu(entry.shift as u32);
        }
    }
    hamiltonian
}

#[test]
fn test_hamiltonian_lmk() -> Result<(), Error> {
    let delta = Complex64::from(2f64);
    let t = Complex64::from(2f64 * delta);
    let s = Complex64::from(8f64.sqrt());
    let z = Complex64::from(0f64);

    let length = 4;
    let m = 2;

    let test_h0 = hamiltonian_with(length, m, 0)?;
    let truth_h0 = arr2(&[[z, -s], [-s, t]]);
    assert!(close(&test_h0, &truth_h0, 1e-10));

    let test_h1 = hamiltonian_with(length, m, 1)?;
    let truth_h1 = arr2(&[[z]]);
    assert!(close(&test_h1, &truth_h1, 1e-10));

    let test_h2 = hamiltonian_with(length, m, 2)?;
    let truth_h2 = arr2(&[[z, z], [z, t]]);
    assert!(close(&test_h2, &truth_h2, 1e-10));

    let test_h3 = hamiltonian_with(length, m, 3)?;
    let truth_h3 = arr2(&[[z]]);
    assert!(close(&test_h3, &truth_h3, 1e-10));
    Ok(())
}

#[test]
fn assembled_matrix_matches_the_golden_values() {
    let t = Complex64::from(4f64);
    let s = Complex64::from(8f64.sqrt());
    let z = Complex64::from(0f64);
    assert!(close(&assembled(4, 2, 0, 1.0, 2.0), &arr2(&[[z, -s], [-s, t]]), 1e-10));
    assert!(close(&assembled(4, 2, 1, 1.0, 2.0), &arr2(&[[z]]), 1e-10));
    assert!(close(&assembled(4, 2, 2, 1.0, 2.0), &arr2(&[[z, z], [z, t]]), 1e-10));
    assert!(close(&assembled(4, 2, 3, 1.0, 2.0), &arr2(&[[z]]), 1e-10));
    for k in 0..4 {
        assert!(close(&assembled(4, 2, k, 1.0, 2.0), &hamiltonian_with(4, 2, k).unwrap(), 1e-10));
    }
}

#[test]
fn assembled_matrix_is_hermitian() {
    for l in 1..=8usize {
        for m in 0..=l {
            for k in 0..l {
                if BasisNK::new(EigenNumMomentum::new(m, k), l).build_light().is_err() {
                    continue;
                }
                let h = assembled(l, m, k, 0.7, 1.3);
                let n = h.nrows();
                for a in 0..n {
                    for b in 0..n {
                        assert!((h[[a, b]] - h[[b, a]].conj()).norm() < 1e-10);
                    }
                }
            }
        }
    }
}

#[test]
fn test_diagonalization() -> Result<(), Error> {
    // The sector k = 0 of four sites with two set sites is two-dimensional;
    // the spectrum of a Hermitian two-by-two matrix is known in closed form.
    let h = assembled(4, 2, 0, 1.0, 2.0);
    assert_eq!(h.dim(), (2, 2));
    let a = h[[0, 0]].re;
    let d = h[[1, 1]].re;
    let b = h[[0, 1]].norm();
    let mean = (a + d) / 2f64;
    let spread = (((a - d) / 2f64).powi(2) + b * b).sqrt();
    let test_values = [mean - spread, mean + spread];
    let truth_values = [2f64 - 12f64.sqrt(), 2f64 + 12f64.sqrt()];
    assert!((test_values[0] - truth_values[0]).abs() < 1e-10);
    assert!((test_values[1] - truth_values[1]).abs() < 1e-10);

    // The eigenvectors given for the lower and the upper level.
    let t = 2f64.sqrt();
    let s = 3f64.sqrt();
    let cn = 2f64 * (6f64 - 2f64 * s).sqrt();
    let cp = 2f64 * (6f64 + 2f64 * s).sqrt();
    let vectors = [
        [(-2f64 * t) / cn, 2f64 * (1f64 - s) / cn],
        [(-2f64 * t) / cp, 2f64 * (1f64 + s) / cp],
    ];
    for (value, vector) in truth_values.iter().zip(vectors.iter()) {
        for row in 0..2 {
            let applied = h[[row, 0]] * vector[0] + h[[row, 1]] * vector[1];
            assert!((applied - Complex64::from(value * vector[row])).norm() < 1e-10);
        }
        assert!((vector[0] * vector[0] + vector[1] * vector[1] - 1f64).abs() < 1e-10);
    }
    Ok(())
}

#[test]
fn unresolved_targets_are_dropped() {
    let sector = EigenNumMomentum::new(2, 1);
    let (basis, indices) = BasisNK::new(sector, 4).build_light().unwrap();
    assert_eq!(basis, vec![(3, 4)]);
    let terms = PeriodicNearestXXZ::new().apply_to(&basis[0]);
    assert_eq!(
        terms,
        vec![
            Term::Exchange { target: 5, range: 1 },
            Term::Exchange { target: 10, range: 1 },
            Term::Diagonal { target: 3, opposed: 2, aligned: 2 },
        ]
    );
    let entries = assemble_column(0, &terms, sector.label(), &basis, &indices);
    assert_eq!(
        entries,
        vec![Entry {
            row: 0,
            column: 0,
            term: Term::Diagonal { target: 3, opposed: 2, aligned: 2 },
            shift: 0,
            column_period: 4,
            row_period: 4,
        }]
    );

    let sector = EigenNumMomentum::new(2, 0);
    let (basis, indices) = BasisNK::new(sector, 4).build().unwrap();
    let terms = PeriodicNearestXXZ::new().apply_to(&basis[0]);
    let entries = assemble_column(0, &terms, sector.label(), &basis, &indices);
    assert_eq!(entries.len(), 3);
    assert_eq!(
        entries[1],
        Entry {
            row: 1,
            column: 0,
            term: Term::Exchange { target: 10, range: 1 },
            shift: 1,
            column_period: 4,
            row_period: 2,
        }
    );
}

#[test]
fn matrix_is_assembled_column_by_column() {
    let sector = EigenNumMomentum::new(3, 0);
    let (basis, indices) = BasisNK::new(sector, 6).build_light().unwrap();
    let term = PeriodicNextNearestXXZ::new();
    let columns: Vec<Vec<Term>> = basis.iter().map(|state| term.apply_to(state)).collect();
    let whole = assemble_matrix(&columns, sector.label(), &basis, &indices);
    let mut by_column = Vec::new();
    for (idx, terms) in columns.iter().enumerate() {
        by_column.extend(assemble_column(idx, terms, sector.label(), &basis, &indices));
    }
    assert_eq!(whole, by_column);
    assert!(whole.iter().all(|entry| entry.row < basis.len() && entry.column < basis.len()));
    // Every state contributes its diagonal entry, unshifted.
    for idx in 0..basis.len() {
        let diagonal: Vec<&Entry> = whole
            .iter()
            .filter(|entry| entry.column == idx && matches!(entry.term, Term::Diagonal { .. }))
            .collect();
        assert_eq!(diagonal.len(), 1);
        assert_eq!((diagonal[0].row, diagonal[0].shift), (idx, 0));
    }
    let none: Vec<Vec<Term>> = Vec::new();
    let empty: Vec<(usize, usize)> = Vec::new();
    assert!(assemble_matrix(&none, sector.label(), &empty, &indices).is_empty());
}

#[test]
fn couplings_are_symmetric() {
    let term = PeriodicNextNearestXXZ::new();
    for length in 3..=6usize {
        let states = 1usize << length;
        let mut counts = vec![vec![[0usize; 2]; states]; states];
        for n in 0..states {
            for entry in term.apply_to(&SimpleState::new(n, length)) {
                if let Term::Exchange { target, range } = entry {
                    counts[n][target][range - 1] += 1;
                }
            }
        }
        for n in 0..states {
            for other in 0..states {
                assert_eq!(counts[n][other], counts[other][n]);
            }
        }
    }
    // On two sites both bonds join the same pair of sites, in both directions.
    let near = PeriodicNearestXXZ::new();
    let there = near.apply_to(&SimpleState::new(1, 2));
    let back = near.apply_to(&SimpleState::new(2, 2));
    let to = |terms: &Vec<Term>, x: usize| {
        terms
            .iter()
            .filter(|term| **term == Term::Exchange { target: x, range: 1 })
            .count()
    };
    assert_eq!(to(&there, 2), 2);
    assert_eq!(to(&back, 1), 2);
}
