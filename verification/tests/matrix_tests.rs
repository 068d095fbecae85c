use omr_core::{solve_matrix_mod_256, OmrError, Payload, PAYLOAD_LENGTH};
use rand::{Rng, RngCore, SeedableRng};

fn payload_from_fn(f: impl Fn(usize) -> u8) -> Payload {
    let mut p = Payload::new();
    for i in 0..PAYLOAD_LENGTH {
        p.set(i, f(i));
    }
    p
}

/// The product of a matrix row with a payload vector, modulo 256.
fn row_times(row: &[u8], xs: &[Payload]) -> Payload {
    let mut acc = Payload::new();
    for (j, &w) in row.iter().enumerate() {
        acc = acc.add(&xs[j].scalar_mul(w));
    }
    acc
}

#[test]
fn identity_system_returns_right_hand_side() {
    let mut matrix = vec![vec![1u8, 0], vec![0u8, 1]];
    let x0 = payload_from_fn(|i| (i % 256) as u8);
    let x1 = payload_from_fn(|i| (3 * i % 256) as u8);
    let mut payloads = vec![x0.duplicate(), x1.duplicate()];
    let sol = solve_matrix_mod_256(&mut matrix, &mut payloads).unwrap();
    assert_eq!(sol.len(), 2);
    assert_eq!(sol[0], x0);
    assert_eq!(sol[1], x1);
}

#[test]
fn three_by_three_round_trip() {
    let a: Vec<Vec<u8>> = vec![vec![3, 2, 4], vec![2, 1, 6], vec![4, 4, 5]];
    let xs = vec![
        payload_from_fn(|i| (i % 256) as u8),
        payload_from_fn(|i| (5 * i % 256) as u8),
        payload_from_fn(|i| (11 * i + 1) as u8),
    ];
    let mut b: Vec<Payload> = a.iter().map(|row| row_times(row, &xs)).collect();
    let mut m = a.clone();
    let sol = solve_matrix_mod_256(&mut m, &mut b).unwrap();
    assert_eq!(sol, xs);
}

#[test]
fn overdetermined_consistent_system_round_trips() {
    let a: Vec<Vec<u8>> = vec![vec![1, 2], vec![3, 5], vec![7, 11], vec![2, 2]];
    let xs = vec![
        payload_from_fn(|i| (9 * i % 256) as u8),
        payload_from_fn(|i| (17 * i % 256) as u8),
    ];
    let mut b: Vec<Payload> = a.iter().map(|row| row_times(row, &xs)).collect();
    let mut m = a.clone();
    let sol = solve_matrix_mod_256(&mut m, &mut b).unwrap();
    assert_eq!(sol, xs);
}

#[test]
fn empty_unknowns_solve_to_empty() {
    let mut matrix: Vec<Vec<u8>> = vec![vec![], vec![]];
    let mut payloads = vec![Payload::new(), Payload::new()];
    let sol = solve_matrix_mod_256(&mut matrix, &mut payloads).unwrap();
    assert!(sol.is_empty());
}

#[test]
fn fifty_by_fifty_with_single_odd_pivot_succeeds() {
    // A random matrix whose first column is even everywhere but one row
    // still has a pivot there; some seed gives a fully solvable draw.
    let n = 50;
    let mut solved = false;
    for seed in 0..32u64 {
        let mut rng = rand::rngs::StdRng::seed_from_u64(seed);
        let mut a: Vec<Vec<u8>> = (0..n)
            .map(|_| {
                let mut row = vec![0u8; n];
                rng.fill_bytes(&mut row);
                row
            })
            .collect();
        for (i, row) in a.iter_mut().enumerate() {
            if i == 17 {
                row[0] |= 1;
            } else {
                row[0] &= 0xfe;
            }
        }
        let xs: Vec<Payload> = (0..n)
            .map(|j| payload_from_fn(|i| ((i + j) % 256) as u8))
            .collect();
        let mut b: Vec<Payload> = a.iter().map(|row| row_times(row, &xs)).collect();
        let mut m = a.clone();
        if let Ok(sol) = solve_matrix_mod_256(&mut m, &mut b) {
            assert_eq!(sol, xs);
            solved = true;
            break;
        }
    }
    assert!(solved);
}

#[test]
fn all_even_pivot_column_is_singular() {
    let mut rng = rand::rngs::StdRng::seed_from_u64(11);
    let n = 50;
    let mut a: Vec<Vec<u8>> = (0..n)
        .map(|_| {
            let mut row = vec![0u8; n];
            rng.fill_bytes(&mut row);
            row
        })
        .collect();
    for row in a.iter_mut() {
        row[0] &= 0xfe;
    }
    let mut b: Vec<Payload> = (0..n).map(|_| Payload::new()).collect();
    let res = solve_matrix_mod_256(&mut a, &mut b);
    assert_eq!(res, Err(OmrError::InvertibleMatrix));
}

#[test]
fn all_even_pivot_column_fails_for_any_right_side() {
    // Singularity is decided by the matrix alone: even with a right-hand
    // side that no assignment satisfies, the solver reports the matrix.
    let mut a: Vec<Vec<u8>> = vec![vec![2, 2], vec![2, 2]];
    let mut b = vec![
        payload_from_fn(|_| 1),
        payload_from_fn(|_| 7),
    ];
    let res = solve_matrix_mod_256(&mut a, &mut b);
    assert_eq!(res, Err(OmrError::InvertibleMatrix));
}

#[test]
fn even_diagonal_two_by_two_is_singular() {
    let mut matrix = vec![vec![2u8, 3], vec![4u8, 5]];
    let mut payloads = vec![Payload::new(), Payload::new()];
    let res = solve_matrix_mod_256(&mut matrix, &mut payloads);
    assert_eq!(res, Err(OmrError::InvertibleMatrix));
}

#[test]
fn random_square_systems_round_trip() {
    let mut rng = rand::rngs::StdRng::seed_from_u64(3);
    let mut solved = 0;
    for _ in 0..8 {
        let n = 1 + rng.gen_range(0..6usize);
        let a: Vec<Vec<u8>> = (0..n.max(1))
            .map(|_| (0..n).map(|_| rng.gen()).collect())
            .collect();
        let xs: Vec<Payload> = (0..n)
            .map(|j| payload_from_fn(|i| ((3 * i + 7 * j) % 256) as u8))
            .collect();
        let mut b: Vec<Payload> = a.iter().map(|row| row_times(row, &xs)).collect();
        if b.is_empty() {
            continue;
        }
        let mut m = a.clone();
        if let Ok(sol) = solve_matrix_mod_256(&mut m, &mut b) {
            assert_eq!(sol, xs);
            solved += 1;
        }
    }
    assert!(solved >= 1);
}
