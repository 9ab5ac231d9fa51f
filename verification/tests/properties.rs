use nqueens::{
    n_bishop_backtrack, n_castles_permute, n_queens_backtrack, n_queens_modular, n_queens_symmetry,
    NQueens, NQueensState, NQueensSymmetry,
};

/// Re-validate a finished placement independently, driving a fresh state
/// through `valid_at` column by column as the enumerator would.
fn assert_valid_queen_placement(n: usize, filled: &[usize]) {
    assert_eq!(filled.len(), n);
    let mut state = NQueensState::new(n);
    for &col in filled {
        assert!(col < n);
        assert!(state.valid_at(col), "unsafe column {col} in {filled:?}");
        assert!(state.unused[col]);
        state.go_walk(col);
    }
    assert!(state.full_filled());
    assert!(state.is_solution());
}

#[test]
fn test_known_queen_counts() {
    let expected = [1, 0, 0, 2, 10, 4, 40, 92, 352, 724];
    for n in 1..=10 {
        let sols = n_queens_backtrack(n);
        assert_eq!(sols.len(), expected[n - 1], "count for n = {n}");
        for s in &sols {
            assert_valid_queen_placement(n, &s.filled);
        }
    }
}

#[test]
fn test_all_enumerated_are_solutions() {
    for n in 1..=7 {
        for s in n_queens_backtrack(n) {
            assert!(s.is_solution());
            assert_eq!(s.filled.len(), n);
        }
        for s in n_queens_symmetry(n) {
            assert!(s.is_solution());
            assert_eq!(s.filled.len(), n);
            assert_valid_queen_placement(n, &s.filled);
        }
    }
}

#[test]
fn test_four_queens_exact_placements() {
    let sols = n_queens_backtrack(4);
    assert_eq!(sols.len(), 2);
    let boards: Vec<Vec<usize>> = sols.iter().map(|s| s.filled.clone()).collect();
    assert!(boards.contains(&vec![1, 3, 0, 2]));
    assert!(boards.contains(&vec![2, 0, 3, 1]));
    for s in &sols {
        assert_valid_queen_placement(4, &s.filled);
    }
}

#[test]
fn test_place_unplace_restores_state() {
    let mut state = NQueensState::new(6);
    state.go_walk(2);
    let filled_before = state.filled.clone();
    let unused_before = state.unused.clone();
    let moves_before = state.available_moves();
    state.go_walk(4);
    state.go_back();
    assert_eq!(state.filled, filled_before);
    assert_eq!(state.unused, unused_before);
    assert_eq!(state.available_moves(), moves_before);
}

#[test]
fn test_unplace_on_empty_is_noop() {
    let mut state = NQueensState::new(3);
    state.go_back();
    assert_eq!(state.filled.len(), 0);
    assert_eq!(state.unused, vec![true, true, true]);
}

#[test]
fn test_grid_place_unplace_restores_occupancy() {
    let mut state = NQueensSymmetry::new(6);
    state.go_walk(1);
    let filled_before = state.filled.clone();
    let moves_before = state.available_moves();
    state.go_walk(3);
    state.go_back();
    assert_eq!(state.filled, filled_before);
    assert_eq!(state.available_moves(), moves_before);
    assert_eq!(state.rank(), 6);
}

#[test]
fn test_symmetry_class_counts() {
    // One placement per dihedral equivalence class: the full counts
    // 1,0,0,2,10,4,40,92 collapse to these class counts, and for the
    // 4-board the single representative is the lexicographically least of
    // the two solutions.
    let counts: Vec<usize> = (1..=8).map(|n| n_queens_symmetry(n).len()).collect();
    assert_eq!(counts, vec![1, 0, 0, 1, 2, 1, 6, 12]);
    let grid_counts: Vec<usize> =
        (1..=8).map(|n| nqueens::queens_symmetry::n_queens_backtrack(n).len()).collect();
    assert_eq!(grid_counts, vec![1, 0, 0, 1, 2, 1, 6, 12]);
    let four = n_queens_symmetry(4);
    assert_eq!(four.len(), 1);
    assert_eq!(four[0].filled, vec![1, 3, 0, 2]);
    for s in nqueens::queens_symmetry::n_queens_backtrack(5) {
        assert_valid_queen_placement(5, &s.filled);
    }
}

/// The eight dihedral images of a placement: transforms 4 to 7 transpose
/// first, the low two bits then flip the row order and mirror the columns.
fn dihedral_images(p: &[usize]) -> Vec<Vec<usize>> {
    let n = p.len();
    let mut out = Vec::new();
    for t in 0..8 {
        let mut q = vec![0usize; n];
        for r in 0..n {
            let c = p[r];
            let (mut x, mut y) = if t >= 4 { (c, r) } else { (r, c) };
            if (t / 2) % 2 == 1 {
                x = n - 1 - x;
            }
            if t % 2 == 1 {
                y = n - 1 - y;
            }
            q[x] = y;
        }
        out.push(q);
    }
    out
}

#[test]
fn test_symmetry_orbits_cover_solutions() {
    // The reduced count relates to the full count by the orbit sizes: every
    // solution lies in the orbit of exactly one returned representative,
    // and no two representatives are images of each other.
    for n in 1..=6 {
        let all: Vec<Vec<usize>> =
            n_queens_backtrack(n).iter().map(|s| s.filled.clone()).collect();
        let reps: Vec<Vec<usize>> =
            n_queens_symmetry(n).iter().map(|s| s.filled.clone()).collect();
        for sol in &all {
            let holders = reps
                .iter()
                .filter(|rep| dihedral_images(rep).contains(sol))
                .count();
            assert_eq!(holders, 1, "solution {sol:?} of n = {n}");
        }
        for (i, rep) in reps.iter().enumerate() {
            assert!(all.contains(rep));
            assert!(nqueens::dihedral::is_canonical(n, rep));
            for other in reps.iter().skip(i + 1) {
                assert!(!dihedral_images(rep).contains(other));
            }
        }
    }
}

#[test]
fn test_canonical_picks_least_of_orbit() {
    assert!(nqueens::dihedral::is_canonical(4, &vec![1, 3, 0, 2]));
    assert!(!nqueens::dihedral::is_canonical(4, &vec![2, 0, 3, 1]));
}

#[test]
fn test_construct_one_small_boards() {
    assert!(n_queens_modular(0).is_none());
    assert!(n_queens_modular(2).is_none());
    assert!(n_queens_modular(3).is_none());
    let one = n_queens_modular(1).expect("single-queen board");
    assert_eq!(one.filled, vec![0]);
}

#[test]
fn test_construct_one_is_always_safe() {
    let mut found: usize = 0;
    for n in 4..=60 {
        match n_queens_modular(n) {
            Some(s) => {
                assert_valid_queen_placement(n, &s.filled);
                found += 1;
            }
            None => panic!("no construction for n = {n}"),
        }
    }
    assert_eq!(found, 57);
}

#[test]
fn test_castles_are_all_permutations() {
    let sols = n_castles_permute(4);
    assert_eq!(sols.len(), 24);
    for s in &sols {
        assert_eq!(s.size, 4);
        let mut seen = [false; 4];
        for &c in &s.filled {
            assert!(c < 4);
            assert!(!seen[c]);
            seen[c] = true;
        }
    }
    let boards: Vec<Vec<usize>> = sols.iter().map(|s| s.filled.clone()).collect();
    assert!(boards.contains(&vec![0, 1, 2, 3]));
    assert!(boards.contains(&vec![3, 2, 1, 0]));
}

#[test]
fn test_bishop_diagonal_rule() {
    // Bishops reuse no diagonal; with one column per row this keeps exactly
    // the queen counts on small boards.
    let counts: Vec<usize> = (1..=6).map(|n| n_bishop_backtrack(n).len()).collect();
    assert_eq!(counts, vec![1, 0, 0, 2, 10, 4]);
    let mut st = nqueens::NBishopsState::new(4);
    st.go_walk(0);
    // same column never attacks for bishops, only the diagonals do
    assert!(st.valid_at(0));
    assert!(!st.valid_at(1));
    assert!(st.valid_at(2));
}

#[test]
fn test_render_pictures() {
    let mut state = NQueensState::new(2);
    state.go_walk(1);
    assert_eq!(state.render(), ".Q\n..\n");

    let solutions = NQueens::new(4).solve();
    assert_eq!(solutions.data().len(), 2);
    let pictures = solutions.render();
    assert_eq!(pictures.len(), 2);
    for p in &pictures {
        assert_eq!(p.chars().filter(|&c| c == '\u{3007}').count(), 4);
        assert_eq!(p.chars().filter(|&c| c == '\n').count(), 4);
    }
}

#[test]
fn test_solver_matches_enumerator() {
    for n in 1..=6 {
        let a = NQueens::new(n).solve().data().len();
        let b = n_queens_backtrack(n).len();
        assert_eq!(a, b, "solver and enumerator disagree for n = {n}");
    }
}

#[test]
fn test_no_duplicate_placements() {
    let mut boards: Vec<Vec<usize>> = n_queens_backtrack(6)
        .iter()
        .map(|s| s.filled.clone())
        .collect();
    let total = boards.len();
    boards.sort();
    boards.dedup();
    assert_eq!(boards.len(), total);

    let solutions = NQueens::new(6).solve();
    let mut arrangements: Vec<Vec<usize>> = solutions
        .data()
        .iter()
        .map(|rows| rows.data().iter().map(|c| c.data()).collect())
        .collect();
    let total = arrangements.len();
    arrangements.sort();
    arrangements.dedup();
    assert_eq!(arrangements.len(), total);
}
