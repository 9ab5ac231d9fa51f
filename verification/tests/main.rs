use nqueens::{
    n_bishop_backtrack, n_castles_permute, n_queens_backtrack, n_queens_modular, n_queens_symmetry,
    NQueensState,
};

#[test]
fn main_test_n_queens_backtrack() {
    let mut count: usize = 0;
    for s in n_queens_backtrack(4) {
        println!("{}", s.render());
        count += 1;
    }
    println!("{} solutions found", count);
}

#[test]
fn test_n_queens_symmetry() {
    let mut state = NQueensState::new(8);
    state.go_walk(1);
    println!("{:?}", state.symmetry_available_moves());
    println!("{}", state.render());
    state.go_walk(3);
    println!("{:?}", state.symmetry_available_moves());
    println!("{}", state.render());

    let mut count: usize = 0;
    for s in n_queens_symmetry(8) {
        println!("{}", s.render());
        count += 1;
    }
    println!("{} solutions found", count);
}

#[test]
fn test_n_queens_modular() {
    let mut count: usize = 0;
    for n in 0..20 {
        match n_queens_modular(n) {
            None => {
                println!("{n}: no solutions found");
            }
            Some(s) => {
                println!("{n}: \n{}", s.render());
                count += 1;
            }
        }
    }
    println!("{} solutions found", count);
}

#[test]
fn test_n_castles_backtrack() {
    let mut count: usize = 0;
    for s in n_castles_permute(4) {
        println!("{}", s.render());
        count += 1;
    }
    println!("{} solutions found", count);
}

#[test]
fn test_n_bishops_backtrack() {
    let mut count: usize = 0;
    for s in n_bishop_backtrack(4) {
        println!("{}", s.render());
        count += 1;
    }
    println!("{} solutions found", count);
}

// The symmetry-reduced enumerator returns one placement per dihedral
// equivalence class; the 92 solutions of the 8-board collapse to 12
// classes.
#[test]
fn mod_test_n_queens_backtrack() {
    let mut count: usize = 0;
    for state in nqueens::queens_symmetry::n_queens_backtrack(8) {
        count += 1;
        println!("{:?}", state.filled);
    }
    assert_eq!(12, count);
}
