use nqueens::{Column, NQueens};

fn build_checking_tuple((row_idx, col): (usize, &Column)) -> (usize, isize, isize) {
    let Column(c) = *col;
    (c, row_idx as isize + c as isize, row_idx as isize - c as isize)
}

#[test]
fn test_nqueens() {
    let solutions = NQueens::new(8).solve();
    let rendered = solutions.render();
    for render in rendered.iter() {
        println!("{}", render);
    }

    for solution in solutions.data() {
        let checker: Vec<_> = solution
            .data()
            .iter()
            .enumerate()
            .map(build_checking_tuple)
            .collect();
        for (row_idx, col) in solution.data().iter().enumerate() {
            let Column(column) = *col;
            let checker_without_current = {
                let mut cloned = checker.clone();
                cloned.remove(row_idx);
                cloned
            };
            assert!(checker_without_current.iter().all(|&checking_tuple| {
                build_checking_tuple((row_idx, &Column(column))) != checking_tuple
            }));
        }
    }
}
