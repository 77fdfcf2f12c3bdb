use nonorust::cell::{cell_vector_contains_unknown, display_cell_vector, generate_cell_vector, Cell};
use nonorust::line::{Line, LineType};
use nonorust::line_algorithms::{binomial, generate_all_potential_solutions_for_clue};
use nonorust::puzzle::{clue_as_string, Puzzle};
use nonorust::puzzle_factory::{PuzzleConfig, PuzzleError};

fn config(rows: Vec<Vec<u8>>, columns: Vec<Vec<u8>>) -> PuzzleConfig {
    PuzzleConfig {
        title: String::from("Test"),
        by: None,
        license: None,
        rows,
        columns,
    }
}

fn puzzle(rows: Vec<Vec<u8>>, columns: Vec<Vec<u8>>) -> Puzzle {
    config(rows, columns).into_puzzle().expect("valid puzzle")
}

fn runs(line: &[Cell]) -> Vec<u8> {
    let mut out = Vec::new();
    let mut cur: u8 = 0;
    for c in line {
        if *c == Cell::Block {
            cur += 1;
        } else if cur > 0 {
            out.push(cur);
            cur = 0;
        }
    }
    if cur > 0 {
        out.push(cur);
    }
    out
}

fn binom(n: u128, k: u128) -> u128 {
    let mut r: u128 = 1;
    for i in 0..k {
        r = r * (n - i) / (i + 1);
    }
    r
}

fn assert_consistent(p: &Puzzle) {
    for r in 0..p.rows.len() {
        for c in 0..p.cols.len() {
            assert_eq!(p.rows[r].cells[c], p.cols[c].cells[r]);
        }
    }
}

#[test]
fn candidate_count_matches_binomial() {
    let cases: Vec<(Vec<u8>, i8)> = vec![
        (vec![], 4),
        (vec![1], 5),
        (vec![5], 5),
        (vec![2, 1], 5),
        (vec![1, 1], 3),
        (vec![1, 2, 1], 10),
        (vec![3, 3], 7),
    ];
    for (clue, len) in cases {
        let sols = generate_all_potential_solutions_for_clue(clue.clone(), len);
        let sum: u128 = clue.iter().map(|&x| x as u128).sum();
        let expected = binom(len as u128 - sum + 1, clue.len() as u128);
        assert_eq!(sols.len() as u128, expected, "clue {:?} length {}", clue, len);
    }
}

#[test]
fn candidate_count_single_run_formula() {
    let sols = generate_all_potential_solutions_for_clue(vec![2], 6);
    assert_eq!(sols.len(), 5);
    let sols = generate_all_potential_solutions_for_clue(vec![], 6);
    assert_eq!(sols.len(), 1);
    assert_eq!(sols[0], vec![Cell::Space; 6]);
}

#[test]
fn candidates_have_the_clue_runs() {
    let clue = vec![1, 2, 1];
    let sols = generate_all_potential_solutions_for_clue(clue.clone(), 8);
    assert_eq!(sols.len(), 10);
    for s in &sols {
        assert_eq!(s.len(), 8);
        assert_eq!(runs(s), clue);
        assert!(!cell_vector_contains_unknown(s));
    }
}

#[test]
fn candidates_in_order_of_first_offset() {
    let sols = generate_all_potential_solutions_for_clue(vec![1, 1], 4);
    let b = Cell::Block;
    let s = Cell::Space;
    assert_eq!(
        sols,
        vec![vec![b, s, b, s], vec![b, s, s, b], vec![s, b, s, b]]
    );
}

#[test]
fn line_solve_commits_single_candidate() {
    let mut line = Line::new(LineType::Row, 0, vec![Cell::Unknown; 5], vec![5]);
    assert_eq!(line.potential_solutions.len(), 1);
    assert_eq!(line.solve(), (false, true));
    assert_eq!(line.cells, vec![Cell::Block; 5]);
    assert!(line.is_solved());
    assert_eq!(line.solve(), (true, false));
}

#[test]
fn line_solve_infers_overlap() {
    let mut line = Line::new(LineType::Col, 2, vec![Cell::Unknown; 5], vec![4]);
    assert_eq!(line.solve(), (false, true));
    let u = Cell::Unknown;
    let b = Cell::Block;
    assert_eq!(line.cells, vec![u, b, b, b, u]);
    assert_eq!(line.potential_solutions.len(), 2);
    assert_eq!(line.solve(), (false, false));
}

#[test]
fn line_solve_prunes_with_known_cells() {
    let mut line = Line::new(LineType::Row, 0, vec![Cell::Unknown; 3], vec![1]);
    line.set_cell(0, Cell::Space);
    assert_eq!(line.solve(), (false, true));
    assert_eq!(line.potential_solutions.len(), 2);
    assert_eq!(line.get_cell(0), Cell::Space);
}

#[test]
fn line_fully_known_is_solved() {
    let mut line = Line::new(LineType::Row, 0, vec![Cell::Unknown; 2], vec![1]);
    line.set_cell(0, Cell::Block);
    line.set_cell(1, Cell::Space);
    assert_eq!(line.solve(), (true, true));
    assert!(line.is_solved());
}

#[test]
fn known_cells_never_change() {
    let mut line = Line::new(LineType::Row, 0, vec![Cell::Unknown; 6], vec![2, 2]);
    let mut known: Vec<Cell> = line.cells.clone();
    for _ in 0..4 {
        line.solve();
        for i in 0..known.len() {
            if known[i] != Cell::Unknown {
                assert_eq!(line.cells[i], known[i]);
            }
        }
        known = line.cells.clone();
    }
}

#[test]
fn fully_determined_by_single_run() {
    let mut p = puzzle(vec![vec![5]], vec![vec![1], vec![1], vec![1], vec![1], vec![1]]);
    assert_eq!(p.rows[0].potential_solutions.len(), 1);
    let (iterations, solved) = p.solve(100);
    assert!(solved);
    assert_eq!(iterations, 2);
    assert_eq!(p.rows[0].cells, vec![Cell::Block; 5]);
    assert_consistent(&p);
}

#[test]
fn ambiguous_without_cross_axis_help() {
    let mut p = puzzle(vec![vec![1], vec![1]], vec![vec![1], vec![1]]);
    assert_eq!(p.rows[0].potential_solutions.len(), 2);
    let (iterations, solved) = p.solve(100);
    assert!(!solved);
    assert_eq!(iterations, 1);
    for r in 0..2 {
        assert_eq!(p.rows[r].cells, vec![Cell::Unknown; 2]);
    }
}

#[test]
fn budget_exhaustion_is_reported() {
    let mut p = puzzle(vec![vec![5]], vec![vec![1], vec![1], vec![1], vec![1], vec![1]]);
    let (iterations, solved) = p.solve(1);
    assert_eq!(iterations, 1);
    assert!(!solved);
    assert_eq!(p.rows[0].cells, vec![Cell::Block; 5]);
    assert_eq!(p.cols[3].cells, vec![Cell::Block]);
}

#[test]
fn budget_exhaustion_on_chain() {
    let mut p = puzzle(
        vec![vec![3], vec![1], vec![1, 1]],
        vec![vec![1, 1], vec![2], vec![1, 1]],
    );
    let (iterations, solved) = p.solve(1);
    assert_eq!(iterations, 1);
    assert!(!solved);
    assert_consistent(&p);
    let (more, solved) = p.solve(100);
    assert!(solved);
    assert!(more >= 1);
}

#[test]
fn invalid_clue_rejected() {
    let r = config(vec![vec![3, 3]], vec![vec![1]; 5]).into_puzzle();
    assert!(matches!(r, Err(PuzzleError::DoesNotFit(LineType::Row, 0))));
}

#[test]
fn zero_run_rejected() {
    let r = config(vec![vec![1]], vec![vec![1], vec![0]]).into_puzzle();
    assert!(matches!(r, Err(PuzzleError::ZeroRun(LineType::Col, 1))));
}

#[test]
fn oversized_grid_rejected() {
    let r = config(vec![vec![]; 128], vec![vec![]]).into_puzzle();
    assert!(matches!(r, Err(PuzzleError::TooLarge)));
}

#[test]
fn fixed_point_is_stable() {
    let mut p = puzzle(
        vec![vec![2], vec![1], vec![2]],
        vec![vec![1, 1], vec![3], vec![]],
    );
    let (_, solved) = p.solve(100);
    let rows: Vec<Vec<Cell>> = p.rows.iter().map(|l| l.cells.clone()).collect();
    let (iterations, solved_again) = p.solve(100);
    assert_eq!(iterations, 1);
    assert_eq!(solved_again, solved);
    let rows_again: Vec<Vec<Cell>> = p.rows.iter().map(|l| l.cells.clone()).collect();
    assert_eq!(rows, rows_again);
}

#[test]
fn rows_and_columns_agree() {
    let mut p = puzzle(
        vec![vec![1, 1], vec![3], vec![1]],
        vec![vec![2], vec![2], vec![2]],
    );
    for budget in 1..4 {
        p.solve(budget);
        assert_consistent(&p);
    }
}

#[test]
fn construction_sets_metadata() {
    let cfg = PuzzleConfig {
        title: String::from("Heart"),
        by: Some(String::from("Ann")),
        license: None,
        rows: vec![vec![12], vec![1]],
        columns: vec![vec![1]; 12],
    };
    let p = cfg.into_puzzle().expect("valid");
    assert_eq!(p.author, "Ann");
    assert_eq!(p.license, "");
    assert_eq!(p.padding, 2);
    assert_eq!(p.row_count(), 2);
    assert_eq!(p.col_count(), 12);
    assert_eq!(p.max_col_clue_length(), 1);
    assert_eq!(p.rows[0].potential_solutions.len(), 1);
    assert_eq!(p.rows[1].potential_solutions.len(), 12);
    assert_eq!(p.total_potential_solutions_remaining(), 13 + 12 * 2);
}

#[test]
fn get_and_set_line_project() {
    let mut p = puzzle(vec![vec![2], vec![]], vec![vec![1], vec![1]]);
    let mut line = p.get_line(LineType::Row, 0);
    line.set_cell(0, Cell::Block);
    p.set_line(line);
    assert_eq!(p.cols[0].cells[0], Cell::Block);
    assert_eq!(p.cols[1].cells[0], Cell::Unknown);
}

#[test]
fn text_helpers() {
    let line = Line::new(LineType::Col, 11, vec![Cell::Unknown; 3], vec![1]);
    assert_eq!(line.label(), "Col 12");
    assert_eq!(line.length(), 3);
    assert_eq!(clue_as_string(&vec![1, 20, 3]), "1, 20, 3");
    assert_eq!(clue_as_string(&vec![]), "");
    assert_eq!(Cell::Block.display(), "◼ ");
    assert_eq!(
        display_cell_vector(&vec![Cell::Space, Cell::Unknown]),
        "∙ ? "
    );
    assert_eq!(generate_cell_vector(Cell::Space, 3), vec![Cell::Space; 3]);
}

#[test]
fn counted_fillings_match_generated() {
    let cases: Vec<(Vec<u8>, usize)> = vec![(vec![], 7), (vec![3], 7), (vec![1, 1, 1], 9), (vec![2, 3], 12)];
    for (clue, len) in cases {
        let line = Line::new(LineType::Row, 0, vec![Cell::Unknown; len], clue);
        assert_eq!(
            line.calculate_all_potential_solutions(),
            line.potential_solutions.len() as u128
        );
    }
}

#[test]
fn binomial_values() {
    assert_eq!(binomial(5, 2), 10);
    assert_eq!(binomial(3, 5), 0);
    assert_eq!(binomial(0, 0), 1);
    assert_eq!(binomial(40, 20), 137846528820);
    assert_eq!(binomial(127, 63), 11975573020964041433067793888190275875);
}
