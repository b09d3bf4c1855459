use nonogram::bits::{count_bits, full_mask, get_bit, transpose};
use nonogram::board::{consensus, is_compatible, Board, BoardError, Status};
use nonogram::generate::generate;
use nonogram::model::{CellState, Constraint, Constraints, Dimensions, Line};

fn mask_to_line(mask: u32, length: usize) -> Line {
    let mut cells = Vec::new();
    let mut i = 0;
    while i < length {
        cells.push(if get_bit(mask, i) {
            CellState::Full
        } else {
            CellState::Empty
        });
        i += 1;
    }
    Line::new(cells)
}

#[test]
fn test_generate_empty_constraint() {
    let cands = generate(5, &Constraint::new(vec![]));
    assert_eq!(cands.len(), 1);
    assert_eq!(cands[0], 0);
}

#[test]
fn test_generate_exact_fit() {
    let cands = generate(5, &Constraint::new(vec![5]));
    assert_eq!(cands.len(), 1);
    assert_eq!(cands[0], 0b11111);
}

#[test]
fn test_generate_minimal_fit() {
    let cands = generate(3, &Constraint::new(vec![1, 1]));
    assert_eq!(cands.len(), 1);
    assert_eq!(cands[0], 0b101);
}

#[test]
fn test_generate_slack_distribution() {
    let cands = generate(4, &Constraint::new(vec![2]));
    assert_eq!(cands.len(), 3);
    assert!(cands.contains(&0b0011));
    assert!(cands.contains(&0b0110));
    assert!(cands.contains(&0b1100));
}

#[test]
fn test_generate_unsatisfiable() {
    let cands = generate(4, &Constraint::new(vec![3, 2]));
    assert_eq!(cands.len(), 0);
}

#[test]
fn test_generate_round_trip() {
    let constraint = Constraint::new(vec![2, 3]);
    let cands = generate(7, &constraint);
    assert_eq!(cands.len(), 3);
    for &mask in &cands {
        let line = mask_to_line(mask, 7);
        assert_eq!(line.to_constraint(), constraint);
    }
}

#[test]
fn test_transpose_involution() {
    let mut m: Vec<u32> = Vec::new();
    let mut i: u32 = 0;
    while i < 32 {
        m.push(i.wrapping_mul(0x9e3779b9) ^ (i << 13));
        i += 1;
    }
    let t = transpose(&m);
    let tt = transpose(&t);
    assert_eq!(tt, m);
}

#[test]
fn test_full_mask_and_count() {
    assert_eq!(full_mask(0), 0);
    assert_eq!(full_mask(5), 0b11111);
    assert_eq!(full_mask(32), u32::MAX);
    assert_eq!(count_bits(0b10110, 5), 3);
    assert_eq!(count_bits(0b10110, 2), 1);
}

#[test]
fn test_is_compatible() {
    // known cells: 0 (filled) and 1 (empty)
    let filled = 0b001;
    let known = 0b011;
    assert!(is_compatible(0b101, filled, known));
    assert!(!is_compatible(0b110, filled, known));
    assert!(!is_compatible(0b011, filled, known));
    // nothing known: everything fits
    assert!(is_compatible(0b111, 0, 0));
}

#[test]
fn test_consensus() {
    let cands = vec![0b011u32, 0b110u32];
    let (forced_full, certain) = consensus(&cands, 3);
    assert_eq!(forced_full, 0b010);
    assert_eq!(certain, 0b010);

    let single = vec![0b101u32];
    let (forced_full, certain) = consensus(&single, 3);
    assert_eq!(forced_full, 0b101);
    assert_eq!(certain, 0b111);
}

fn solvable_board() -> Board {
    // four columns, two rows
    let dimensions = Dimensions::new(2, 4);
    let row_constraints = vec![Constraint::new(vec![1, 2]), Constraint::new(vec![3])];
    let col_constraints = vec![
        Constraint::new(vec![2]),
        Constraint::new(vec![1]),
        Constraint::new(vec![2]),
        Constraint::new(vec![1]),
    ];
    let constraints = Constraints::new(col_constraints, row_constraints);
    Board::new(constraints, dimensions).unwrap()
}

#[test]
fn test_solve_unique() {
    let mut board = solvable_board();
    let result = board.solve();
    assert_eq!(result.status, Status::Solved);
    // row 0 is full-empty-full-full, row 1 is full-full-full-empty
    assert_eq!(result.filled, vec![0b1101, 0b0111]);
    assert_eq!(result.known, vec![0b1111, 0b1111]);
}

#[test]
fn test_solve_contradiction() {
    // row 0 wants both cells full, but column 0 must stay empty
    let dimensions = Dimensions::new(2, 2);
    let row_constraints = vec![Constraint::new(vec![2]), Constraint::new(vec![])];
    let col_constraints = vec![Constraint::new(vec![]), Constraint::new(vec![1])];
    let constraints = Constraints::new(col_constraints, row_constraints);
    let mut board = Board::new(constraints, dimensions).unwrap();
    let result = board.solve();
    assert_eq!(result.status, Status::Contradiction);
}

#[test]
fn test_solve_stuck() {
    // two mirrored solutions: propagation alone cannot decide
    let dimensions = Dimensions::new(2, 2);
    let row_constraints = vec![Constraint::new(vec![1]), Constraint::new(vec![1])];
    let col_constraints = vec![Constraint::new(vec![1]), Constraint::new(vec![1])];
    let constraints = Constraints::new(col_constraints, row_constraints);
    let mut board = Board::new(constraints, dimensions).unwrap();
    let result = board.solve();
    assert_eq!(result.status, Status::Stuck);
    // a stuck board is a fixed point: one more full pass changes nothing
    let filled = board.filled.clone();
    let known = board.known.clone();
    let row_candidate_counts: Vec<usize> = board.row_candidates.iter().map(|c| c.len()).collect();
    board.update_candidates(true);
    board.update_cells(true);
    board.update_candidates(false);
    board.update_cells(false);
    assert_eq!(board.filled, filled);
    assert_eq!(board.known, known);
    let counts_after: Vec<usize> = board.row_candidates.iter().map(|c| c.len()).collect();
    assert_eq!(counts_after, row_candidate_counts);
}

#[test]
fn test_dimension_overflow() {
    let dimensions = Dimensions::new(33, 5);
    let constraints = Constraints::new(vec![], vec![]);
    let board = Board::new(constraints, dimensions);
    assert!(matches!(board, Err(BoardError::DimensionOverflow)));
}

#[test]
fn test_constraint_count_mismatch() {
    let dimensions = Dimensions::new(2, 2);
    let row_constraints = vec![Constraint::new(vec![1])];
    let col_constraints = vec![Constraint::new(vec![1]), Constraint::new(vec![1])];
    let constraints = Constraints::new(col_constraints, row_constraints);
    let board = Board::new(constraints, dimensions);
    assert!(matches!(board, Err(BoardError::ConstraintCountMismatch)));
}

#[test]
fn test_known_only_grows() {
    let mut board = solvable_board();
    let known_before = board.known.clone();
    board.update_candidates(true);
    board.update_cells(true);
    for r in 0..known_before.len() {
        // every previously known bit is still known
        assert_eq!(known_before[r] & board.known[r], known_before[r]);
    }
    let known_mid = board.known.clone();
    board.update_candidates(false);
    board.update_cells(false);
    for r in 0..known_mid.len() {
        assert_eq!(known_mid[r] & board.known[r], known_mid[r]);
    }
}

#[test]
fn test_solved_board_pass_is_idempotent() {
    let mut board = solvable_board();
    let result = board.solve();
    assert_eq!(result.status, Status::Solved);
    let filled = board.filled.clone();
    let known = board.known.clone();
    board.update_candidates(true);
    board.update_cells(true);
    board.update_candidates(false);
    board.update_cells(false);
    assert_eq!(board.filled, filled);
    assert_eq!(board.known, known);
}

#[test]
fn test_to_line() {
    let mut board = solvable_board();
    let result = board.solve();
    assert_eq!(result.status, Status::Solved);
    let row = board.to_line(0, true);
    assert_eq!(
        row,
        Line::new(vec![
            CellState::Full,
            CellState::Empty,
            CellState::Full,
            CellState::Full,
        ])
    );
    let col = board.to_line(0, false);
    assert_eq!(col, Line::new(vec![CellState::Full, CellState::Full]));
}

#[test]
fn test_board_to_string() {
    let mut board = solvable_board();
    let fresh = board.to_string();
    assert_eq!(fresh, "----\n----\n\n");
    board.solve();
    assert_eq!(board.to_string(), "█░██\n███░\n\n");
}

#[test]
fn test_num_unknown() {
    let mut board = solvable_board();
    assert_eq!(board.num_unknown(), 8);
    let result = board.solve();
    assert_eq!(result.status, Status::Solved);
    assert_eq!(board.num_unknown(), 0);
    assert!(board.is_solved());
}

#[test]
fn test_solve_five_by_five() {
    // the classic demo puzzle: columns 1,2 / 4 / 2,1 / 1,1 / 1 and
    // rows (empty) / 5 / 2 / 2,1 / 3
    let dimensions = Dimensions::new(5, 5);
    let row_constraints = vec![
        Constraint::new(vec![]),
        Constraint::new(vec![5]),
        Constraint::new(vec![2]),
        Constraint::new(vec![2, 1]),
        Constraint::new(vec![3]),
    ];
    let col_constraints = vec![
        Constraint::new(vec![1, 2]),
        Constraint::new(vec![4]),
        Constraint::new(vec![2, 1]),
        Constraint::new(vec![1, 1]),
        Constraint::new(vec![1]),
    ];
    let constraints = Constraints::new(col_constraints, row_constraints);
    let mut board = Board::new(constraints, dimensions).unwrap();
    let result = board.solve();
    assert_eq!(result.status, Status::Solved);
    // every row satisfies its constraint
    for r in 0..5 {
        let line = board.to_line(r, true);
        assert_eq!(line.to_constraint(), board.row_constraints[r].clone());
    }
    for c in 0..5 {
        let line = board.to_line(c, false);
        assert_eq!(line.to_constraint(), board.col_constraints[c].clone());
    }
}

#[test]
fn test_generate_initial_candidates() {
    let cands = Line::generate_initial_candidates(3, &Constraint::new(vec![1, 1]));
    assert_eq!(cands.len(), 1);
    assert_eq!(
        cands[0],
        Line::new(vec![CellState::Full, CellState::Empty, CellState::Full])
    );
    let empty = Line::generate_initial_candidates(5, &Constraint::new(vec![]));
    assert_eq!(empty.len(), 1);
    assert_eq!(empty[0], Line::empty(5));
}

#[test]
fn test_solve_inconsistent_fill() {
    // one row of two cells: both columns force their cell full, but the row
    // allows only a single full cell — the filled grid must not be reported
    // as solved
    let dimensions = Dimensions::new(1, 2);
    let row_constraints = vec![Constraint::new(vec![1])];
    let col_constraints = vec![Constraint::new(vec![1]), Constraint::new(vec![1])];
    let constraints = Constraints::new(col_constraints, row_constraints);
    let mut board = Board::new(constraints, dimensions).unwrap();
    let result = board.solve();
    assert_eq!(result.status, Status::Contradiction);
}

#[test]
fn test_candidates_kept_honestly() {
    // a candidate is only ever dropped for a conflict with the knowledge the
    // board ends up with
    let mut board = solvable_board();
    let initial_rows: Vec<Vec<u32>> = board
        .row_constraints
        .iter()
        .map(|c| generate(4, c))
        .collect();
    board.solve();
    for i in 0..2 {
        for &m in &initial_rows[i] {
            if is_compatible(m, board.filled[i], board.known[i]) {
                assert!(board.row_candidates[i].contains(&m));
            }
        }
    }
}

#[test]
fn test_solve_deterministic() {
    // equal inputs give bit-for-bit equal outcomes
    let mut b1 = solvable_board();
    let mut b2 = solvable_board();
    let r1 = b1.solve();
    let r2 = b2.solve();
    assert_eq!(r1.status, r2.status);
    assert_eq!(r1.filled, r2.filled);
    assert_eq!(r1.known, r2.known);
    assert_eq!(b1.filled, b2.filled);
    assert_eq!(b1.known, b2.known);
    assert_eq!(b1.row_candidates, b2.row_candidates);
    assert_eq!(b1.col_candidates, b2.col_candidates);
}
