use nonogram::model::{CellState, Constraint, Constraints, Dimensions, Line};
use nonogram::board::Board;

#[test]
fn test_print() {
    let full = CellState::Full;
    let empty = CellState::Empty;
    let unknown = CellState::Unknown;

    println!("{} {} {}", full.to_string(), empty.to_string(), unknown.to_string());
}

#[test]
fn test_and() {
    let full = CellState::Full;
    let empty = CellState::Empty;
    let unknown = CellState::Unknown;

    assert_eq!(full.and(unknown), unknown);
    assert_eq!(empty.and(unknown), unknown);
    assert_eq!(full.and(empty), unknown);
    assert_eq!(full.and(full), full);
    assert_eq!(empty.and(empty), empty);
}

#[test]
fn test_or() {
    let full = CellState::Full;
    let empty = CellState::Empty;
    let unknown = CellState::Unknown;
    let invalid = CellState::Invalid;

    assert_eq!(full.or(unknown), full);
    assert_eq!(full.or(full), full);
    assert_eq!(empty.or(unknown), empty);
    assert_eq!(empty.or(empty), empty);
    assert_eq!(full.or(empty), invalid);
}

#[test]
fn test_filter() {
    let values = vec![1, 2];
    let constraint = Constraint::new(values);

    let ok_line = Line::new(vec![
        CellState::Full,
        CellState::Empty,
        CellState::Full,
        CellState::Full,
    ]);
    let nok_line = Line::new(vec![
        CellState::Full,
        CellState::Full,
        CellState::Empty,
        CellState::Full,
    ]);
    let lines = vec![ok_line.clone(), nok_line.clone()];

    let filtered_lines = constraint.filter(&lines);

    assert_eq!(filtered_lines.len(), 1);
    assert!(filtered_lines.contains(&ok_line));
    assert!(!filtered_lines.contains(&nok_line))
}

#[test]
fn test_to_constraint() {
    let line = Line::new(vec![
        CellState::Full,
        CellState::Empty,
        CellState::Full,
        CellState::Full,
    ]);
    let constraint = Constraint::new(vec![1, 2]);

    assert_eq!(line.to_constraint(), constraint)
}

#[test]
fn test_equivalent() {
    let line = Line::new(vec![
        CellState::Full,
        CellState::Empty,
        CellState::Full,
        CellState::Full,
    ]);
    let equiv_line = Line::new(vec![
        CellState::Full,
        CellState::Empty,
        CellState::Unknown,
        CellState::Unknown,
    ]);
    let nequiv_line = Line::new(vec![
        CellState::Unknown,
        CellState::Full,
        CellState::Unknown,
        CellState::Unknown,
    ]);

    assert!(line.equivalient(&equiv_line));
    assert!(!line.equivalient(&nequiv_line));
}

#[test]
fn model_test_filter() {
    let line = Line::new(vec![
        CellState::Full,
        CellState::Empty,
        CellState::Full,
        CellState::Full,
    ]);
    let equiv_line = Line::new(vec![
        CellState::Full,
        CellState::Empty,
        CellState::Unknown,
        CellState::Unknown,
    ]);
    let nequiv_line = Line::new(vec![
        CellState::Unknown,
        CellState::Full,
        CellState::Unknown,
        CellState::Unknown,
    ]);
    let line_candidates = vec![line.clone(), equiv_line.clone(), nequiv_line.clone()];

    let filtered_lines = line.filter(&line_candidates);

    assert_eq!(filtered_lines.len(), 2);
    assert!(filtered_lines.contains(&line));
    assert!(filtered_lines.contains(&equiv_line));
    assert!(!filtered_lines.contains(&nequiv_line));
}

#[test]
fn model_test_print() {
    let line = Line::new(vec![
        CellState::Full,
        CellState::Empty,
        CellState::Full,
        CellState::Full,
    ]);
    println!("{}", line.to_string())
}

#[test]
fn model_test_and() {
    let a = Line::new(vec![
        CellState::Empty,
        CellState::Empty,
        CellState::Empty,
        CellState::Full,
        CellState::Full,
        CellState::Full,
    ]);
    let b = Line::new(vec![
        CellState::Empty,
        CellState::Full,
        CellState::Unknown,
        CellState::Empty,
        CellState::Full,
        CellState::Unknown,
    ]);
    let a_and_b = Line::new(vec![
        CellState::Empty,
        CellState::Unknown,
        CellState::Unknown,
        CellState::Unknown,
        CellState::Full,
        CellState::Unknown,
    ]);

    let res = a.and(&b);
    assert_eq!(res, a_and_b)
}

#[test]
fn model_test_or() {
    let a = Line::new(vec![
        CellState::Empty,
        CellState::Empty,
        CellState::Empty,
        CellState::Full,
        CellState::Full,
        CellState::Full,
    ]);
    let b = Line::new(vec![
        CellState::Empty,
        CellState::Full,
        CellState::Unknown,
        CellState::Empty,
        CellState::Full,
        CellState::Unknown,
    ]);
    let a_or_b = Line::new(vec![
        CellState::Empty,
        CellState::Invalid,
        CellState::Empty,
        CellState::Invalid,
        CellState::Full,
        CellState::Full,
    ]);

    let res = a.or(&b);
    assert_eq!(res, a_or_b)
}

#[test]
fn test_sum() {
    let a = Line::new(vec![
        CellState::Empty,
        CellState::Empty,
        CellState::Empty,
        CellState::Full,
        CellState::Full,
        CellState::Full,
    ]);
    let b = Line::new(vec![
        CellState::Empty,
        CellState::Full,
        CellState::Unknown,
        CellState::Empty,
        CellState::Full,
        CellState::Unknown,
    ]);
    let a_and_b = Line::new(vec![
        CellState::Empty,
        CellState::Unknown,
        CellState::Unknown,
        CellState::Unknown,
        CellState::Full,
        CellState::Unknown,
    ]);

    let res = Line::sum(&vec![a, b]).unwrap();
    assert_eq!(res, a_and_b)
}

#[test]
fn test_is_solved() {
    let dimensions = Dimensions::new(2, 4);

    let row_constraints = vec![Constraint::new(vec![1, 2]), Constraint::new(vec![1, 2])];
    let col_constraints = vec![
        Constraint::new(vec![2]),
        Constraint::new(vec![]),
        Constraint::new(vec![2]),
        Constraint::new(vec![2]),
    ];
    let constraints = Constraints::new(col_constraints, row_constraints);

    let board = Board::new(constraints, dimensions).unwrap();
    assert!(!board.is_solved());
}
