use libsudoku::checker::ValChecker;
use libsudoku::constraints::Verifier;
use libsudoku::loc::Loc;

const SIZE: u8 = 2;
const TOP: u8 = 4;

fn table(b: bool) -> ValChecker {
    ValChecker { values: vec![vec![b; TOP as usize]; TOP as usize] }
}

#[test]
fn verifier_test_new() {
    assert_eq!(
        Verifier::new(SIZE),
        Verifier {
            size: SIZE,
            rows: ValChecker::new(TOP),
            cols: ValChecker::new(TOP),
            sqrs: ValChecker::new(TOP),
        }
    )
}

#[test]
fn test_simple_set() {
    let mut temp = Verifier::new(SIZE);

    temp.set(&Loc::new(1, 1), 1);

    assert!(temp.rows.values[0][0]);
    assert!(temp.cols.values[0][0]);
    assert!(temp.sqrs.values[0][0]);
}

#[test]
fn test_simple_unset() {
    let mut temp = Verifier::new(SIZE);

    temp.set(&Loc::new(1, 1), 1);
    temp.unset(&Loc::new(1, 1), 1);

    assert!(!temp.rows.values[0][0]);
    assert!(!temp.cols.values[0][0]);
    assert!(!temp.sqrs.values[0][0]);
}

#[test]
fn test_is_solved_rows() {
    let temp = Verifier { size: SIZE, rows: table(true), cols: table(false), sqrs: table(false) };
    assert!(!temp.is_solved())
}

#[test]
fn test_is_solved_cols() {
    let temp = Verifier { size: SIZE, rows: table(false), cols: table(true), sqrs: table(false) };
    assert!(!temp.is_solved())
}

#[test]
fn test_is_solved_sqrs() {
    let temp = Verifier { size: SIZE, rows: table(false), cols: table(true), sqrs: table(false) };
    assert!(!temp.is_solved())
}

#[test]
fn test_is_solved_rows_cols() {
    let temp = Verifier { size: SIZE, rows: table(true), cols: table(true), sqrs: table(false) };
    assert!(!temp.is_solved())
}

#[test]
fn test_is_solved_rows_sqrs() {
    let temp = Verifier { size: SIZE, rows: table(true), cols: table(false), sqrs: table(true) };
    assert!(!temp.is_solved())
}

#[test]
fn test_is_solved_cols_sqrs() {
    let temp = Verifier { size: SIZE, rows: table(false), cols: table(true), sqrs: table(true) };
    assert!(!temp.is_solved())
}

#[test]
fn test_is_solved_all() {
    let temp = Verifier { size: SIZE, rows: table(true), cols: table(true), sqrs: table(true) };
    assert!(temp.is_solved())
}

#[test]
fn verifier_available_values_intersects_lines() {
    let mut temp = Verifier::new(SIZE);
    temp.set(&Loc::new(1, 3), 1);
    temp.set(&Loc::new(3, 1), 2);
    temp.set(&Loc::new(2, 2), 3);
    assert_eq!(temp.available_values(&Loc::new(1, 1)), vec![4]);
    assert_eq!(temp.available_values(&Loc::new(4, 4)), vec![1, 2, 3, 4]);
    temp.unset(&Loc::new(2, 2), 3);
    assert_eq!(temp.available_values(&Loc::new(1, 1)), vec![3, 4]);
}
