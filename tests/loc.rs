use libsudoku::loc::Loc;

#[test]
fn test_loc_new() {
    let temp = Loc::new(1, 1);
    assert!(temp.row == 1 && temp.col == 1);
}

#[test]
fn test_loc_from_tuple() {
    let temp = Loc::from((1, 1));
    assert!(temp.row == 1 && temp.col == 1);
}

#[test]
fn test_loc_into_tuple() {
    assert_eq!(<(u8, u8)>::from(Loc::new(1, 1)), (1, 1));
}

#[test]
fn test_loc_sqr() {
    assert_eq!(Loc::new(1, 1).sqr(1), 1);

    let size2 = [
        [1, 1, 2, 2],
        [1, 1, 2, 2],
        [3, 3, 4, 4],
        [3, 3, 4, 4],
    ];
    for row in 1..=4u8 {
        for col in 1..=4u8 {
            assert_eq!(
                Loc::new(row, col).sqr(2),
                size2[(row - 1) as usize][(col - 1) as usize]
            );
        }
    }

    let size3 = [
        [1, 1, 1, 2, 2, 2, 3, 3, 3],
        [1, 1, 1, 2, 2, 2, 3, 3, 3],
        [1, 1, 1, 2, 2, 2, 3, 3, 3],
        [4, 4, 4, 5, 5, 5, 6, 6, 6],
        [4, 4, 4, 5, 5, 5, 6, 6, 6],
        [4, 4, 4, 5, 5, 5, 6, 6, 6],
        [7, 7, 7, 8, 8, 8, 9, 9, 9],
        [7, 7, 7, 8, 8, 8, 9, 9, 9],
        [7, 7, 7, 8, 8, 8, 9, 9, 9],
    ];
    for row in 1..=9u8 {
        for col in 1..=9u8 {
            assert_eq!(
                Loc::new(row, col).sqr(3),
                size3[(row - 1) as usize][(col - 1) as usize]
            );
        }
    }
}

#[test]
fn loc_sqr_size_four_corners() {
    assert_eq!(Loc::new(1, 1).sqr(4), 1);
    assert_eq!(Loc::new(1, 16).sqr(4), 4);
    assert_eq!(Loc::new(16, 1).sqr(4), 13);
    assert_eq!(Loc::new(16, 16).sqr(4), 16);
    assert_eq!(Loc::new(6, 7).sqr(4), 6);
}

#[test]
fn loc_order_is_row_then_column() {
    assert!(Loc::new(1, 9) < Loc::new(2, 1));
    assert!(Loc::new(2, 1) < Loc::new(2, 2));
}
