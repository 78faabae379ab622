use libsudoku::loc::Loc;
use libsudoku::Board;

#[test]
fn get_str_gives_value_or_square() {
    let b = Board::from_json("[[null,2,3,4],[3,4,1,2],[2,1,4,3],[4,3,2,1]]").unwrap();
    assert_eq!(b.get_str(&Loc::new(1, 1)), "■");
    assert_eq!(b.get_str(&Loc::new(1, 2)), "2");
    let mut big = Board::new(15);
    big.set(&Loc::new(1, 1), Some(200));
    big.set(&Loc::new(1, 2), Some(45));
    assert_eq!(big.get_str(&Loc::new(1, 1)), "200");
    assert_eq!(big.get_str(&Loc::new(1, 2)), "45");
}

#[test]
fn draw_single_cell() {
    let b = Board::from_json("[[1]]").unwrap();
    assert_eq!(b.draw(), "╔═══╗\n║ 1 ║\n╚═══╝\n");
}

#[test]
fn draw_four_by_four() {
    let b = Board::from_json("[[null,2,3,4],[3,4,1,2],[2,1,4,3],[4,3,2,1]]").unwrap();
    let expected = [
        "╔═══════╦═══════╗\n",
        "║ ■ │ 2 ║ 3 │ 4 ║\n",
        "║───┼───║───┼───║\n",
        "║ 3 │ 4 ║ 1 │ 2 ║\n",
        "╠═══════╬═══════╣\n",
        "║ 2 │ 1 ║ 4 │ 3 ║\n",
        "║───┼───║───┼───║\n",
        "║ 4 │ 3 ║ 2 │ 1 ║\n",
        "╚═══════╩═══════╝\n",
    ]
    .concat();
    assert_eq!(b.draw(), expected);
}
