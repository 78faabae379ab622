use libsudoku::checker::ValChecker;

const TOP: u8 = 4;

fn gen_values(top: u8) -> Vec<(u8, u8)> {
    let mut out = Vec::new();
    for x in 1..=top {
        for y in 1..=top {
            out.push((x, y));
        }
    }
    out
}

#[test]
fn checker_test_new() {
    let temp = ValChecker::new(TOP);
    assert_eq!(temp.values, vec![vec![false; TOP as usize]; TOP as usize]);
}

#[test]
fn test_set() {
    let mut temp = ValChecker::new(TOP);
    let values = gen_values(TOP);

    for (ele, val) in values {
        temp.set(ele, val);
    }

    assert_eq!(temp.values, vec![vec![true; TOP as usize]; TOP as usize]);
}

#[test]
fn test_unset() {
    let mut temp = ValChecker::new(TOP);
    let values = gen_values(TOP);

    for (ele, val) in values.clone() {
        temp.set(ele, val);
    }

    for (ele, val) in values {
        temp.unset(ele, val);
    }

    assert_eq!(temp.values, vec![vec![false; TOP as usize]; TOP as usize]);
}

#[test]
fn test_is_solved() {
    let mut temp = ValChecker::new(TOP);
    let values = gen_values(TOP);

    for (ele, val) in values {
        assert_ne!(temp.is_solved(), true);
        temp.set(ele, val);
    }

    assert_eq!(temp.is_solved(), true);
}

#[test]
fn checker_available_values_marks_used_slots() {
    let mut temp = ValChecker::new(TOP);
    temp.set(2, 3);
    assert_eq!(temp.available_values(2), vec![Some(1), Some(2), None, Some(4)]);
    assert_eq!(temp.available_values(1), vec![Some(1), Some(2), Some(3), Some(4)]);
}
