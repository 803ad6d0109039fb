use advent::trees::{bottom_up, day08, left_right, parse_grid, right_left, scenic_score, to_digit_arr, top_down};

#[test]
fn test_left_right() {
    let grid = vec![vec![1, 2, 3], vec![4, 5, 6], vec![7, 8, 9]];
    let expected = vec![vec![true, true, true], vec![true, true, true], vec![true, true, true]];
    assert_eq!(left_right(&grid), expected);

    let grid = vec![vec![3, 2, 1], vec![6, 5, 4], vec![9, 8, 7]];
    let expected = vec![vec![true, false, false], vec![true, false, false], vec![true, false, false]];
    assert_eq!(left_right(&grid), expected);

    let grid = vec![vec![1, 1, 1], vec![1, 1, 1], vec![1, 1, 1]];
    let expected = vec![vec![true, false, false], vec![true, false, false], vec![true, false, false]];
    assert_eq!(left_right(&grid), expected);
}

#[test]
fn test_right_left() {
    let grid = vec![vec![1, 2, 3], vec![4, 5, 6], vec![7, 8, 9]];
    let expected = vec![vec![false, false, true], vec![false, false, true], vec![false, false, true]];
    assert_eq!(right_left(&grid), expected);

    let grid = vec![vec![3, 2, 1], vec![6, 5, 4], vec![9, 8, 7]];
    let expected = vec![vec![true, true, true], vec![true, true, true], vec![true, true, true]];
    assert_eq!(right_left(&grid), expected);

    let grid = vec![vec![1, 1, 1], vec![1, 1, 1], vec![1, 1, 1]];
    let expected = vec![vec![false, false, true], vec![false, false, true], vec![false, false, true]];
    assert_eq!(right_left(&grid), expected);
}

#[test]
fn test_top_down() {
    let grid = vec![vec![1, 2, 3], vec![4, 5, 6], vec![7, 8, 9]];
    let expected = vec![vec![true, true, true], vec![true, true, true], vec![true, true, true]];
    assert_eq!(top_down(&grid), expected);

    let grid = vec![vec![3, 2, 1], vec![6, 5, 4], vec![9, 8, 7]];
    let expected = vec![vec![true, true, true], vec![true, true, true], vec![true, true, true]];
    assert_eq!(top_down(&grid), expected);

    let grid = vec![vec![1, 1, 1], vec![1, 1, 1], vec![1, 1, 1]];
    let expected = vec![vec![true, true, true], vec![false, false, false], vec![false, false, false]];
    assert_eq!(top_down(&grid), expected);

    let grid = vec![vec![3, 1, 1], vec![2, 1, 1], vec![1, 1, 2]];
    let expected = vec![vec![true, true, true], vec![false, false, false], vec![false, false, true]];
    assert_eq!(top_down(&grid), expected);
}

#[test]
fn test_bottom_up() {
    let grid = vec![vec![1, 2, 3], vec![4, 5, 6], vec![7, 8, 9]];
    let expected = vec![vec![false, false, false], vec![false, false, false], vec![true, true, true]];
    assert_eq!(bottom_up(&grid), expected);

    let grid = vec![vec![3, 2, 1], vec![6, 5, 4], vec![9, 8, 7]];
    let expected = vec![vec![false, false, false], vec![false, false, false], vec![true, true, true]];
    assert_eq!(bottom_up(&grid), expected);

    let grid = vec![vec![1, 1, 1], vec![1, 1, 1], vec![1, 1, 1]];
    let expected = vec![vec![false, false, false], vec![false, false, false], vec![true, true, true]];
    assert_eq!(bottom_up(&grid), expected);

    let grid = vec![vec![3, 1, 1], vec![2, 1, 1], vec![1, 1, 2]];
    let expected = vec![vec![true, false, false], vec![true, false, false], vec![true, true, true]];
    assert_eq!(bottom_up(&grid), expected);
}

#[test]
fn test_scenic_score() {
    let grid = vec![
        vec![3, 0, 3, 7, 3],
        vec![2, 5, 5, 1, 2],
        vec![6, 5, 3, 3, 2],
        vec![3, 3, 5, 4, 9],
        vec![3, 5, 3, 9, 0]];
    assert_eq!(scenic_score(1, 2, &grid), 4);
    assert_eq!(scenic_score(3, 2, &grid), 8);
}

#[test]
fn scenic_score_on_the_edge_is_zero() {
    let grid = vec![vec![3, 0, 3], vec![2, 5, 5], vec![6, 5, 3]];
    assert_eq!(scenic_score(0, 1, &grid), 0);
    assert_eq!(scenic_score(1, 1, &grid), 1);
}

#[test]
fn digits_skip_other_characters() {
    assert_eq!(to_digit_arr("3a0 7\r"), vec![3, 0, 7]);
    assert_eq!(parse_grid("12\r\n34\n"), vec![vec![1, 2], vec![3, 4]]);
}

#[test]
fn grid_sample_counts_and_best_score() {
    assert_eq!(day08("30373\n25512\n65332\n33549\n35390\n"), Some((21, 8)));
}

#[test]
fn empty_or_ragged_grid_gives_nothing() {
    assert_eq!(day08(""), None);
    assert_eq!(day08("123\n45\n"), None);
}
