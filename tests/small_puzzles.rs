use advent::calories::{day01, to_calories};
use advent::markers::{all_unique, day06, solve_for_len};
use advent::ranges::{day04, fully_contained, overlap, parse_line};
use advent::rock_paper_scissors::{
    correct_play, day02, parse_line_a, parse_line_b, points_for_round, GameEnd, HandShape,
};

#[test]
fn calories_sample() {
    let input = "1000\n2000\n3000\n\n4000\n\n5000\n6000\n\n7000\n8000\n9000\n\n10000";
    assert_eq!(day01(input), Some((24000, 45000)));
}

#[test]
fn calories_fewer_than_three_groups() {
    assert_eq!(day01("5\n\n7\n"), Some((7, 12)));
    assert_eq!(day01(""), Some((0, 0)));
}

#[test]
fn calories_skip_lines_that_are_no_number() {
    assert_eq!(to_calories("10\nx\n+20\n-3\n"), vec![10, 20]);
}

#[test]
fn calories_large_values() {
    assert_eq!(day01("4294967295\n4294967295\n"), Some((8589934590, 8589934590)));
    assert_eq!(day01("4294967296\n\n3\n"), Some((3, 3)));
}

#[test]
fn strategy_guide_sample() {
    assert_eq!(day02("A Y\nB X\nC Z"), (15, 12));
}

#[test]
fn strategy_guide_skips_bad_lines() {
    assert_eq!(day02("A Y\nQ X\nC\n"), (8, 4));
}

#[test]
fn rounds_and_plays() {
    assert_eq!(parse_line_a("A Y"), Some((HandShape::Rock, HandShape::Paper)));
    assert_eq!(parse_line_b("A Y"), Some((HandShape::Rock, GameEnd::Draw)));
    assert_eq!(parse_line_a("A"), None);
    assert_eq!(points_for_round(&(HandShape::Rock, HandShape::Paper)), 8);
    assert_eq!(points_for_round(&(HandShape::Paper, HandShape::Rock)), 1);
    assert_eq!(correct_play((HandShape::Scissors, GameEnd::Win)), (HandShape::Scissors, HandShape::Rock));
    assert_eq!(HandShape::Rock.play(&HandShape::Scissors), GameEnd::Win);
}

#[test]
fn section_ranges_sample() {
    let input = "2-4,6-8\n2-3,4-5\n5-7,7-9\n2-8,3-7\n6-6,4-6\n2-6,4-8";
    assert_eq!(day04(input), (2, 4));
}

#[test]
fn section_ranges_parts() {
    assert_eq!(parse_line("2-8,3-7"), Some((2, 8, 3, 7)));
    assert_eq!(parse_line("2-8;3-7"), None);
    assert_eq!(parse_line("2-x,3-7"), None);
    assert!(fully_contained(&(2, 8, 3, 7)));
    assert!(fully_contained(&(4, 6, 4, 9)));
    assert!(!fully_contained(&(2, 4, 6, 8)));
    assert!(overlap(&(5, 7, 7, 9)));
    assert!(!overlap(&(2, 3, 4, 5)));
}

#[test]
fn markers_sample() {
    assert_eq!(day06("mjqjpqmgbljsphdztnvjfqwrcgsmlb"), (Some(7), Some(19)));
    assert_eq!(solve_for_len("bvwbjplbgvbhsrlpgdmjqwftvncz", 4), 5);
    assert_eq!(solve_for_len("nppdvjthqldpwncqszvftbrmjlhg", 14), 23);
}

#[test]
fn markers_missing() {
    assert_eq!(day06("aaaa"), (None, None));
    assert!(all_unique(b"abc"));
    assert!(!all_unique(b"abca"));
}
