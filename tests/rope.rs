use advent::rope::{day09, head_positions, new_tail_pos, parse_line, CommandErrorKind, Direction};

#[test]
fn test_parse_line_success() {
    let command = parse_line("U 5").unwrap();
    assert_eq!(command.direction, Direction::U);
    assert_eq!(command.length, 5);

    let command = parse_line("R 10").unwrap();
    assert_eq!(command.direction, Direction::R);
    assert_eq!(command.length, 10);

    let command = parse_line("L 2").unwrap();
    assert_eq!(command.direction, Direction::L);
    assert_eq!(command.length, 2);

    let command = parse_line("D 7").unwrap();
    assert_eq!(command.direction, Direction::D);
    assert_eq!(command.length, 7);
}

#[test]
fn test_parse_line_malformated_error() {
    let result = parse_line("U");
    assert!(result.is_err());
    assert_eq!(result.unwrap_err().to_string(), "Malformated Command: U");
}

#[test]
fn test_parse_line_cannot_parse_direction_error() {
    let result = parse_line("X 5");
    assert!(result.is_err());
    assert_eq!(result.unwrap_err().to_string(), "Cannot Parse Direction: X");

    let result = parse_line("5 U");
    assert!(result.is_err());
    assert_eq!(result.unwrap_err().to_string(), "Cannot Parse Direction: 5");
}

#[test]
fn test_parse_line_parse_length_error() {
    let result = parse_line("U five");
    assert!(result.is_err());
}

#[test]
fn test_head_positions() {
    let input = "U 2\nR 3\nD 1";
    let expected = vec![(1, 0), (2, 0), (2, 1), (2, 2), (2, 3), (1, 3)];
    assert_eq!(head_positions(input), expected);
}

#[test]
fn test_move() {
    for i in -2..=2 {
        for j in -2..=2 {
            let actual = new_tail_pos(&(0, 0), (i, j));
            let expected = get_movements(&(i, j), &(0, 0));
            assert_eq!(expected, actual);
        }
    }
}

fn get_movements(
    leader_after_move: &(i32, i32),
    follower_before_move: &(i32, i32),
) -> (i32, i32) {
    let abs_delta = (
        ((leader_after_move.0 - follower_before_move.0).abs()),
        ((leader_after_move.1 - follower_before_move.1).abs()),
    );
    let mut movements: (i32, i32) = (
        leader_after_move.0 - follower_before_move.0,
        leader_after_move.1 - follower_before_move.1,
    );
    if abs_delta.0 != 2 && abs_delta.1 != 2 {
        movements = (0, 0)
    }
    if abs_delta.0 == 2 {
        movements.0 /= 2;
    }
    if abs_delta.1 == 2 {
        movements.1 /= 2;
    }

    movements
}

#[test]
fn length_errors_carry_their_text() {
    let e = parse_line("U 99999999999999999999999").unwrap_err();
    assert_eq!(e.kind, CommandErrorKind::BadLength);
    assert_eq!(e.to_string(), "Cannot Parse Length: 99999999999999999999999");
    assert_eq!(parse_line("R +3").unwrap().length, 3);
    assert_eq!(parse_line("UU 3").unwrap_err().kind, CommandErrorKind::UnknownDirection);
}

#[test]
fn rope_samples() {
    assert_eq!(day09("R 4\nU 4\nL 3\nD 1\nR 4\nD 1\nL 5\nR 2\n"), Some((13, 1)));
    assert_eq!(day09("R 5\nU 8\nL 8\nD 3\nR 17\nD 10\nL 25\nU 20\n").map(|r| r.1), Some(36));
}

#[test]
fn rope_rejects_bad_lines() {
    assert_eq!(day09("R 4\nQ 1\n"), None);
    assert_eq!(day09(""), Some((0, 0)));
}
