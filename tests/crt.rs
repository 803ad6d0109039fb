use advent::crt::{cycles, day10, parse_command, render_pixel};

#[test]
fn test_render_pixel() {
    assert_eq!('█', render_pixel((1, 1)));
    assert_eq!('█', render_pixel((2, 1)));
    assert_eq!('█', render_pixel((3, 1)));
    assert_eq!(' ', render_pixel((4, 1)));
}

#[test]
fn pixel_before_the_first_cycle_uses_a_negative_remainder() {
    assert_eq!('█', render_pixel((0, 0)));
    assert_eq!(' ', render_pixel((0, 2)));
    assert_eq!('█', render_pixel((41, 0)));
}

#[test]
fn commands_give_their_deltas() {
    assert_eq!(parse_command("noop"), vec![0]);
    assert_eq!(parse_command("addx -5"), vec![0, -5]);
    assert_eq!(parse_command("addx +7"), vec![0, 7]);
}

#[test]
fn cycles_follow_the_register() {
    assert_eq!(cycles("noop\naddx 3\naddx -5\n"), vec![(2, 1), (3, 1), (4, 4), (5, 4), (6, -1)]);
}

#[test]
fn short_program_draws_one_row() {
    assert_eq!(day10("noop\naddx 3\naddx -5\n"), Some((0, "█████".to_string())));
}

#[test]
fn signal_counts_cycle_twenty() {
    let mut program = String::new();
    for _ in 0..18 {
        program.push_str("noop\n");
    }
    program.push_str("addx 4\nnoop\n");
    let (signal, picture) = day10(&program).unwrap();
    assert_eq!(signal, 20 * 1);
    assert_eq!(picture.chars().count(), 21);
}

#[test]
fn forty_pixels_make_a_row() {
    let mut program = String::new();
    for _ in 0..41 {
        program.push_str("noop\n");
    }
    let (_, picture) = day10(&program).unwrap();
    assert_eq!(picture.lines().count(), 2);
    assert_eq!(picture.lines().next().unwrap().chars().count(), 40);
}

#[test]
fn unknown_instruction_is_rejected() {
    assert_eq!(day10("noop\njump 3\n"), None);
    assert_eq!(day10("addx five\n"), None);
}
