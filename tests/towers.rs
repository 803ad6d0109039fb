use advent::towers::{day05, parse_instruction, parse_towers_setup, Towers};

const SAMPLE: &str = "    [D]    
[N] [C]    
[Z] [M] [P]
 1   2   3 

move 1 from 2 to 1
move 3 from 1 to 3
move 2 from 2 to 1
move 1 from 1 to 2
";

#[test]
fn crane_sample() {
    assert_eq!(day05(SAMPLE), Some(("CMZ".to_string(), "MCD".to_string())));
}

#[test]
fn drawing_gives_stacks_bottom_first() {
    let drawing = &SAMPLE[..SAMPLE.find("\n\n").unwrap()];
    let towers = parse_towers_setup(drawing);
    assert_eq!(towers.0, vec![vec!['Z', 'N'], vec!['M', 'C', 'D'], vec!['P']]);
    assert_eq!(towers.tops(), "NDP");
}

#[test]
fn moves_one_at_a_time_or_at_once() {
    let mut a = Towers(vec![vec!['A', 'B', 'C'], vec![]]);
    a.perform_move_a((2, 0, 1));
    assert_eq!(a.0, vec![vec!['A'], vec!['C', 'B']]);
    let mut b = Towers(vec![vec!['A', 'B', 'C'], vec![]]);
    b.perform_move_b((2, 0, 1));
    assert_eq!(b.0, vec![vec!['A'], vec!['B', 'C']]);
    let mut same = Towers(vec![vec!['A', 'B', 'C']]);
    same.perform_move_a((2, 0, 0));
    assert_eq!(same.0, vec![vec!['A', 'C', 'B']]);
}

#[test]
fn tops_skip_empty_stacks_and_non_letters() {
    assert_eq!(Towers(vec![vec!['A'], vec![], vec!['1'], vec!['é']]).tops(), "Aé");
}

#[test]
fn instructions_are_found_anywhere_in_a_line() {
    assert_eq!(parse_instruction("move 1 from 2 to 1"), Some((1, 1, 0)));
    assert_eq!(parse_instruction("then move 13 from 1 to 3 now"), Some((13, 0, 2)));
    assert_eq!(parse_instruction("move x from 1 to 3"), None);
    assert_eq!(parse_instruction("move 99999999999999999999999 from 1 to 3"), None);
}

#[test]
fn impossible_moves_and_bad_input_give_nothing() {
    assert_eq!(day05("[A]\n 1 \n\nmove 2 from 1 to 1\n"), None);
    assert_eq!(day05("[A]\n 1 \n\nmove 1 from 0 to 1\n"), None);
    assert_eq!(day05("[A]\n 1 \n"), None);
    assert_eq!(day05("[A]\n 1 \n\nmove 1 from 1 to 1\nrest\n"), Some(("A".to_string(), "A".to_string())));
}
