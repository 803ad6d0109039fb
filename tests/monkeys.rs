use advent::divisibility::lcm_of;
use advent::engine::{OverflowStrategy, Simulation, SimulationError};
use advent::expression::{Operand, Operation, Symbol};
use advent::grammar::{Expected, ParseError};
use advent::metric::business;
use advent::monkeys::{check_definitions, day11, monkey_business, MonkeyError, TURN_LIMIT};
use advent::parser::{
    parse_actions, parse_items, parse_monkey, parse_monkeys, parse_operand, parse_operation,
    parse_symbol, parse_test, Monkey,
};

const SAMPLE: &str = "Monkey 0:
  Starting items: 79, 98
  Operation: new = old * 19
  Test: divisible by 23
    If true: throw to monkey 2
    If false: throw to monkey 3

Monkey 1:
  Starting items: 54, 65, 75, 74
  Operation: new = old + 6
  Test: divisible by 19
    If true: throw to monkey 2
    If false: throw to monkey 0

Monkey 2:
  Starting items: 79, 60, 97
  Operation: new = old * old
  Test: divisible by 13
    If true: throw to monkey 1
    If false: throw to monkey 3

Monkey 3:
  Starting items: 74
  Operation: new = old + 3
  Test: divisible by 17
    If true: throw to monkey 0
    If false: throw to monkey 1
";

#[test]
fn test_parse_items() {
    let input = "  Starting items: 79, 98";
    let expected = vec![79, 98];
    match parse_items(input) {
        Ok((actual, _)) => assert_eq!(expected, actual),
        Err(e) => panic!("{e:?}"),
    }
}

#[test]
fn test_parse_symbol() {
    for (input, expected) in [
        ("+", Symbol::Plus),
        ("-", Symbol::Minus),
        ("*", Symbol::Mul),
        ("/", Symbol::Div),
    ] {
        match parse_symbol(input) {
            Ok((actual, _)) => assert_eq!(expected, actual),
            Err(e) => panic!("{e:?}"),
        }
    }

    let result = parse_symbol("&");
    assert!(result.is_err());
}

#[test]
fn test_parse_operand() {
    assert_eq!(parse_operand("old").unwrap().0, Operand::Old);
    assert_eq!(parse_operand("5").unwrap().0, Operand::Num(5));
    assert!(parse_operand("abc").is_err());
}

#[test]
fn test_parse_test() {
    assert_eq!(parse_test("  Test: divisible by 23").unwrap().0, 23);
}

#[test]
fn test_parse_actions() {
    let input = "    If true: throw to monkey 2\n    If false: throw to monkey 3";
    let expected = (2, 3);
    let actual = parse_actions(input).unwrap().0;
    assert_eq!(expected, actual);
}

#[test]
fn test_operation() {
    let input = "  Operation: new = old * 19";
    let actual = parse_operation(input);
    assert!(actual.is_ok(), "{:?}", actual.err().unwrap());
}

#[test]
fn test_parse_monkey() {
    let input = "Monkey 0:\n  Starting items: 79, 98\n  Operation: new = old * 19\n  Test: divisible by 23\n    If true: throw to monkey 2\n    If false: throw to monkey 3\n";
    let actual = parse_monkey(input);
    assert!(actual.is_ok(), "{:?}", actual.err().unwrap());
}

#[test]
fn transform_multiplies_by_literal() {
    let op = Operation { first: Operand::Old, symbol: Symbol::Mul, second: Operand::Num(19) };
    assert_eq!(op.transform(79), Some(1501));
}

#[test]
fn transform_covers_every_operator() {
    let op = |symbol| Operation { first: Operand::Old, symbol, second: Operand::Num(4) };
    assert_eq!(op(Symbol::Plus).transform(10), Some(14));
    assert_eq!(op(Symbol::Minus).transform(10), Some(6));
    assert_eq!(op(Symbol::Div).transform(10), Some(2));
    assert_eq!(op(Symbol::Minus).transform(3), None);
    let square = Operation { first: Operand::Old, symbol: Symbol::Mul, second: Operand::Old };
    assert_eq!(square.transform(12), Some(144));
    assert_eq!(square.transform(u64::MAX), None);
    let by_zero = Operation { first: Operand::Old, symbol: Symbol::Div, second: Operand::Num(0) };
    assert_eq!(by_zero.transform(5), None);
    let constant = Operation { first: Operand::Num(7), symbol: Symbol::Plus, second: Operand::Num(1) };
    assert_eq!(constant.transform(100), Some(8));
}

#[test]
fn routing_by_divisibility() {
    let text = "Monkey 0:\n  Starting items: 23, 22\n  Operation: new = old + 0\n  Test: divisible by 23\n    If true: throw to monkey 1\n    If false: throw to monkey 2\n\nMonkey 1:\n  Starting items: \n  Operation: new = old + 0\n  Test: divisible by 2\n    If true: throw to monkey 0\n    If false: throw to monkey 0\n\nMonkey 2:\n  Starting items: \n  Operation: new = old + 0\n  Test: divisible by 2\n    If true: throw to monkey 0\n    If false: throw to monkey 0\n";
    let defs = parse_monkeys(text).unwrap();
    let mut sim = Simulation::new(&defs);
    assert_eq!(sim.run(&defs, OverflowStrategy::DivideAndFloor(1), 1, TURN_LIMIT), Ok(()));
    // Worker 1 and worker 2 pass their item back to worker 0 in the same round.
    assert_eq!(sim.activity(), vec![2, 1, 1]);
    assert_eq!(sim.queue(0), vec![23, 22]);
}

#[test]
fn same_round_items_are_seen_by_later_workers_only() {
    let text = "Monkey 0:\n  Starting items: 5\n  Operation: new = old + 1\n  Test: divisible by 1\n    If true: throw to monkey 1\n    If false: throw to monkey 1\n\nMonkey 1:\n  Starting items: \n  Operation: new = old + 1\n  Test: divisible by 1\n    If true: throw to monkey 0\n    If false: throw to monkey 0\n";
    let defs = parse_monkeys(text).unwrap();
    let mut sim = Simulation::new(&defs);
    sim.round(&defs, OverflowStrategy::DivideAndFloor(1), TURN_LIMIT).unwrap();
    assert_eq!(sim.activity(), vec![1, 1]);
    assert_eq!(sim.queue(0), vec![7]);
    assert_eq!(sim.queue(1), Vec::<u64>::new());
}

#[test]
fn sample_twenty_rounds_dividing_by_three() {
    let defs = parse_monkeys(SAMPLE).unwrap();
    let mut sim = Simulation::new(&defs);
    sim.run(&defs, OverflowStrategy::DivideAndFloor(3), 20, TURN_LIMIT).unwrap();
    assert_eq!(sim.activity(), vec![101, 95, 7, 105]);
    assert_eq!(monkey_business(&defs, OverflowStrategy::DivideAndFloor(3), 20), Ok(10605));
}

#[test]
fn sample_both_parts() {
    assert_eq!(day11(SAMPLE), Ok((10605, 2713310158)));
}

#[test]
fn modulo_by_common_multiple_keeps_routing() {
    let defs = parse_monkeys(SAMPLE).unwrap();
    let tests: Vec<u64> = defs.iter().map(|m| m.test).collect();
    let l = lcm_of(&tests).unwrap();
    assert_eq!(l, 23 * 19 * 13 * 17);
    for x in [0u64, 1, 22, 23, 96577, 1_000_003, u64::MAX] {
        for d in &tests {
            assert_eq!((x % l) % d, x % d);
        }
    }
    let mut sim = Simulation::new(&defs);
    sim.run(&defs, OverflowStrategy::ModuloBy(l), 20, TURN_LIMIT).unwrap();
    assert_eq!(sim.activity(), vec![99, 97, 8, 103]);
}

#[test]
fn common_multiple_of_shared_factors() {
    assert_eq!(lcm_of(&vec![4, 6]), Some(12));
    assert_eq!(lcm_of(&vec![7]), Some(7));
    assert_eq!(lcm_of(&vec![u64::MAX, 2]), None);
}

#[test]
fn zero_rounds_keep_the_seeded_state() {
    let defs = parse_monkeys(SAMPLE).unwrap();
    let mut sim = Simulation::new(&defs);
    sim.run(&defs, OverflowStrategy::DivideAndFloor(3), 0, TURN_LIMIT).unwrap();
    assert_eq!(sim.activity(), vec![0, 0, 0, 0]);
    assert_eq!(sim.queue(0), vec![79, 98]);
    assert_eq!(sim.queue(1), vec![54, 65, 75, 74]);
    assert_eq!(sim.queue(2), vec![79, 60, 97]);
    assert_eq!(sim.queue(3), vec![74]);
}

#[test]
fn parser_returns_one_definition_per_block_in_order() {
    let defs = parse_monkeys(SAMPLE).unwrap();
    assert_eq!(defs.len(), 4);
    assert_eq!(defs[0].items, vec![79, 98]);
    assert_eq!(defs[1].operation, Operation { first: Operand::Old, symbol: Symbol::Plus, second: Operand::Num(6) });
    assert_eq!(defs[2].test, 13);
    assert_eq!((defs[3].if_true, defs[3].if_false), (0, 1));
    // The first block alone names workers 2 and 3, which it does not define.
    let one = &SAMPLE[..SAMPLE.find("\n\nMonkey 1").unwrap() + 1];
    assert_eq!(parse_monkeys(one).unwrap_err().expected, Expected::KnownWorker);
}

fn block_range(text: &str, n: usize) -> (usize, usize) {
    let mut start = 0;
    for _ in 0..n {
        start += text[start..].find("\n\n").unwrap() + 2;
    }
    let end = match text[start..].find("\n\n") {
        Some(k) => start + k + 1,
        None => text.len(),
    };
    (start, end)
}

#[test]
fn truncated_field_fails_inside_its_block() {
    let fields = ["  Starting items:", "  Operation:", "  Test:", "    If true:", "    If false:"];
    for block in 0..4 {
        for field in fields {
            let (start, end) = block_range(SAMPLE, block);
            let at = start + SAMPLE[start..end].find(field).unwrap();
            let line_end = at + SAMPLE[at..].find('\n').unwrap() + 1;
            let broken = format!("{}{}", &SAMPLE[..at], &SAMPLE[line_end..]);
            let err = parse_monkeys(&broken).unwrap_err();
            assert!(err.position >= start && err.position <= end - (line_end - at), "{err:?}");
        }
    }
}

#[test]
fn malformed_header_and_tokens_are_reported() {
    assert_eq!(
        parse_monkeys("Monkey A:\n").unwrap_err(),
        ParseError { position: 7, expected: Expected::Number }
    );
    let bad_symbol = SAMPLE.replacen("old * 19", "old % 19", 1);
    assert_eq!(parse_monkeys(&bad_symbol).unwrap_err().expected, Expected::Symbol);
    let bad_operand = SAMPLE.replacen("old * 19", "new * 19", 1);
    assert_eq!(parse_monkeys(&bad_operand).unwrap_err().expected, Expected::Operand);
    let too_big = SAMPLE.replacen("79, 98", "79, 4294967296", 1);
    assert_eq!(parse_monkeys(&too_big).unwrap_err().expected, Expected::Number);
    let two_blank_lines = SAMPLE.replacen("\n\nMonkey 1", "\n\n\nMonkey 1", 1);
    assert!(parse_monkeys(&two_blank_lines).is_err());
}

#[test]
fn invalid_definitions_and_strategy_are_rejected() {
    let text = SAMPLE.replacen("throw to monkey 3", "throw to monkey 4", 1);
    let at = text.find("throw to monkey 4").unwrap() + "throw to monkey ".len();
    let err = ParseError { position: at, expected: Expected::KnownWorker };
    assert_eq!(parse_monkeys(&text).unwrap_err(), err);
    assert_eq!(day11(&text), Err(MonkeyError::Parse(err)));
    let zero = SAMPLE.replacen("divisible by 23", "divisible by 0", 1);
    let at = zero.find("divisible by 0").unwrap() + "divisible by ".len();
    assert_eq!(
        parse_monkeys(&zero).unwrap_err(),
        ParseError { position: at, expected: Expected::PositiveDivisor }
    );
    let mut defs = parse_monkeys(SAMPLE).unwrap();
    assert!(check_definitions(&defs));
    assert_eq!(monkey_business(&defs, OverflowStrategy::ModuloBy(0), 1), Err(MonkeyError::InvalidStrategy));
    defs[0] = Monkey { items: vec![1], operation: defs[0].operation, test: 23, if_true: 2, if_false: 9 };
    assert!(!check_definitions(&defs));
    assert_eq!(monkey_business(&defs, OverflowStrategy::DivideAndFloor(3), 1), Err(MonkeyError::InvalidDefinitions));
}

#[test]
fn items_thrown_to_oneself_are_inspected_in_the_same_turn() {
    let text = "Monkey 0:\n  Starting items: 1\n  Operation: new = old + 1\n  Test: divisible by 3\n    If true: throw to monkey 1\n    If false: throw to monkey 0\n\nMonkey 1:\n  Starting items: \n  Operation: new = old + 0\n  Test: divisible by 1\n    If true: throw to monkey 0\n    If false: throw to monkey 0\n";
    let defs = parse_monkeys(text).unwrap();
    let mut sim = Simulation::new(&defs);
    sim.round(&defs, OverflowStrategy::DivideAndFloor(1), TURN_LIMIT).unwrap();
    // 1 becomes 2 and goes back to worker 0, which inspects it again; 3 goes to
    // worker 1, which returns it to worker 0 after that worker's turn.
    assert_eq!(sim.activity(), vec![2, 1]);
    assert_eq!(sim.queue(0), vec![3]);
    assert_eq!(sim.queue(1), Vec::<u64>::new());
}

#[test]
fn a_turn_that_never_ends_is_stopped() {
    let text = "Monkey 0:\n  Starting items: 5\n  Operation: new = old + 0\n  Test: divisible by 1\n    If true: throw to monkey 0\n    If false: throw to monkey 0\n";
    let defs = parse_monkeys(text).unwrap();
    let mut sim = Simulation::new(&defs);
    assert_eq!(sim.run(&defs, OverflowStrategy::DivideAndFloor(1), 1, 50), Err(SimulationError::EndlessTurn));
    assert_eq!(monkey_business(&defs, OverflowStrategy::DivideAndFloor(1), 1), Err(MonkeyError::EndlessTurn));
    let mut sim = Simulation::new(&defs);
    assert_eq!(sim.run(&defs, OverflowStrategy::DivideAndFloor(1), 0, 50), Ok(()));
}

#[test]
fn overflow_is_reported() {
    let text = "Monkey 0:\n  Starting items: 4000000000\n  Operation: new = old * old\n  Test: divisible by 1\n    If true: throw to monkey 0\n    If false: throw to monkey 0\n";
    let defs = parse_monkeys(text).unwrap();
    let mut sim = Simulation::new(&defs);
    assert_eq!(sim.run(&defs, OverflowStrategy::DivideAndFloor(1), 3, TURN_LIMIT), Err(SimulationError::Overflow));
    assert_eq!(monkey_business(&defs, OverflowStrategy::DivideAndFloor(1), 3), Err(MonkeyError::Overflow));
}

#[test]
fn business_multiplies_the_two_largest() {
    assert_eq!(business(&vec![101, 95, 7, 105]), 10605);
    assert_eq!(business(&vec![5]), 5);
    assert_eq!(business(&vec![]), 1);
    assert_eq!(business(&vec![3, 9, 9]), 81);
    assert_eq!(business(&vec![u64::MAX, u64::MAX]), (u64::MAX as u128) * (u64::MAX as u128));
}
