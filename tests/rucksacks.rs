use advent::rucksacks::{common_chars_a, common_chars_b, day03, priority, rucksack_from_string};

const SAMPLE: &str = "vJrwpWtwJgWrhcsFMMfFFhFp
jqHRNqRjqzjGDLGLrsFMfFZSrLrFZsSL
PmmdzqPrVvPwwTWBwg
wMqvLMZHhHMvwLHjbvcjnnSBnvTQFn
ttgJtRGJQctTZtZT
CrZsJsPPZsGzwwsLwLmpwMDw
";

#[test]
fn rucksack_sample_sums() {
    assert_eq!(day03(SAMPLE), Some((157, 70)));
}

#[test]
fn compartments_and_shared_items() {
    let halves = rucksack_from_string("vJrwpWtwJgWrhcsFMMfFFhFp");
    assert_eq!(halves, ("vJrwpWtwJgWr", "hcsFMMfFFhFp"));
    assert_eq!(common_chars_a(halves), vec!['p']);
    assert_eq!(common_chars_a(("abca", "xacc")), vec!['a', 'c']);
}

#[test]
fn badge_shared_by_three() {
    let group = vec![
        "vJrwpWtwJgWrhcsFMMfFFhFp",
        "jqHRNqRjqzjGDLGLrsFMfFZSrLrFZsSL",
        "PmmdzqPrVvPwwTWBwg",
    ];
    assert_eq!(common_chars_b(&group), vec!['r']);
    assert_eq!(common_chars_b(&vec!["aZ", "Za"]), vec!['a', 'Z']);
}

#[test]
fn item_priorities() {
    assert_eq!(priority('a'), 1);
    assert_eq!(priority('p'), 16);
    assert_eq!(priority('A'), 27);
    assert_eq!(priority('L'), 38);
    assert_eq!(priority('Z'), 52);
}

#[test]
fn odd_or_foreign_rucksacks_are_rejected() {
    assert_eq!(day03("abc\n"), None);
    assert_eq!(day03("a1b1\n"), None);
    assert_eq!(day03("éé\n"), None);
}
