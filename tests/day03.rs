use rustvent2022::day03::{find_contains_all_first, find_first_same, parse, parse_part_two, part_one, part_two, to_prio};

const TEST: &str = "vJrwpWtwJgWrhcsFMMfFFhFp
jqHRNqRjqzjGDLGLrsFMfFZSrLrFZsSL
PmmdzqPrVvPwwTWBwg
wMqvLMZHhHMvwLHjbvcjnnSBnvTQFn
ttgJtRGJQctTZtZT
CrZsJsPPZsGzwwsLwLmpwMDw
";

#[test]
fn day03_test_parse() {
    let input = parse(TEST);
    assert_eq!(
        input[0],
        (String::from("vJrwpWtwJgWr"), String::from("hcsFMMfFFhFp"))
    );
}

#[test]
fn day03_test_part_one() {
    let input = parse(TEST);
    assert_eq!(part_one(&input), 157);
}

#[test]
fn day03_test_part_two() {
    let input = parse_part_two(TEST);
    assert_eq!(part_two(&input), 70);
}

#[test]
fn day03_items() {
    assert_eq!(to_prio('p'), 16);
    assert_eq!(to_prio('L'), 38);
    assert_eq!(find_first_same(&String::from("abc"), &String::from("xcb")), Some('b'));
    assert_eq!(find_first_same(&String::from("abc"), &String::from("xyz")), None);
    let group = vec![String::from("abc"), String::from("cb"), String::from("bc")];
    assert_eq!(find_contains_all_first(&group), Some('b'));
    let groups = parse_part_two("a\nb\nc\nd");
    assert_eq!(groups.len(), 2);
    assert_eq!(groups[1], vec![String::from("d")]);
}
