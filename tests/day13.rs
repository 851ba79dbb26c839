use rustvent2022::day13::{parse, part_one, part_two, RecList};

const TEST: &str = "[1,1,3,1,1]
[1,1,5,1,1]

[[1],[2,3,4]]
[[1],4]

[9]
[[8,7,6]]

[[4,4],4,4]
[[4,4],4,4,4]

[7,7,7,7]
[7,7,7]

[]
[3]

[[[]]]
[[]]

[1,[2,[3,[4,[5,6,7]]]],8,9]
[1,[2,[3,[4,[5,6,0]]]],8,9]";

#[test]
fn day13_test_parse() {
    let input = parse(TEST).unwrap();

    assert_eq!(input[2].0, RecList::List(vec![RecList::Num(9)]));
    assert_eq!(input[5].0, RecList::List(Vec::new()));
}

#[test]
fn day13_test_part_one() {
    let input = parse(TEST).unwrap();
    assert_eq!(part_one(&input), 13);
}

#[test]
fn day13_test_part_two() {
    let input = parse(TEST).unwrap();
    assert_eq!(part_two(&input), 140);
}

fn packet(s: &str) -> RecList {
    RecList::from_str(&s.chars().collect()).unwrap()
}

#[test]
fn day13_compare() {
    assert_eq!(packet("[1,1,3,1,1]").compare(&packet("[1,1,5,1,1]")), -1);
    assert_eq!(packet("[9]").compare(&packet("[[8,7,6]]")), 1);
    assert_eq!(packet("[[2]]").compare(&packet("[2]")), 0);
    assert_eq!(packet("[]").compare(&packet("[3]")), -1);
    assert_eq!(packet("[[4,4],4,4]").compare(&packet("[[4,4],4,4,4]")), -1);
    assert_eq!(packet("7").compare(&packet("[7,7]")), -1);
    assert_eq!(packet("[[1],[2,3,4]]").partial_cmp(&packet("[[1],4]")), Some(std::cmp::Ordering::Less));
    assert_eq!(packet("[7,7,7,7]").partial_cmp(&packet("[7,7,7]")), Some(std::cmp::Ordering::Greater));
}

#[test]
fn day13_parse_rejects_bad_text() {
    assert!(RecList::from_str(&"[1,2".chars().collect()).is_none());
    assert!(RecList::from_str(&"[1,,2]".chars().collect()).is_none());
    assert!(RecList::from_str(&"[01]".chars().collect()).is_none());
    assert!(parse("[1]\n[2]\n[3]").is_none());
}
