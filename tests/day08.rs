use rustvent2022::day08::{parse, part_one, part_two};

const TEST: &str = r"30373
25512
65332
33549
35390";

#[test]
fn day08_test_parse() {
    let input = parse(TEST).unwrap();

    assert_eq!(input[1][1], 5);
}

#[test]
fn day08_test_part_two() {
    let input = parse(TEST).unwrap();

    assert_eq!(part_two(&input), 8);
}

#[test]
fn day08_test_part_one() {
    let input = parse(TEST).unwrap();

    assert_eq!(part_one(&input), 21);
}

#[test]
fn day08_single_row_and_bad_digit() {
    let input = parse("12321").unwrap();
    assert_eq!(part_one(&input), 5);
    assert_eq!(part_two(&input), 0);
    assert!(parse("12a").is_none());
}
