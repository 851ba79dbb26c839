use rustvent2022::day01::{parse, part_one, part_two};

const TEST: &str = "1000
2000
3000

4000

5000
6000

7000
8000
9000

10000
";

#[test]
fn day01_test_parse() {
    let res = parse(TEST).unwrap();
    assert_eq!(res, vec![vec![1000, 2000, 3000], vec![4000], vec![5000, 6000], vec![7000, 8000, 9000], vec![10000]]);
}

#[test]
fn day01_test_part_one() {
    let res = parse(TEST).unwrap();
    assert_eq!(part_one(&res), 24000);
}

#[test]
fn day01_test_part_two() {
    let res = parse(TEST).unwrap();
    assert_eq!(part_two(&res), 45000);
}

#[test]
fn day01_parse_rejects_non_numbers() {
    assert!(parse("1000\nabc\n").is_none());
    assert!(parse("99999999999\n").is_none());
    assert_eq!(parse("").unwrap(), vec![Vec::<u64>::new()]);
}

#[test]
fn day01_equal_totals() {
    let res = parse("5\n\n5\n\n5\n\n1\n").unwrap();
    assert_eq!(part_one(&res), 5);
    assert_eq!(part_two(&res), 15);
}
