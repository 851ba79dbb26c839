use rustvent2022::day04::{parse, part_one, part_two, Interval};

const TEST: &str = "2-4,6-8
2-3,4-5
5-7,7-9
2-8,3-7
6-6,4-6
2-6,4-8
";

#[test]
fn day04_test_parse() {
    let input = parse(TEST).unwrap();
    assert_eq!(input[0], (Interval::new(2, 4), Interval::new(6, 8)));
}

#[test]
fn day04_test_part_one() {
    let input = parse(TEST).unwrap();
    assert_eq!(part_one(&input), 2);
}

#[test]
fn day04_test_part_two() {
    let input = parse(TEST).unwrap();
    assert_eq!(part_two(&input), 4);
}

#[test]
fn day04_interval_relations() {
    let a = Interval::new(2, 8);
    let b = Interval::new(3, 7);
    assert!(a.includes(&b));
    assert!(!b.includes(&a));
    assert!(b.overlaps(&a));
    assert!(Interval::new(5, 7).overlaps(&Interval::new(7, 9)));
    assert!(!Interval::new(2, 3).overlaps(&Interval::new(4, 5)));
    assert!(a.contains(&8) && !a.contains(&9));
}

#[test]
fn day04_parse_rejects_bad_pairs() {
    assert!(parse("2-4;6-8").is_none());
    assert!(parse("2-4,6").is_none());
    assert!(parse("2-x,6-8").is_none());
}
