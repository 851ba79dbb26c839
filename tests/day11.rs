use rustvent2022::day11::{parse, part_one, part_two, Monkey, Operation, Term, Throw};

const TEST: &str = "Monkey 0:
  Starting items: 79, 98
  Operation: new = old * 19
  Test: divisible by 23
    If true: throw to monkey 2
    If false: throw to monkey 3

Monkey 1:
  Starting items: 54, 65, 75, 74
  Operation: new = old + 6
  Test: divisible by 19
    If true: throw to monkey 2
    If false: throw to monkey 0

Monkey 2:
  Starting items: 79, 60, 97
  Operation: new = old * old
  Test: divisible by 13
    If true: throw to monkey 1
    If false: throw to monkey 3

Monkey 3:
  Starting items: 74
  Operation: new = old + 3
  Test: divisible by 17
    If true: throw to monkey 0
    If false: throw to monkey 1";

#[test]
fn day11_test_parse() {
    let input = parse(TEST).unwrap();

    assert_eq!(input[2].items[1], 60);
}

#[test]
fn day11_test_part_one() {
    let input = parse(TEST).unwrap();

    assert_eq!(part_one(input, 20), Some(10605));
}

#[test]
fn day11_test_part_two() {
    let input = parse(TEST).unwrap();

    assert_eq!(part_two(input, 10000), Some(2713310158));
}

#[test]
fn day11_inspect() {
    let mut input = parse(TEST).unwrap();
    assert_eq!(input[0].op, Operation::Mult);
    assert_eq!(input[0].t2, Term::Num(19));
    assert_eq!(input[2].t2, Term::Old);
    match input[0].inspect() {
        Throw::To(w, t) => assert_eq!((w, t), (500, 3)),
        _ => panic!(),
    }
    match input[0].inspect_part_two(96577) {
        Throw::To(w, t) => assert_eq!((w, t), (1862, 3)),
        _ => panic!(),
    }
    assert!(matches!(input[0].inspect(), Throw::Done));
    assert_eq!(input[0].inspected, 2);
}

#[test]
fn day11_overflow_and_bad_blocks() {
    let text = "Monkey 0:\n  Starting items: 2147483648\n  Operation: new = old * old\n  Test: divisible by 2\n    If true: throw to monkey 1\n    If false: throw to monkey 1\n\nMonkey 1:\n  Starting items: 1\n  Operation: new = old * old\n  Test: divisible by 2\n    If true: throw to monkey 0\n    If false: throw to monkey 0";
    let input = parse(text).unwrap();
    assert_eq!(part_one(input, 3), None);
    assert!(parse("Monkey 0:\n  Starting items: 1\n  Operation: new = old - 1\n  Test: divisible by 2\n    If true: throw to monkey 1\n    If false: throw to monkey 1").is_none());
    let _m: Option<Monkey> = None;
}
