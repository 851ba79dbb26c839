use rustvent2022::day02::{parse, part_one, part_two, Outcome, RPS};
use rustvent2022::day02::RPS::{Paper, Rock, Scissors};

const TEST: &str = "A Y
B X
C Z
";

#[test]
fn day02_test_parse() {
    let input = parse(TEST).unwrap();
    assert_eq!(
        input,
        vec![
            vec![Rock, Paper],
            vec![Paper, Rock],
            vec![Scissors, Scissors]
        ]
    );
}

#[test]
fn day02_test_part_one() {
    let input = parse(TEST).unwrap();
    assert_eq!(part_one(&input), 15);
}

#[test]
fn day02_test_part_two() {
    let input = parse(TEST).unwrap();
    assert_eq!(part_two(&input), 12);
}

#[test]
fn day02_shapes() {
    assert_eq!(RPS::from_char('X'), Ok(RPS::Rock));
    assert_eq!(RPS::from_char('D'), Err(()));
    assert_eq!(RPS::Rock.win(&RPS::Scissors), Outcome::Win);
    assert_eq!(RPS::Rock.win(&RPS::Paper), Outcome::Lose);
    assert_eq!(RPS::Paper.win(&RPS::Paper), Outcome::Tie);
    assert_eq!(RPS::Scissors.winner(), RPS::Rock);
    assert_eq!(RPS::Scissors.loser(), RPS::Paper);
    assert_eq!(Outcome::Win.value() + RPS::Scissors.value(), 9);
}

#[test]
fn day02_parse_rejects_bad_rounds() {
    assert!(parse("A Q\n").is_none());
    assert!(parse("AY\n").is_none());
}
