use rustvent2022::day10::{parse, part_one, part_two, Instruction};
use rustvent2022::day10::Instruction::{Addx, Noop};

const TEST: &str = "addx 15
addx -11
addx 6
addx -3
addx 5
addx -1
addx -8
addx 13
addx 4
noop
addx -1
addx 5
addx -1
addx 5
addx -1
addx 5
addx -1
addx 5
addx -1
addx -35
addx 1
addx 24
addx -19
addx 1
addx 16
addx -11
noop
noop
addx 21
addx -15
noop
noop
addx -3
addx 9
addx 1
addx -3
addx 8
addx 1
addx 5
noop
noop
noop
noop
noop
addx -36
noop
addx 1
addx 7
noop
noop
noop
addx 2
addx 6
noop
noop
noop
noop
noop
addx 1
noop
noop
addx 7
addx 1
noop
addx -13
addx 13
addx 7
noop
addx 1
addx -33
noop
noop
noop
addx 2
noop
noop
noop
addx 8
noop
addx -1
addx 2
addx 1
noop
addx 17
addx -9
addx 1
addx 1
addx -3
addx 11
noop
noop
addx 1
noop
addx 1
noop
noop
addx -13
addx -19
addx 1
addx 3
addx 26
addx -30
addx 12
addx -1
addx 3
addx 1
noop
noop
noop
addx -9
addx 18
addx 1
addx 2
noop
noop
addx 9
noop
noop
noop
addx -1
addx 2
addx -37
addx 1
addx 3
noop
addx 15
addx -21
addx 22
addx -6
addx 1
noop
addx 2
addx 1
noop
addx -10
noop
noop
addx 20
addx 1
addx 2
addx 2
addx -6
addx -11
noop
noop
noop";

#[test]
fn day10_test_parse() {
    let input = parse(TEST).unwrap();

    assert_eq!(input[input.len() - 1], Noop);
}

#[test]
fn day10_test_part_one() {
    let input = parse(TEST).unwrap();

    assert_eq!(part_one(&input), 13140);
}

#[test]
fn day10_test_part_two() {
    let input = parse(TEST).unwrap();
    let s = part_two(&input);

    println!("{}", s);
    assert_eq!(
        s,
        "##..##..##..##..##..##..##..##..##..##..
###...###...###...###...###...###...###.
####....####....####....####....####....
#####.....#####.....#####.....#####.....
######......######......######......####
#######.......#######.......#######.....
"
    );
}

#[test]
fn day10_small_program() {
    let input = parse("noop\naddx 3\naddx -5").unwrap();
    assert_eq!(input, vec![Noop, Addx(3), Addx(-5)]);
    assert_eq!(part_one(&input), 0);
    assert_eq!(part_two(&input), "#####");
    let x: Instruction = Addx(-5);
    assert_eq!(x, input[2]);
}

#[test]
fn day10_parse_rejects_bad_lines() {
    assert!(parse("addx").is_none());
    assert!(parse("addx 5x").is_none());
    assert!(parse("jump 4").is_none());
    assert!(parse("addx 99999999").is_none());
}
