use rustvent2022::day05::{parse, part_one, part_two};

const TEST: &str = "    [D]    \n[N] [C]    \n[Z] [M] [P]\n 1   2   3 \n\nmove 1 from 2 to 1\nmove 3 from 1 to 3\nmove 2 from 2 to 1\nmove 1 from 1 to 2\n";

#[test]
fn day05_test_parse() {
    let input = parse(TEST).unwrap();
    assert_eq!(input.0[0][0], 'Z');
    assert_eq!(input.1[0], (1, 2, 1));
}

#[test]
fn day05_test_part_one() {
    let (mut stacks, instructions) = parse(TEST).unwrap();
    assert_eq!(part_one(&instructions, &mut stacks), Some(String::from("CMZ")));
}

#[test]
fn day05_test_part_two() {
    let (mut stacks, instructions) = parse(TEST).unwrap();
    assert_eq!(part_two(&instructions, &mut stacks), "MCD");
}

#[test]
fn day05_stacks_read_bottom_first() {
    let (stacks, instructions) = parse(TEST).unwrap();
    assert_eq!(stacks, vec![vec!['Z', 'N'], vec!['M', 'C', 'D'], vec!['P']]);
    assert_eq!(instructions.len(), 4);
    assert!(parse("[A]\n 1 \n\nmove x from 1 to 1\n").is_none());
    assert!(parse("[A]\n 1  2 \n\n").is_none());
    assert!(parse("no blank line").is_none());
    let (mut stacks, instructions) = parse("[A]    \n 1   2 \n\nmove 2 from 1 to 2\n").unwrap();
    assert_eq!(part_one(&instructions, &mut stacks), None);
}
