use rustvent2022::day09::{parse, part_one, part_two, Direction, Instruction, Marker};

const TEST: &str = r"R 4
U 4
L 3
D 1
R 4
D 1
L 5
R 2";

#[test]
fn day09_test_parse() {
    let input = parse(TEST).unwrap();

    assert_eq!(
        input[4],
        Instruction {
            dir: Direction::R,
            len: 4
        }
    );
}

#[test]
fn day09_test_part_one() {
    let input = parse(TEST).unwrap();

    assert_eq!(part_one(&input), 13);
}

const TEST_TWO: &str = r"R 5
U 8
L 8
D 3
R 17
D 10
L 25
U 20";

#[test]
fn day09_test_part_two() {
    let input = parse(TEST_TWO).unwrap();

    assert_eq!(part_two(&input), 36);
}

#[test]
fn day09_knots() {
    let mut h = Marker::new();
    let mut t = Marker::new();
    h.move_dir(&Direction::R);
    t.follow(h.x, h.y);
    assert_eq!((t.x, t.y), (0, 0));
    h.move_dir(&Direction::R);
    t.follow(h.x, h.y);
    assert_eq!((t.x, t.y), (1, 0));
    h.move_dir(&Direction::U);
    h.move_dir(&Direction::U);
    t.follow(h.x, h.y);
    assert_eq!((t.x, t.y), (2, 1));
    assert_eq!(t.visited, vec![(0, 0), (1, 0), (2, 1)]);
    assert_eq!(part_one(&parse("R 1").unwrap()), 1);
    assert!(parse("X 3").is_none());
}
