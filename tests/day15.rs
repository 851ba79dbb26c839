use rustvent2022::day15::{part_one, part_two, Field, Point, Tile};

const TEST: &str = "Sensor at x=2, y=18: closest beacon is at x=-2, y=15
Sensor at x=9, y=16: closest beacon is at x=10, y=16
Sensor at x=13, y=2: closest beacon is at x=15, y=3
Sensor at x=12, y=14: closest beacon is at x=10, y=16
Sensor at x=10, y=20: closest beacon is at x=10, y=16
Sensor at x=14, y=17: closest beacon is at x=10, y=16
Sensor at x=8, y=7: closest beacon is at x=2, y=10
Sensor at x=2, y=0: closest beacon is at x=2, y=10
Sensor at x=0, y=11: closest beacon is at x=2, y=10
Sensor at x=20, y=14: closest beacon is at x=25, y=17
Sensor at x=17, y=20: closest beacon is at x=21, y=22
Sensor at x=16, y=7: closest beacon is at x=15, y=3
Sensor at x=14, y=3: closest beacon is at x=15, y=3
Sensor at x=20, y=1: closest beacon is at x=15, y=3
";

#[test]
fn day15_test_parse() {
    let input = Field::from_str(TEST).unwrap();

    assert_eq!(input.get(10, 8), Some(Tile::NoBeacon));
}

#[test]
fn day15_test_part_one() {
    let input = Field::from_str(TEST).unwrap();
    assert_eq!(part_one(&input, 10), 26);
}

#[test]
fn day15_test_part_two() {
    let input = Field::from_str(TEST).unwrap();
    assert_eq!(part_two(&input, 20), Some(56000011));
}

#[test]
fn day15_tiles_and_jumps() {
    let input = Field::from_str(TEST).unwrap();
    assert_eq!(input.sensors[0], Point { x: 2, y: 18 });
    assert_eq!(input.dists[0], 7);
    assert_eq!(input.get(2, 10), Some(Tile::Beacon));
    assert_eq!(input.get(8, 7), Some(Tile::Sensor));
    assert_eq!(input.get(14, 11), Some(Tile::Empty));
    assert_eq!(input.get(1000, 0), None);
    assert_eq!(input.get_jump(14, 11), Some((Tile::Empty, 0)));
    let (t, j) = input.get_jump(14, 0).unwrap();
    assert!(t != Tile::Empty && j >= 1);
    assert!(Field::from_str("Sensor at x=2, y=18: closest beacon at x=-2, y=15").is_none());
    assert!(Field::from_str("Sensor at x=2, y=18: closest beacon is at x=-2, y=1a").is_none());
}
