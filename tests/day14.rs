use rustvent2022::day14::{part_one, part_two, Field, Tile};

const TEST: &str = "498,4 -> 498,6 -> 496,6
503,4 -> 502,4 -> 502,9 -> 494,9";

#[test]
fn day14_test_parse() {
    let input = Field::from_str(TEST).unwrap();

    assert_eq!(input.get(500, 9), Some(Tile::Wall));
}

#[test]
fn day14_test_part_one() {
    let input = Field::from_str(TEST).unwrap();
    assert_eq!(part_one(input), 24);
}

#[test]
fn day14_test_part_two() {
    let input = Field::from_str(TEST).unwrap();
    assert_eq!(part_two(input), 93);
}

#[test]
fn day14_field_and_sand() {
    let mut f = Field::from_str(TEST).unwrap();
    assert_eq!((f.xmin, f.xmax, f.ymin, f.ymax), (494, 503, 0, 9));
    assert_eq!(f.get(498, 5), Some(Tile::Wall));
    assert_eq!(f.get(499, 5), Some(Tile::Empty));
    assert_eq!(f.get(600, 5), None);
    assert!(f.add_sand());
    assert_eq!(f.get(500, 8), Some(Tile::Sand));
    f.add_floor();
    assert_eq!(f.get(600, 11), Some(Tile::Wall));
    assert_eq!(f.get(600, 10), Some(Tile::Empty));
    f.set_sand(600, 10);
    assert_eq!(f.xmax, 600);
    assert_eq!(f.get(600, 10), Some(Tile::Sand));
    let mut g = Field::from_str(TEST).unwrap();
    g.set_sand(490, 3);
    assert_eq!((g.xmin, g.xmax), (490, 503));
    assert_eq!(g.get(490, 3), Some(Tile::Sand));
    assert_eq!(g.get(491, 3), Some(Tile::Empty));
    assert_eq!(g.get(498, 5), Some(Tile::Wall));
    assert!(Field::from_str("1,2 => 3,4").is_none());
    assert!(Field::from_str("1,x").is_none());
}
