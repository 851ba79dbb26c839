use rustvent2022::day12::{min_dist, min_dist_multi, parse, part_one, part_two, part_two_backward};

const TEST: &str = "Sabqponm
abcryxxl
accszExk
acctuvwj
abdefghi";

#[test]
fn day12_test_parse() {
    let input = parse(TEST);

    assert_eq!(input[0][1], 'a');
}

#[test]
fn day12_test_part_one() {
    let input = parse(TEST);

    assert_eq!(part_one(&input), Some(31));
}

#[test]
fn day12_test_part_two() {
    let input = parse(TEST);

    assert_eq!(part_two(&input), Some(29));
}

#[test]
fn day12_backward_search_matches_forward() {
    let input = parse(TEST);

    assert_eq!(part_two_backward(&input), Some(29));
    assert_eq!(part_two_backward(&input), part_two(&input));
}

#[test]
fn day12_single_source_is_multi_source_of_one() {
    let input = parse(TEST);
    for y in 0..input.len() {
        for x in 0..input[0].len() {
            assert_eq!(min_dist(&input, x, y), min_dist_multi(&input, &vec![(x, y)]));
        }
    }
    assert_eq!(min_dist(&input, 0, 0), Some(31));
    assert_eq!(min_dist(&input, 5, 2), Some(0));
}

#[test]
fn day12_unreachable_end() {
    let input = parse("Sz\nzE");
    assert_eq!(part_one(&input), None);
    assert_eq!(part_two(&input), None);
    assert_eq!(part_two_backward(&input), None);
}

#[test]
fn day12_multi_source_takes_minimum() {
    let input = parse(TEST);
    assert_eq!(min_dist_multi(&input, &vec![(0, 0), (0, 4)]), Some(29));
    assert_eq!(min_dist_multi(&input, &vec![]), None);
}
