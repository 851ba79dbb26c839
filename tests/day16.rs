use rustvent2022::day16::{best_pair_score, best_score, parse, part_one, part_two, Cave};

const TEST: &str = "Valve AA has flow rate=0; tunnels lead to valves DD, II, BB
Valve BB has flow rate=13; tunnels lead to valves CC, AA
Valve CC has flow rate=2; tunnels lead to valves DD, BB
Valve DD has flow rate=20; tunnels lead to valves CC, AA, EE
Valve EE has flow rate=3; tunnels lead to valves FF, DD
Valve FF has flow rate=0; tunnels lead to valves EE, GG
Valve GG has flow rate=0; tunnels lead to valves FF, HH
Valve HH has flow rate=22; tunnel leads to valve GG
Valve II has flow rate=0; tunnels lead to valves AA, JJ
Valve JJ has flow rate=21; tunnel leads to valve II
";

fn tunnel_names(cave: &Cave, name: (char, char)) -> Vec<(char, char)> {
    let i = cave.index_of(name).unwrap();
    cave.tunnels[i].iter().map(|&k| cave.names[k]).collect()
}

#[test]
fn day16_test_parse() {
    let input = parse(TEST).unwrap();

    assert_eq!(input.flows[input.index_of(('A', 'A')).unwrap()], 0);
    assert_eq!(tunnel_names(&input, ('I', 'I')), vec![('A', 'A'), ('J', 'J')]);
}

#[test]
fn day16_test_part_two() {
    let input = parse(TEST).unwrap();
    assert_eq!(part_two(&input), 1707);
}

#[test]
fn day16_test_part_one() {
    let input = parse(TEST).unwrap();
    assert_eq!(part_one(&input), 1651);
}

#[test]
fn day16_parse_reads_flow_rates() {
    let input = parse(TEST).unwrap();
    assert_eq!(input.names.len(), 10);
    assert_eq!(input.flows, vec![0, 13, 2, 20, 3, 0, 0, 22, 0, 21]);
    assert_eq!(tunnel_names(&input, ('H', 'H')), vec![('G', 'G')]);
}

#[test]
fn day16_parse_rejects_bad_lines() {
    assert!(parse("Valve AA has flow rate=; tunnels lead to valves BB").is_none());
    assert!(parse("Valve AA has flow rate=3; tunnels lead to valves BB").is_none());
    assert!(parse("Valve Aa has flow rate=3; tunnel leads to valve AA").is_none());
    assert!(parse("Valve AA has flow rate=99999999999999999999; tunnel leads to valve AA").is_none());
    let big = parse("Valve AA has flow rate=18446744073709551615; tunnel leads to valve AA").unwrap();
    assert_eq!(big.flows, vec![u64::MAX]);
    assert!(parse("Valve AA has flow rate=3; tunnel leads to valve AA,BB").is_none());
    assert!(parse("Valve AA has flow rate=3; tunnel leads to valve AA").is_some());
}

#[test]
fn day16_empty_budget_scores_zero() {
    let input = parse(TEST).unwrap();
    assert_eq!(best_score(&input, 0), 0);
    assert_eq!(best_score(&input, 1), 0);
    assert_eq!(best_pair_score(&input, 0), 0);
}

#[test]
fn day16_budget_monotone() {
    let input = parse(TEST).unwrap();
    let mut last = 0;
    for budget in 0..=30 {
        let s = best_score(&input, budget);
        assert!(s >= last);
        last = s;
    }
    // DD is one tunnel away: opening it at minute 2 leaves one minute
    assert_eq!(best_score(&input, 3), 20);
}

#[test]
fn day16_pair_at_least_single() {
    let input = parse(TEST).unwrap();
    for budget in [5u64, 10, 15] {
        assert!(best_pair_score(&input, budget) >= best_score(&input, budget));
    }
}
