use rustvent2022::day06::{has_duplicate, part};

#[test]
fn test() {
    let test = "bvwbjplbgvbhsrlpgdmjqwftvncz";
    assert_eq!(part(&test, 4), Some(5));
    assert_eq!(part(&test, 14), Some(23));
}

#[test]
fn day06_duplicates() {
    assert!(has_duplicate("abca"));
    assert!(!has_duplicate("abcd"));
    assert!(!has_duplicate(""));
    assert_eq!(part("mjqjpqmgbljsphdztnvjfqwrcgsmlb", 4), Some(7));
    assert_eq!(part("mjqjpqmgbljsphdztnvjfqwrcgsmlb", 14), Some(19));
    assert_eq!(part("aaaaaa", 2), None);
}
