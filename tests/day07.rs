use rustvent2022::day07::{Directory, DirectoryEntry, TreeError};

const TEST_INPUT: &str = "$ cd /
$ ls
dir a
14848514 b.txt
8504156 c.dat
dir d
$ cd a
$ ls
dir e
29116 f
2557 g
62596 h.lst
$ cd e
$ ls
584 i
$ cd ..
$ cd ..
$ cd d
$ ls
4060174 j
8033020 d.log
5626152 d.ext
7214296 k";

#[test]
fn parse() {
    let dir = Directory::from_str(TEST_INPUT).unwrap();

    assert_eq!(dir[0].entries.len(), 4);
    match dir[0].entries.first().unwrap() {
        DirectoryEntry::File(_) => panic!(),
        DirectoryEntry::Directory(d) => assert_eq!(vec!['a'], dir[*d].name),
    };
}

#[test]
fn day07_test_part_one() {
    let dir = Directory::from_str(TEST_INPUT).unwrap();
    assert_eq!(95437, Directory::part_one(&dir));
}

#[test]
fn day07_test_part_two() {
    let dir = Directory::from_str(TEST_INPUT).unwrap();
    assert_eq!(24933642, Directory::part_two(&dir));
}

#[test]
fn day07_sizes_and_cd() {
    let dir = Directory::from_str(TEST_INPUT).unwrap();
    assert_eq!(Directory::size(&dir, 0), 48381165);
    let a = Directory::cd(&dir, 0, &vec!['a']).unwrap();
    assert_eq!(Directory::size(&dir, a), 94853);
    let e = Directory::cd(&dir, a, &vec!['e']).unwrap();
    assert_eq!(Directory::size(&dir, e), 584);
    assert_eq!(Directory::cd(&dir, 0, &vec!['z']), None);
    assert_eq!(Directory::_part_two(&dir, &24000000), vec![48381165, 24933642]);
}

#[test]
fn day07_errors() {
    assert_eq!(Directory::from_str("$ cd ..").err(), Some(TreeError::NoParent));
    assert_eq!(Directory::from_str("$ cd x").err(), Some(TreeError::NoSuchDir));
    assert_eq!(Directory::from_str("12 a b").err(), Some(TreeError::BadLine));
    assert_eq!(Directory::from_str("x a").err(), Some(TreeError::BadLine));
}
