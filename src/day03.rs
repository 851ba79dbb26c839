use vstd::prelude::*;

use crate::text::{char_lines, has_char, lines_of, rows_view, string_of};

verus! {

/// A rucksack: the items of its two compartments.
pub type Input = Vec<(String, String)>;

/// The elves in groups of three.
pub type InputPartTwo = Vec<Vec<String>>;

pub open spec fn strings_view(v: Seq<String>) -> Seq<Seq<char>> {
    v.map_values(|s: String| s@)
}

/// Each line split into its first and its second half.
pub fn parse(input: &str) -> (r: Input)
    ensures
        r.len() == lines_of(input@).len(),
        forall|i: int|
            0 <= i < r.len() ==> {
                let l = #[trigger] lines_of(input@)[i];
                r@[i].0@ == l.subrange(0, l.len() as int / 2) && r@[i].1@ == l.subrange(l.len() as int / 2, l.len() as int)
            },
{
    let lines = char_lines(input);
    let ghost ls = lines_of(input@);
    let mut out: Input = Vec::new();
    let mut i: usize = 0;
    while i < lines.len()
        invariant
            ls == lines_of(input@),
            rows_view(&lines) == ls,
            i <= lines.len(),
            out.len() == i,
            forall|j: int|
                0 <= j < i ==> {
                    let l = #[trigger] ls[j];
                    out@[j].0@ == l.subrange(0, l.len() as int / 2) && out@[j].1@ == l.subrange(l.len() as int / 2, l.len() as int)
                },
        decreases lines.len() - i,
    {
        let l = &lines[i];
        proof {
            assert(l@ == ls[i as int]);
        }
        let half = l.len() / 2;
        let a = string_of(l, 0, half);
        let b = string_of(l, half, l.len());
        out.push((a, b));
        i += 1;
    }
    out
}

/// The lines in groups of three, the last group holding what is left.
pub fn parse_part_two(input: &str) -> (r: InputPartTwo)
    ensures
        forall|g: int| 0 <= g < r.len() ==> 1 <= (#[trigger] r@[g]).len() <= 3,
        forall|g: int, k: int|
            0 <= g < r.len() && 0 <= k < r@[g].len() ==> (#[trigger] r@[g]@[k])@ == lines_of(input@)[3 * g + k],
        r.len() == (lines_of(input@).len() + 2) / 3,
{
    let lines = char_lines(input);
    let ghost ls = lines_of(input@);
    let mut out: InputPartTwo = Vec::new();
    let mut group: Vec<String> = Vec::new();
    let mut i: usize = 0;
    while i < lines.len()
        invariant
            ls == lines_of(input@),
            rows_view(&lines) == ls,
            i <= lines.len(),
            out.len() == i / 3,
            group.len() == i % 3,
            forall|g: int| 0 <= g < out.len() ==> (#[trigger] out@[g]).len() == 3,
            forall|g: int, k: int| 0 <= g < out.len() && 0 <= k < 3 ==> (#[trigger] out@[g]@[k])@ == ls[3 * g + k],
            forall|k: int| 0 <= k < group.len() ==> (#[trigger] group@[k])@ == ls[3 * out.len() + k],
        decreases lines.len() - i,
    {
        let l = &lines[i];
        proof {
            assert(l@ == ls[i as int]);
        }
        group.push(string_of(l, 0, l.len()));
        if group.len() == 3 {
            out.push(group);
            group = Vec::new();
        }
        i += 1;
    }
    if group.len() > 0 {
        out.push(group);
    }
    out
}

/// The first item of `a` that `b` holds too.
pub open spec fn first_shared(a: Seq<char>, b: Seq<char>) -> Option<char>
    decreases a.len(),
{
    if a.len() == 0 {
        None
    } else if b.contains(a[0]) {
        Some(a[0])
    } else {
        first_shared(a.drop_first(), b)
    }
}

/// Every one of `rest` holds `c`.
pub open spec fn in_all(c: char, rest: Seq<Seq<char>>) -> bool {
    forall|k: int| 0 <= k < rest.len() ==> (#[trigger] rest[k]).contains(c)
}

/// The first item of `a` that every one of `rest` holds.
pub open spec fn first_in_all(a: Seq<char>, rest: Seq<Seq<char>>) -> Option<char>
    decreases a.len(),
{
    if a.len() == 0 {
        None
    } else if in_all(a[0], rest) {
        Some(a[0])
    } else {
        first_in_all(a.drop_first(), rest)
    }
}

proof fn lemma_suffix(a: Seq<char>, i: int)
    requires
        0 <= i < a.len(),
    ensures
        a.subrange(i, a.len() as int).drop_first() == a.subrange(i + 1, a.len() as int),
        a.subrange(i, a.len() as int)[0] == a[i],
{
    assert(a.subrange(i, a.len() as int).drop_first() =~= a.subrange(i + 1, a.len() as int));
}

/// The first item of `v1` that `v2` holds too.
pub fn find_first_same(v1: &String, v2: &String) -> (r: Option<char>)
    ensures
        r == first_shared(v1@, v2@),
{
    let a = v1.as_str();
    let b = v2.as_str();
    let n = a.unicode_len();
    let mut i: usize = 0;
    proof {
        assert(v1@.subrange(0, n as int) =~= v1@);
    }
    while i < n
        invariant
            a@ == v1@,
            b@ == v2@,
            n == v1@.len(),
            i <= n,
            first_shared(v1@, v2@) == first_shared(v1@.subrange(i as int, n as int), v2@),
        decreases n - i,
    {
        let c = a.get_char(i);
        proof {
            lemma_suffix(v1@, i as int);
        }
        if has_char(b, c) {
            return Some(c);
        }
        i += 1;
    }
    None
}

/// Whether every string of `v` from position 1 on holds `c`.
fn held_by_rest(v: &Vec<String>, c: char) -> (r: bool)
    requires
        v.len() >= 1,
    ensures
        r == in_all(c, strings_view(v@).drop_first()),
{
    let ghost rest = strings_view(v@).drop_first();
    let mut k: usize = 1;
    while k < v.len()
        invariant
            rest == strings_view(v@).drop_first(),
            1 <= k <= v.len(),
            forall|j: int| 0 <= j < k - 1 ==> (#[trigger] rest[j]).contains(c),
        decreases v.len() - k,
    {
        proof {
            assert(rest[k - 1] == v@[k as int]@);
        }
        if !has_char(v[k].as_str(), c) {
            return false;
        }
        k += 1;
    }
    true
}

/// The first item of the first string that every other string holds.
pub fn find_contains_all_first(v: &Vec<String>) -> (r: Option<char>)
    requires
        v.len() >= 1,
    ensures
        r == first_in_all(v@[0]@, strings_view(v@).drop_first()),
{
    let ghost rest = strings_view(v@).drop_first();
    let a = v[0].as_str();
    let n = a.unicode_len();
    let mut i: usize = 0;
    proof {
        assert(v@[0]@.subrange(0, n as int) =~= v@[0]@);
    }
    while i < n
        invariant
            v.len() >= 1,
            rest == strings_view(v@).drop_first(),
            a@ == v@[0]@,
            n == a@.len(),
            i <= n,
            first_in_all(a@, rest) == first_in_all(a@.subrange(i as int, n as int), rest),
        decreases n - i,
    {
        let c = a.get_char(i);
        proof {
            lemma_suffix(a@, i as int);
        }
        if held_by_rest(v, c) {
            return Some(c);
        }
        i += 1;
    }
    None
}

pub open spec fn is_letter(c: char) -> bool {
    ('a' <= c && c <= 'z') || ('A' <= c && c <= 'Z')
}

/// `a` to `z` have priorities 1 to 26, `A` to `Z` 27 to 52.
pub open spec fn prio(c: char) -> int {
    if 'a' <= c && c <= 'z' {
        c as u32 - 'a' as u32 + 1
    } else {
        c as u32 - 'A' as u32 + 27
    }
}

pub fn to_prio(c: char) -> (r: u32)
    requires
        is_letter(c),
    ensures
        r == prio(c),
{
    if 'a' <= c && c <= 'z' {
        c as u32 - 'a' as u32 + 1
    } else {
        c as u32 - 'A' as u32 + 27
    }
}

/// Each rucksack has a letter in both compartments.
pub open spec fn shared_letters(v: Seq<(String, String)>) -> bool {
    forall|i: int|
        0 <= i < v.len() ==> first_shared((#[trigger] v[i]).0@, v[i].1@) is Some && is_letter(
            first_shared(v[i].0@, v[i].1@)->Some_0,
        )
}

/// Sum of the priorities of the first `n` shared items.
pub open spec fn sum_shared(v: Seq<(String, String)>, n: int) -> int
    decreases n,
{
    if n <= 0 {
        0
    } else {
        sum_shared(v, n - 1) + prio(first_shared(v[n - 1].0@, v[n - 1].1@)->Some_0)
    }
}

/// The sum of the priorities of the item shared by the two compartments of
/// each rucksack.
pub fn part_one(input: &Input) -> (r: u64)
    requires
        shared_letters(input@),
        52 * input.len() <= u64::MAX,
    ensures
        r == sum_shared(input@, input.len() as int),
{
    let mut sum: u64 = 0;
    let mut i: usize = 0;
    while i < input.len()
        invariant
            shared_letters(input@),
            52 * input.len() <= u64::MAX,
            i <= input.len(),
            sum == sum_shared(input@, i as int),
            sum <= 52 * i,
        decreases input.len() - i,
    {
        let (a, b) = (&input[i].0, &input[i].1);
        let c = match find_first_same(a, b) {
            Some(c) => c,
            None => ' ',
        };
        sum = sum + to_prio(c) as u64;
        i += 1;
    }
    sum
}

/// Each group's first elf has a letter that all of the group hold.
pub open spec fn badges(v: Seq<Vec<String>>) -> bool {
    forall|g: int|
        0 <= g < v.len() ==> (#[trigger] v[g]).len() >= 1 && first_in_all(v[g]@[0]@, strings_view(v[g]@).drop_first())
            is Some && is_letter(first_in_all(v[g]@[0]@, strings_view(v[g]@).drop_first())->Some_0)
}

/// Sum of the priorities of the badges of the first `n` groups.
pub open spec fn sum_badges(v: Seq<Vec<String>>, n: int) -> int
    decreases n,
{
    if n <= 0 {
        0
    } else {
        sum_badges(v, n - 1) + prio(first_in_all(v[n - 1]@[0]@, strings_view(v[n - 1]@).drop_first())->Some_0)
    }
}

/// The sum of the priorities of the item that every elf of a group holds.
pub fn part_two(input: &InputPartTwo) -> (r: u64)
    requires
        badges(input@),
        52 * input.len() <= u64::MAX,
    ensures
        r == sum_badges(input@, input.len() as int),
{
    let mut sum: u64 = 0;
    let mut i: usize = 0;
    while i < input.len()
        invariant
            badges(input@),
            52 * input.len() <= u64::MAX,
            i <= input.len(),
            sum == sum_badges(input@, i as int),
            sum <= 52 * i,
        decreases input.len() - i,
    {
        let c = match find_contains_all_first(&input[i]) {
            Some(c) => c,
            None => ' ',
        };
        sum = sum + to_prio(c) as u64;
        i += 1;
    }
    sum
}

} // verus!
