use vstd::prelude::*;

use crate::text::{char_lines, digits_value, is_number, lines_of, parse_decimal, rows_view, split_first, split_once};

verus! {

/// Largest section number that the parser accepts.
pub const MAX_SECTION: u64 = 0xffff_ffff;

/// The sections from `low` to `high`, both included.
#[derive(Debug, PartialEq, Eq, Clone, Copy, Structural)]
pub struct Interval {
    pub low: u64,
    pub high: u64,
}

impl Interval {
    pub open spec fn spec_contains(self, num: u64) -> bool {
        self.low <= num && num <= self.high
    }

    pub open spec fn spec_includes(self, other: Interval) -> bool {
        self.spec_contains(other.low) && self.spec_contains(other.high)
    }

    pub open spec fn spec_overlaps(self, other: Interval) -> bool {
        self.spec_contains(other.low) || self.spec_contains(other.high) || other.spec_includes(self)
    }

    pub fn new(low: u64, high: u64) -> (r: Interval)
        ensures
            r.low == low,
            r.high == high,
    {
        Interval { low, high }
    }

    pub fn contains(&self, num: &u64) -> (r: bool)
        ensures
            r == self.spec_contains(*num),
    {
        self.low <= *num && *num <= self.high
    }

    /// Whether every section of `other` is in this interval.
    pub fn includes(&self, other: &Interval) -> (r: bool)
        ensures
            r == self.spec_includes(*other),
    {
        self.contains(&other.low) && self.contains(&other.high)
    }

    /// Whether the two intervals share a section.
    pub fn overlaps(&self, other: &Interval) -> (r: bool)
        ensures
            r == self.spec_overlaps(*other),
    {
        self.contains(&other.low) || self.contains(&other.high) || other.includes(self)
    }

    /// Reads `low-high`.
    pub fn from_str(l: &Vec<char>) -> (r: Option<Interval>)
        ensures
            r == spec_interval(l@),
    {
        match split_once(l, '-') {
            None => None,
            Some((a, b)) => match (parse_decimal(&a, MAX_SECTION), parse_decimal(&b, MAX_SECTION)) {
                (Some(x), Some(y)) => Some(Interval { low: x, high: y }),
                _ => None,
            },
        }
    }
}

/// A section number of at most `MAX_SECTION`.
pub open spec fn section(s: Seq<char>) -> bool {
    is_number(s) && digits_value(s) <= MAX_SECTION
}

/// The interval that `s` writes as `low-high`.
pub open spec fn spec_interval(s: Seq<char>) -> Option<Interval> {
    match split_first(s, '-') {
        Some((a, b)) => if section(a) && section(b) {
            Some(Interval { low: digits_value(a) as u64, high: digits_value(b) as u64 })
        } else {
            None
        },
        None => None,
    }
}

/// The two intervals that the line `l` writes, separated by a comma.
pub open spec fn spec_pair(l: Seq<char>) -> Option<(Interval, Interval)> {
    match split_first(l, ',') {
        Some((a, b)) => match (spec_interval(a), spec_interval(b)) {
            (Some(x), Some(y)) => Some((x, y)),
            _ => None,
        },
        None => None,
    }
}

/// One pair of intervals per line; `None` where a line is not a pair.
pub fn parse(input: &str) -> (r: Option<Vec<(Interval, Interval)>>)
    ensures
        match r {
            Some(v) => v.len() == lines_of(input@).len() && forall|i: int|
                0 <= i < v.len() ==> spec_pair(#[trigger] lines_of(input@)[i]) == Some(v@[i]),
            None => exists|i: int| 0 <= i < lines_of(input@).len() && spec_pair(#[trigger] lines_of(input@)[i]) is None,
        },
{
    let lines = char_lines(input);
    let ghost ls = lines_of(input@);
    let mut out: Vec<(Interval, Interval)> = Vec::new();
    let mut i: usize = 0;
    while i < lines.len()
        invariant
            ls == lines_of(input@),
            rows_view(&lines) == ls,
            i <= lines.len(),
            out.len() == i,
            forall|j: int| 0 <= j < i ==> spec_pair(#[trigger] ls[j]) == Some(out@[j]),
        decreases lines.len() - i,
    {
        proof {
            assert(lines@[i as int]@ == ls[i as int]);
        }
        let pair = match split_once(&lines[i], ',') {
            None => None,
            Some((a, b)) => match (Interval::from_str(&a), Interval::from_str(&b)) {
                (Some(x), Some(y)) => Some((x, y)),
                _ => None,
            },
        };
        match pair {
            Some(p) => out.push(p),
            None => {
                return None;
            },
        }
        i += 1;
    }
    Some(out)
}

/// Pairs among the first `n` where one interval includes the other.
pub open spec fn count_nested(v: Seq<(Interval, Interval)>, n: int) -> int
    decreases n,
{
    if n <= 0 {
        0
    } else {
        count_nested(v, n - 1) + if v[n - 1].0.spec_includes(v[n - 1].1) || v[n - 1].1.spec_includes(v[n - 1].0) {
            1int
        } else {
            0int
        }
    }
}

/// Pairs among the first `n` whose intervals overlap.
pub open spec fn count_overlapping(v: Seq<(Interval, Interval)>, n: int) -> int
    decreases n,
{
    if n <= 0 {
        0
    } else {
        count_overlapping(v, n - 1) + if v[n - 1].0.spec_overlaps(v[n - 1].1) {
            1int
        } else {
            0int
        }
    }
}

/// The number of pairs where one interval includes the other.
pub fn part_one(input: &Vec<(Interval, Interval)>) -> (r: usize)
    ensures
        r == count_nested(input@, input.len() as int),
{
    let mut n: usize = 0;
    let mut i: usize = 0;
    while i < input.len()
        invariant
            i <= input.len(),
            n == count_nested(input@, i as int),
            n <= i,
        decreases input.len() - i,
    {
        let (a, b) = input[i];
        if a.includes(&b) || b.includes(&a) {
            n += 1;
        }
        i += 1;
    }
    n
}

/// The number of pairs whose intervals overlap.
pub fn part_two(input: &Vec<(Interval, Interval)>) -> (r: usize)
    ensures
        r == count_overlapping(input@, input.len() as int),
{
    let mut n: usize = 0;
    let mut i: usize = 0;
    while i < input.len()
        invariant
            i <= input.len(),
            n == count_overlapping(input@, i as int),
            n <= i,
        decreases input.len() - i,
    {
        let (a, b) = input[i];
        if a.overlaps(&b) {
            n += 1;
        }
        i += 1;
    }
    n
}

} // verus!
