use vstd::prelude::*;

use crate::text::{char_lines, digits_value, groups_of, is_number, lemma_groups_nonempty, lines_of, parse_decimal, rows_view};

verus! {

/// Largest amount of calories that one item may carry.
pub const MAX_ITEM: u64 = 0xffff_ffff;

/// `v` holds, group by group, the numbers that the groups `g` write.
pub open spec fn read_groups(g: Seq<Seq<Seq<char>>>, v: Seq<Seq<u64>>) -> bool {
    &&& v.len() == g.len()
    &&& forall|i: int| 0 <= i < g.len() ==> (#[trigger] v[i]).len() == g[i].len()
    &&& forall|i: int, j: int| 0 <= i < g.len() && 0 <= j < g[i].len() ==> #[trigger] v[i][j] == digits_value(g[i][j])
}

pub open spec fn vecs_view(v: &Vec<Vec<u64>>) -> Seq<Seq<u64>> {
    v@.map_values(|r: Vec<u64>| r@)
}

/// Every non-empty line writes a number of at most `MAX_ITEM`.
pub open spec fn numbers_ok(ls: Seq<Seq<char>>) -> bool {
    forall|i: int| 0 <= i < ls.len() && (#[trigger] ls[i]).len() > 0 ==> is_number(ls[i]) && digits_value(ls[i]) <= MAX_ITEM
}

/// The calories of each elf: groups of numbers separated by empty lines.
pub fn parse(input: &str) -> (r: Option<Vec<Vec<u64>>>)
    ensures
        match r {
            Some(v) => numbers_ok(lines_of(input@)) && read_groups(groups_of(lines_of(input@)), vecs_view(&v)),
            None => !numbers_ok(lines_of(input@)),
        },
{
    let lines = char_lines(input);
    let ghost ls = lines_of(input@);
    let mut out: Vec<Vec<u64>> = Vec::new();
    let mut cur: Vec<u64> = Vec::new();
    let mut i: usize = 0;
    while i < lines.len()
        invariant
            ls == lines_of(input@),
            rows_view(&lines) == ls,
            i <= lines.len(),
            numbers_ok(ls.subrange(0, i as int)),
            read_groups(groups_of(ls.subrange(0, i as int)), vecs_view(&out).push(cur@)),
        decreases lines.len() - i,
    {
        let l = &lines[i];
        let ghost pre = ls.subrange(0, i as int);
        let ghost next = ls.subrange(0, i as int + 1);
        let ghost before = vecs_view(&out).push(cur@);
        let ghost gp = groups_of(pre);
        proof {
            assert(l@ == ls[i as int]);
            assert(next.drop_last() =~= pre);
            assert(next.last() == l@);
            lemma_groups_nonempty(pre);
        }
        if l.len() == 0 {
            out.push(cur);
            cur = Vec::new();
            proof {
                let v = vecs_view(&out).push(cur@);
                assert(v =~= before.push(Seq::empty()));
                let g = groups_of(next);
                assert(g == gp.push(Seq::<Seq<char>>::empty()));
                assert forall|a: int| 0 <= a < g.len() implies (#[trigger] v[a]).len() == g[a].len() by {
                    if a < gp.len() {
                        assert(v[a] == before[a]);
                    }
                }
                assert forall|a: int, b: int| 0 <= a < g.len() && 0 <= b < g[a].len() implies #[trigger] v[a][b]
                    == digits_value(g[a][b]) by {
                    assert(v[a] == before[a]);
                }
            }
        } else {
            match parse_decimal(l, MAX_ITEM) {
                Some(x) => {
                    cur.push(x);
                    proof {
                        let v = vecs_view(&out).push(cur@);
                        let last = before.len() - 1;
                        assert(v =~= before.update(last, before.last().push(x)));
                        let g = groups_of(next);
                        assert(g == gp.update(gp.len() - 1, gp.last().push(l@)));
                        assert forall|a: int| 0 <= a < g.len() implies (#[trigger] v[a]).len() == g[a].len() by {
                            if a < last {
                                assert(v[a] == before[a]);
                            }
                        }
                        assert forall|a: int, b: int| 0 <= a < g.len() && 0 <= b < g[a].len() implies #[trigger] v[a][b]
                            == digits_value(g[a][b]) by {
                            if a < last {
                                assert(v[a] == before[a]);
                            } else if b < before[a].len() {
                                assert(v[a][b] == before[a][b]);
                            }
                        }
                    }
                },
                None => {
                    proof {
                        assert(ls[i as int].len() > 0);
                    }
                    return None;
                },
            }
        }
        proof {
            assert forall|a: int| 0 <= a < next.len() && (#[trigger] next[a]).len() > 0 implies is_number(next[a])
                && digits_value(next[a]) <= MAX_ITEM by {
                if a < i {
                    assert(next[a] == pre[a]);
                }
            }
        }
        i += 1;
    }
    let ghost fin = vecs_view(&out).push(cur@);
    out.push(cur);
    proof {
        assert(ls.subrange(0, i as int) =~= ls);
        assert(vecs_view(&out) =~= fin);
    }
    Some(out)
}

/// The sum of `s`.
pub open spec fn sum_of(s: Seq<u64>) -> int
    decreases s.len(),
{
    if s.len() == 0 {
        0
    } else {
        sum_of(s.drop_last()) + s.last()
    }
}

/// Every group sums to a value that fits in `u64`.
pub open spec fn sums_fit(v: Seq<Seq<u64>>) -> bool {
    forall|i: int| 0 <= i < v.len() ==> sum_of(#[trigger] v[i]) <= u64::MAX
}

proof fn lemma_sum_prefix(s: Seq<u64>, k: int)
    requires
        0 <= k <= s.len(),
    ensures
        0 <= sum_of(s.subrange(0, k)) <= sum_of(s),
    decreases s.len(),
{
    if k < s.len() {
        assert(s.subrange(0, k) =~= s.drop_last().subrange(0, k));
        lemma_sum_prefix(s.drop_last(), k);
    } else {
        assert(s.subrange(0, k) =~= s);
        lemma_sum_nonneg(s);
    }
}

proof fn lemma_sum_nonneg(s: Seq<u64>)
    ensures
        sum_of(s) >= 0,
    decreases s.len(),
{
    if s.len() > 0 {
        lemma_sum_nonneg(s.drop_last());
    }
}

fn total(g: &Vec<u64>) -> (r: u64)
    requires
        sum_of(g@) <= u64::MAX,
    ensures
        r == sum_of(g@),
{
    let mut s: u64 = 0;
    let mut i: usize = 0;
    while i < g.len()
        invariant
            sum_of(g@) <= u64::MAX,
            i <= g.len(),
            s == sum_of(g@.subrange(0, i as int)),
        decreases g.len() - i,
    {
        proof {
            assert(g@.subrange(0, i as int + 1).drop_last() =~= g@.subrange(0, i as int));
            lemma_sum_prefix(g@, i as int + 1);
        }
        s = s + g[i];
        i += 1;
    }
    proof {
        assert(g@.subrange(0, i as int) =~= g@);
    }
    s
}

/// The largest group total, 0 where there are no groups.
pub open spec fn max_total(v: Seq<Seq<u64>>) -> int
    decreases v.len(),
{
    if v.len() == 0 {
        0
    } else {
        let m = max_total(v.drop_last());
        let t = sum_of(v.last());
        if t > m {
            t
        } else {
            m
        }
    }
}

/// Calories carried by the elf who carries the most.
pub fn part_one(input: &Vec<Vec<u64>>) -> (r: u64)
    requires
        sums_fit(vecs_view(input)),
    ensures
        r == max_total(vecs_view(input)),
{
    let ghost v = vecs_view(input);
    let mut best: u64 = 0;
    let mut i: usize = 0;
    while i < input.len()
        invariant
            v == vecs_view(input),
            sums_fit(v),
            i <= input.len(),
            best == max_total(v.subrange(0, i as int)),
        decreases input.len() - i,
    {
        proof {
            assert(v[i as int] == input@[i as int]@);
            assert(v.subrange(0, i as int + 1).drop_last() =~= v.subrange(0, i as int));
        }
        let t = total(&input[i]);
        if t > best {
            best = t;
        }
        i += 1;
    }
    proof {
        assert(v.subrange(0, i as int) =~= v);
    }
    best
}

/// `r` is the largest sum of three different groups.
pub open spec fn top_three(v: Seq<Seq<u64>>, r: int) -> bool {
    &&& exists|a: int, b: int, c: int|
        0 <= a < v.len() && 0 <= b < v.len() && 0 <= c < v.len() && a != b && a != c && b != c && r == sum_of(
            #[trigger] v[a],
        ) + sum_of(#[trigger] v[b]) + sum_of(#[trigger] v[c])
    &&& forall|a: int, b: int, c: int|
        0 <= a < v.len() && 0 <= b < v.len() && 0 <= c < v.len() && a != b && a != c && b != c ==> sum_of(
            #[trigger] v[a],
        ) + sum_of(#[trigger] v[b]) + sum_of(#[trigger] v[c]) <= r
}

/// The position of the largest total outside `skip1` and `skip2`.
fn largest_except(t: &Vec<u64>, skip1: usize, skip2: usize) -> (r: usize)
    requires
        t.len() >= 3,
    ensures
        r < t.len(),
        r != skip1,
        r != skip2,
        forall|k: int| 0 <= k < t.len() && k != skip1 && k != skip2 ==> t@[k] <= t@[r as int],
{
    let mut best: usize = 0;
    while best == skip1 || best == skip2
        invariant
            t.len() >= 3,
            best <= 2,
            best >= 1 ==> (skip1 == 0 || skip2 == 0),
            best >= 2 ==> (skip1 == 1 || skip2 == 1),
        decreases 3 - best,
    {
        best += 1;
    }
    let mut i: usize = 0;
    while i < t.len()
        invariant
            t.len() >= 3,
            best < t.len(),
            best != skip1,
            best != skip2,
            i <= t.len(),
            forall|k: int| 0 <= k < i && k != skip1 && k != skip2 ==> t@[k] <= t@[best as int],
        decreases t.len() - i,
    {
        if i != skip1 && i != skip2 && t[i] > t[best] {
            best = i;
        }
        i += 1;
    }
    best
}

/// Calories carried by the three elves who carry the most.
pub fn part_two(input: &Vec<Vec<u64>>) -> (r: u64)
    requires
        input.len() >= 3,
        sums_fit(vecs_view(input)),
        forall|i: int| 0 <= i < input.len() ==> 3 * sum_of(#[trigger] input@[i]@) <= u64::MAX,
    ensures
        top_three(vecs_view(input), r as int),
{
    let ghost v = vecs_view(input);
    let mut totals: Vec<u64> = Vec::new();
    let mut i: usize = 0;
    while i < input.len()
        invariant
            v == vecs_view(input),
            sums_fit(v),
            forall|k: int| 0 <= k < input.len() ==> 3 * sum_of(#[trigger] input@[k]@) <= u64::MAX,
            i <= input.len(),
            totals.len() == i,
            forall|k: int| 0 <= k < i ==> #[trigger] totals@[k] == sum_of(v[k]),
        decreases input.len() - i,
    {
        proof {
            assert(v[i as int] == input@[i as int]@);
        }
        let t = total(&input[i]);
        totals.push(t);
        i += 1;
    }
    let n = totals.len();
    let a = largest_except(&totals, n, n);
    let b = largest_except(&totals, a, n);
    let c = largest_except(&totals, a, b);
    proof {
        assert(v[a as int] == input@[a as int]@);
        assert(totals@[a as int] == sum_of(v[a as int]));
        assert(totals@[b as int] <= totals@[a as int]);
        assert(totals@[c as int] <= totals@[a as int]);
        assert(3 * totals@[a as int] <= u64::MAX);
        assert(sum_of(v[a as int]) + sum_of(v[b as int]) + sum_of(v[c as int]) == totals@[a as int] + totals@[b as int]
            + totals@[c as int]);
        assert forall|x: int, y: int, z: int|
            0 <= x < v.len() && 0 <= y < v.len() && 0 <= z < v.len() && x != y && x != z && y != z implies sum_of(
                #[trigger] v[x],
            ) + sum_of(#[trigger] v[y]) + sum_of(#[trigger] v[z]) <= totals@[a as int] + totals@[b as int]
                + totals@[c as int] by {
            assert(totals@[x] == sum_of(v[x]) && totals@[y] == sum_of(v[y]) && totals@[z] == sum_of(v[z]));
        }
    }
    totals[a] + totals[b] + totals[c]
}

} // verus!
