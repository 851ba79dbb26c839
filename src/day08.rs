use vstd::prelude::*;

use crate::text::{char_lines, lines_of, rows_view};

verus! {

/// Largest number of rows and of columns that the forest may have.
pub const MAX_SIDE: usize = 32768;

pub open spec fn grid_view(g: &Vec<Vec<u8>>) -> Seq<Seq<u8>> {
    g@.map_values(|r: Vec<u8>| r@)
}

/// A rectangular forest with at least one tree and at most `MAX_SIDE` rows
/// and columns.
pub open spec fn is_forest(g: Seq<Seq<u8>>) -> bool {
    &&& 0 < g.len() <= MAX_SIDE
    &&& 0 < g[0].len() <= MAX_SIDE
    &&& forall|r: int| 0 <= r < g.len() ==> #[trigger] g[r].len() == g[0].len()
}

/// The heights met when looking from tree `(x, y)` to the left (`dir` 0),
/// right (1), up (2) or down (3), nearest first.
pub open spec fn ray(g: Seq<Seq<u8>>, x: int, y: int, dir: int) -> Seq<u8> {
    if dir == 0 {
        Seq::new(x as nat, |i: int| g[y][x - 1 - i])
    } else if dir == 1 {
        Seq::new((g[y].len() - x - 1) as nat, |i: int| g[y][x + 1 + i])
    } else if dir == 2 {
        Seq::new(y as nat, |i: int| g[y - 1 - i][x])
    } else {
        Seq::new((g.len() - y - 1) as nat, |i: int| g[y + 1 + i][x])
    }
}

/// Every tree of `s` is lower than `h`.
pub open spec fn clear(h: u8, s: Seq<u8>) -> bool {
    forall|i: int| 0 <= i < s.len() ==> s[i] < h
}

/// Trees seen from a tree of height `h` along `s`: up to and including the
/// first one at least as high.
pub open spec fn view(h: u8, s: Seq<u8>) -> nat
    decreases s.len(),
{
    if s.len() == 0 {
        0
    } else if s[0] >= h {
        1
    } else {
        1 + view(h, s.drop_first())
    }
}

/// The tree `(x, y)` can be seen from outside the forest.
pub open spec fn visible(g: Seq<Seq<u8>>, x: int, y: int) -> bool {
    exists|dir: int| 0 <= dir < 4 && clear(g[y][x], #[trigger] ray(g, x, y, dir))
}

pub open spec fn scenic(g: Seq<Seq<u8>>, x: int, y: int) -> int {
    let h = g[y][x];
    (view(h, ray(g, x, y, 0)) * view(h, ray(g, x, y, 1)) * view(h, ray(g, x, y, 2)) * view(h, ray(g, x, y, 3))) as int
}

/// Visible trees among the first `n` of row `y`.
pub open spec fn count_row(g: Seq<Seq<u8>>, y: int, n: int) -> int
    decreases n,
{
    if n <= 0 {
        0
    } else {
        count_row(g, y, n - 1) + if visible(g, n - 1, y) { 1int } else { 0int }
    }
}

/// Visible trees among the first `n` rows.
pub open spec fn count_rows(g: Seq<Seq<u8>>, n: int) -> int
    decreases n,
{
    if n <= 0 {
        0
    } else {
        count_rows(g, n - 1) + count_row(g, n - 1, g[0].len() as int)
    }
}

/// The best scenic score among the first `n` trees of row `y`.
pub open spec fn best_row(g: Seq<Seq<u8>>, y: int, n: int) -> int
    decreases n,
{
    if n <= 0 {
        0
    } else {
        let m = best_row(g, y, n - 1);
        let s = scenic(g, n - 1, y);
        if s > m {
            s
        } else {
            m
        }
    }
}

/// The best scenic score among the first `n` rows.
pub open spec fn best_rows(g: Seq<Seq<u8>>, n: int) -> int
    decreases n,
{
    if n <= 0 {
        0
    } else {
        let m = best_rows(g, n - 1);
        let s = best_row(g, n - 1, g[0].len() as int);
        if s > m {
            s
        } else {
            m
        }
    }
}

/// The forest: one row per line, one digit per tree.
pub fn parse(input: &str) -> (r: Option<Vec<Vec<u8>>>)
    ensures
        match r {
            Some(g) => grid_view(&g).len() == lines_of(input@).len() && forall|y: int|
                0 <= y < g.len() ==> (#[trigger] g@[y])@.len() == lines_of(input@)[y].len() && forall|x: int|
                    0 <= x < g@[y].len() ==> '0' <= lines_of(input@)[y][x] <= '9' && g@[y]@[x] as u32
                        == #[trigger] lines_of(input@)[y][x] as u32 - '0' as u32,
            None => exists|y: int, x: int|
                0 <= y < lines_of(input@).len() && 0 <= x < lines_of(input@)[y].len() && !('0'
                    <= #[trigger] lines_of(input@)[y][x] <= '9'),
        },
{
    let lines = char_lines(input);
    let ghost ls = lines_of(input@);
    let mut out: Vec<Vec<u8>> = Vec::new();
    let mut y: usize = 0;
    while y < lines.len()
        invariant
            ls == lines_of(input@),
            rows_view(&lines) == ls,
            y <= lines.len(),
            out.len() == y,
            forall|a: int|
                0 <= a < y ==> (#[trigger] out@[a])@.len() == ls[a].len() && forall|x: int|
                    0 <= x < out@[a].len() ==> '0' <= ls[a][x] <= '9' && out@[a]@[x] as u32 == #[trigger] ls[a][x] as u32
                        - '0' as u32,
        decreases lines.len() - y,
    {
        let l = &lines[y];
        proof {
            assert(l@ == ls[y as int]);
        }
        let mut row: Vec<u8> = Vec::new();
        let mut x: usize = 0;
        while x < l.len()
            invariant
                ls == lines_of(input@),
                y < ls.len(),
                l@ == ls[y as int],
                x <= l.len(),
                row.len() == x,
                forall|b: int| 0 <= b < x ==> '0' <= l@[b] <= '9' && row@[b] as u32 == #[trigger] l@[b] as u32 - '0' as u32,
            decreases l.len() - x,
        {
            let c = l[x];
            if !('0' <= c && c <= '9') {
                proof {
                    assert(ls[y as int][x as int] == c);
                }
                return None;
            }
            row.push((c as u32 - '0' as u32) as u8);
            x += 1;
        }
        out.push(row);
        y += 1;
    }
    Some(out)
}

/// The heights met from `(x, y)` in direction `dir`, nearest first.
fn ray_of(g: &Vec<Vec<u8>>, x: usize, y: usize, dir: u8) -> (r: Vec<u8>)
    requires
        is_forest(grid_view(g)),
        y < g.len(),
        x < g[0].len(),
        dir < 4,
    ensures
        r@ == ray(grid_view(g), x as int, y as int, dir as int),
{
    let ghost v = grid_view(g);
    let w = g[0].len();
    let n = if dir == 0 {
        x
    } else if dir == 1 {
        w - x - 1
    } else if dir == 2 {
        y
    } else {
        g.len() - y - 1
    };
    let mut r: Vec<u8> = Vec::new();
    let mut i: usize = 0;
    proof {
        assert(v[y as int].len() == w);
    }
    while i < n
        invariant
            v == grid_view(g),
            is_forest(v),
            y < g.len(),
            x < w,
            w == g[0].len(),
            dir < 4,
            n == ray(v, x as int, y as int, dir as int).len(),
            i <= n,
            r@ == ray(v, x as int, y as int, dir as int).subrange(0, i as int),
        decreases n - i,
    {
        let h = if dir == 0 {
            g[y][x - 1 - i]
        } else if dir == 1 {
            proof {
                assert(g@[y as int]@ == v[y as int]);
            }
            g[y][x + 1 + i]
        } else if dir == 2 {
            proof {
                assert(v[y - 1 - i].len() == w);
            }
            g[y - 1 - i][x]
        } else {
            proof {
                assert(v[y + 1 + i].len() == w);
            }
            g[y + 1 + i][x]
        };
        r.push(h);
        proof {
            assert(r@ =~= ray(v, x as int, y as int, dir as int).subrange(0, i as int + 1));
        }
        i += 1;
    }
    proof {
        assert(r@ =~= ray(v, x as int, y as int, dir as int));
    }
    r
}

fn is_clear(h: u8, s: &Vec<u8>) -> (r: bool)
    ensures
        r == clear(h, s@),
{
    let mut i: usize = 0;
    while i < s.len()
        invariant
            i <= s.len(),
            forall|j: int| 0 <= j < i ==> s@[j] < h,
        decreases s.len() - i,
    {
        if s[i] >= h {
            return false;
        }
        i += 1;
    }
    true
}

proof fn lemma_view_step(h: u8, s: Seq<u8>, i: int)
    requires
        0 <= i < s.len(),
        s[i] < h,
    ensures
        view(h, s.subrange(i, s.len() as int)) == 1 + view(h, s.subrange(i + 1, s.len() as int)),
{
    assert(s.subrange(i, s.len() as int).drop_first() =~= s.subrange(i + 1, s.len() as int));
}

fn view_len(h: u8, s: &Vec<u8>) -> (r: u64)
    requires
        s.len() <= MAX_SIDE,
    ensures
        r == view(h, s@),
{
    let mut i: usize = 0;
    proof {
        assert(s@.subrange(0, s.len() as int) =~= s@);
    }
    while i < s.len()
        invariant
            s.len() <= MAX_SIDE,
            i <= s.len(),
            view(h, s@) == i + view(h, s@.subrange(i as int, s.len() as int)),
        decreases s.len() - i,
    {
        if s[i] >= h {
            return (i + 1) as u64;
        }
        proof {
            lemma_view_step(h, s@, i as int);
        }
        i += 1;
    }
    i as u64
}

proof fn lemma_view_le(h: u8, s: Seq<u8>)
    ensures
        view(h, s) <= s.len(),
    decreases s.len(),
{
    if s.len() > 0 {
        lemma_view_le(h, s.drop_first());
    }
}

/// The number of trees that can be seen from outside the forest.
pub fn part_one(input: &Vec<Vec<u8>>) -> (r: u64)
    requires
        is_forest(grid_view(input)),
    ensures
        r == count_rows(grid_view(input), input.len() as int),
{
    let ghost g = grid_view(input);
    let w = input[0].len();
    let mut count: u64 = 0;
    let mut y: usize = 0;
    while y < input.len()
        invariant
            g == grid_view(input),
            is_forest(g),
            w == g[0].len(),
            y <= input.len(),
            count == count_rows(g, y as int),
            count <= y * w,
        decreases input.len() - y,
    {
        let mut x: usize = 0;
        let ghost base = count;
        proof {
            assert(y * w + w == (y + 1) * w) by (nonlinear_arith);
            assert((y + 1) * w <= MAX_SIDE * MAX_SIDE) by (nonlinear_arith)
                requires
                    y + 1 <= MAX_SIDE,
                    w <= MAX_SIDE,
            ;
        }
        while x < w
            invariant
                g == grid_view(input),
                is_forest(g),
                w == g[0].len(),
                y < input.len(),
                x <= w,
                base == count_rows(g, y as int),
                base <= y * w,
                base + w <= MAX_SIDE * MAX_SIDE,
                count == base + count_row(g, y as int, x as int),
                count <= base + x,
            decreases w - x,
        {
            proof {
                assert(input@[y as int]@ == g[y as int]);
                assert(g[y as int].len() == w);
            }
            let h = input[y][x];
            let mut seen = false;
            let mut dir: u8 = 0;
            while dir < 4
                invariant
                    g == grid_view(input),
                    is_forest(g),
                    y < input.len(),
                    x < w,
                    w == g[0].len(),
                    h == g[y as int][x as int],
                    dir <= 4,
                    seen == exists|d: int| 0 <= d < dir && clear(h, #[trigger] ray(g, x as int, y as int, d)),
                decreases 4 - dir,
            {
                let s = ray_of(input, x, y, dir);
                if is_clear(h, &s) {
                    seen = true;
                }
                dir += 1;
            }
            if seen {
                count += 1;
            }
            x += 1;
        }
        proof {
            assert(count_rows(g, y + 1) == count_rows(g, y as int) + count_row(g, y as int, w as int));
            assert(y * w + w == (y + 1) * w) by (nonlinear_arith);
            assert((y + 1) * w <= MAX_SIDE * MAX_SIDE) by (nonlinear_arith)
                requires
                    y + 1 <= MAX_SIDE,
                    w <= MAX_SIDE,
            ;
        }
        y += 1;
    }
    count
}

/// The highest scenic score: the product of the four viewing distances.
pub fn part_two(input: &Vec<Vec<u8>>) -> (r: u64)
    requires
        is_forest(grid_view(input)),
    ensures
        r == best_rows(grid_view(input), input.len() as int),
{
    let ghost g = grid_view(input);
    let w = input[0].len();
    let mut best: u64 = 0;
    let mut y: usize = 0;
    while y < input.len()
        invariant
            g == grid_view(input),
            is_forest(g),
            w == g[0].len(),
            y <= input.len(),
            best == best_rows(g, y as int),
        decreases input.len() - y,
    {
        let mut x: usize = 0;
        let mut row_best: u64 = 0;
        while x < w
            invariant
                g == grid_view(input),
                is_forest(g),
                w == g[0].len(),
                y < input.len(),
                x <= w,
                row_best == best_row(g, y as int, x as int),
            decreases w - x,
        {
            proof {
                assert(input@[y as int]@ == g[y as int]);
                assert(g[y as int].len() == w);
            }
            let h = input[y][x];
            let l = ray_of(input, x, y, 0);
            let r = ray_of(input, x, y, 1);
            let u = ray_of(input, x, y, 2);
            let d = ray_of(input, x, y, 3);
            let vl = view_len(h, &l);
            let vr = view_len(h, &r);
            let vu = view_len(h, &u);
            let vd = view_len(h, &d);
            proof {
                lemma_view_le(h, l@);
                lemma_view_le(h, r@);
                lemma_view_le(h, u@);
                lemma_view_le(h, d@);
                assert(vl * vr <= MAX_SIDE * MAX_SIDE) by (nonlinear_arith)
                    requires
                        vl <= MAX_SIDE,
                        vr <= MAX_SIDE,
                ;
                assert(vl * vr * vu <= MAX_SIDE * MAX_SIDE * MAX_SIDE) by (nonlinear_arith)
                    requires
                        vl * vr <= MAX_SIDE * MAX_SIDE,
                        vu <= MAX_SIDE,
                ;
                assert(vl * vr * vu * vd <= MAX_SIDE * MAX_SIDE * MAX_SIDE * MAX_SIDE) by (nonlinear_arith)
                    requires
                        vl * vr * vu <= MAX_SIDE * MAX_SIDE * MAX_SIDE,
                        vd <= MAX_SIDE,
                ;
            }
            let s = vl * vr * vu * vd;
            if s > row_best {
                row_best = s;
            }
            x += 1;
        }
        if row_best > best {
            best = row_best;
        }
        y += 1;
    }
    best
}

} // verus!
