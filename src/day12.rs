use vstd::prelude::*;

use crate::graph::{
    adj_step, adj_view, bfs, combine, is_flip, lemma_multi_add, lemma_nearest_unique,
    lemma_reach_flip, multi_result, nearest, nearest_result, reach, well_formed,
};
use crate::text::{char_lines, lines_of, rows_view};

verus! {

/// The elevation letter of a symbol: `S` stands at `a`, `E` at `z`.
pub open spec fn spec_normal(c: char) -> char {
    if c == 'E' {
        'z'
    } else if c == 'S' {
        'a'
    } else {
        c
    }
}

/// The height of a symbol, as a number.
pub open spec fn height(c: char) -> int {
    spec_normal(c) as u32 as int
}

/// A rectangular grid with at least one cell.
pub open spec fn is_grid(g: Seq<Seq<char>>) -> bool {
    &&& g.len() > 0
    &&& g[0].len() > 0
    &&& forall|r: int| 0 <= r < g.len() ==> #[trigger] g[r].len() == g[0].len()
}

/// The number of columns.
pub open spec fn width(g: Seq<Seq<char>>) -> int {
    g[0].len() as int
}

/// The rows laid end to end: cell `(x, y)` stands at `cell(x, y, width)`.
pub open spec fn flat(g: Seq<Seq<char>>) -> Seq<char>
    decreases g.len(),
{
    if g.len() == 0 {
        Seq::<char>::empty()
    } else {
        flat(g.drop_last()) + g.last()
    }
}

pub open spec fn cell(x: int, y: int, w: int) -> int {
    y * w + x
}

/// One move on the flattened grid `f` of width `w`, from cell `a` to an
/// orthogonal neighbour `b` that is at most one higher.
pub open spec fn can_step(f: Seq<char>, w: int, a: int, b: int) -> bool {
    &&& 0 <= a < f.len()
    &&& 0 <= b < f.len()
    &&& (b == a + w || a == b + w || (b == a + 1 && b % w != 0) || (a == b + 1 && a % w != 0))
    &&& height(f[b]) <= height(f[a]) + 1
}

/// The moves of the climb.
pub open spec fn ascent(f: Seq<char>, w: int) -> spec_fn(int, int) -> bool {
    |a: int, b: int| can_step(f, w, a, b)
}

/// The moves of the climb taken backwards.
pub open spec fn descent(f: Seq<char>, w: int) -> spec_fn(int, int) -> bool {
    |a: int, b: int| can_step(f, w, b, a)
}

/// The end cells.
pub open spec fn is_end(f: Seq<char>) -> spec_fn(int) -> bool {
    |t: int| 0 <= t < f.len() && f[t] == 'E'
}

/// The cells of the lowest elevation.
pub open spec fn is_low(f: Seq<char>) -> spec_fn(int) -> bool {
    |t: int| 0 <= t < f.len() && spec_normal(f[t]) == 'a'
}

/// `i` is the first position of `c` in `f`.
pub open spec fn is_first(f: Seq<char>, c: char, i: int) -> bool {
    &&& 0 <= i < f.len()
    &&& f[i] == c
    &&& forall|j: int| 0 <= j < i ==> f[j] != c
}

/// The grid of symbols, one row per line.
pub fn parse(input: &str) -> (r: Vec<Vec<char>>)
    ensures
        rows_view(&r) == lines_of(input@),
{
    char_lines(input)
}

pub fn normal(c: char) -> (r: char)
    ensures
        r == spec_normal(c),
{
    match c {
        'E' => 'z',
        'S' => 'a',
        c => c,
    }
}

proof fn lemma_flat_len(g: Seq<Seq<char>>, w: int)
    requires
        forall|r: int| 0 <= r < g.len() ==> #[trigger] g[r].len() == w,
    ensures
        flat(g).len() == g.len() * w,
    decreases g.len(),
{
    if g.len() > 0 {
        let h = g.drop_last();
        assert forall|r: int| 0 <= r < h.len() implies #[trigger] h[r].len() == w by {
            assert(h[r] == g[r]);
        }
        lemma_flat_len(h, w);
        assert((g.len() - 1) * w + w == g.len() * w) by (nonlinear_arith);
    }
}

fn flatten(input: &Vec<Vec<char>>) -> (f: Vec<char>)
    requires
        is_grid(rows_view(input)),
    ensures
        f@ == flat(rows_view(input)),
        f.len() == input.len() * input[0].len(),
{
    let ghost g = rows_view(input);
    let mut f: Vec<char> = Vec::new();
    let mut r: usize = 0;
    while r < input.len()
        invariant
            g == rows_view(input),
            r <= input.len(),
            f@ == flat(g.subrange(0, r as int)),
        decreases input.len() - r,
    {
        let row = &input[r];
        assert(row@ == g[r as int]);
        let mut c: usize = 0;
        while c < row.len()
            invariant
                g == rows_view(input),
                r < input.len(),
                row@ == g[r as int],
                c <= row.len(),
                f@ == flat(g.subrange(0, r as int)) + row@.subrange(0, c as int),
            decreases row.len() - c,
        {
            f.push(row[c]);
            proof {
                assert(row@.subrange(0, c as int + 1) =~= row@.subrange(0, c as int).push(row@[c as int]));
                assert(f@ =~= flat(g.subrange(0, r as int)) + row@.subrange(0, c as int + 1));
            }
            c += 1;
        }
        proof {
            assert(g.subrange(0, r as int + 1).drop_last() =~= g.subrange(0, r as int));
            assert(row@.subrange(0, c as int) =~= row@);
        }
        r += 1;
    }
    proof {
        assert(g.subrange(0, r as int) =~= g);
        lemma_flat_len(g, g[0].len() as int);
    }
    f
}

fn step_ok(f: &Vec<char>, a: usize, b: usize, up: bool) -> (r: bool)
    requires
        a < f.len(),
        b < f.len(),
    ensures
        r == if up {
            height(f@[b as int]) <= height(f@[a as int]) + 1
        } else {
            height(f@[a as int]) <= height(f@[b as int]) + 1
        },
{
    let (lo, hi) = if up {
        (normal(f[a]) as u32, normal(f[b]) as u32)
    } else {
        (normal(f[b]) as u32, normal(f[a]) as u32)
    };
    hi <= lo || hi - lo == 1
}

proof fn lemma_push_contains(s: Seq<usize>, x: usize, y: usize)
    ensures
        s.push(x).contains(y) <==> (s.contains(y) || x == y),
{
    if s.contains(y) {
        let i = choose|i: int| 0 <= i < s.len() && s[i] == y;
        assert(s.push(x)[i] == y);
    }
    if x == y {
        assert(s.push(x)[s.len() as int] == y);
    }
    if s.push(x).contains(y) {
        let i = choose|i: int| 0 <= i < s.len() + 1 && s.push(x)[i] == y;
        if i < s.len() {
            assert(s[i] == y);
        }
    }
}

fn add_if(row: &mut Vec<usize>, b: usize, c: bool, n: usize)
    requires
        forall|i: int| 0 <= i < old(row).len() ==> old(row)@[i] < n,
        c ==> b < n,
    ensures
        forall|i: int| 0 <= i < final(row).len() ==> final(row)@[i] < n,
        forall|y: usize| final(row)@.contains(y) <==> (old(row)@.contains(y) || (c && y == b)),
{
    if c {
        proof {
            assert forall|y: usize| old(row)@.push(b).contains(y) <==> (old(row)@.contains(y) || y == b) by {
                lemma_push_contains(old(row)@, b, y);
            }
        }
        row.push(b);
    }
}

/// The cells one move away from `a`, for the climb (`up`) or for the climb
/// taken backwards.
fn links(f: &Vec<char>, w: usize, a: usize, up: bool) -> (row: Vec<usize>)
    requires
        w > 0,
        a < f.len(),
    ensures
        forall|i: int| 0 <= i < row.len() ==> row@[i] < f.len(),
        forall|b: int|
            0 <= b < f.len() ==> (row@.contains(b as usize) <==> if up {
                can_step(f@, w as int, a as int, b)
            } else {
                can_step(f@, w as int, b, a as int)
            }),
{
    let n = f.len();
    let mut row: Vec<usize> = Vec::new();
    let b1 = if w < n - a { a + w } else { 0 };
    let c1 = if w < n - a { step_ok(f, a, b1, up) } else { false };
    add_if(&mut row, b1, c1, n);
    let b2 = if a >= w { a - w } else { 0 };
    let c2 = if a >= w { step_ok(f, a, b2, up) } else { false };
    add_if(&mut row, b2, c2, n);
    let b3 = if a + 1 < n { a + 1 } else { 0 };
    let c3 = if a + 1 < n && (a + 1) % w != 0 { step_ok(f, a, b3, up) } else { false };
    add_if(&mut row, b3, c3, n);
    let b4 = if a >= 1 { a - 1 } else { 0 };
    let c4 = if a >= 1 && a % w != 0 { step_ok(f, a, b4, up) } else { false };
    add_if(&mut row, b4, c4, n);
    proof {
        assert(!Seq::<usize>::empty().contains(0usize));
    }
    row
}

/// Adjacency lists of the climb (`up`) or of the climb taken backwards.
fn neighbours(f: &Vec<char>, w: usize, up: bool) -> (adj: Vec<Vec<usize>>)
    requires
        w > 0,
    ensures
        adj.len() == f.len(),
        well_formed(adj_view(&adj)),
        adj_step(adj_view(&adj)) == if up {
            ascent(f@, w as int)
        } else {
            descent(f@, w as int)
        },
{
    let mut adj: Vec<Vec<usize>> = Vec::new();
    let mut a: usize = 0;
    while a < f.len()
        invariant
            w > 0,
            a <= f.len(),
            adj.len() == a,
            forall|u: int, i: int|
                0 <= u < a && 0 <= i < adj@[u].len() ==> (#[trigger] adj@[u]@[i]) < f.len(),
            forall|u: int, b: int|
                0 <= u < a && 0 <= b < f.len() ==> (#[trigger] adj@[u]@.contains(b as usize) <==> if up {
                    can_step(f@, w as int, u, b)
                } else {
                    can_step(f@, w as int, b, u)
                }),
        decreases f.len() - a,
    {
        let row = links(f, w, a, up);
        adj.push(row);
        a += 1;
    }
    let ghost g = adj_view(&adj);
    proof {
        assert forall|u: int, i: int| 0 <= u < g.len() && 0 <= i < g[u].len() implies (#[trigger] g[u][i] as int) < g.len() by {
            assert(g[u] == adj@[u]@);
            assert(adj@[u]@[i] < f.len());
        }
        if up {
            assert forall|x: int, y: int| #[trigger] adj_step(g)(x, y) == ascent(f@, w as int)(x, y) by {
                if 0 <= x < g.len() {
                    assert(g[x] == adj@[x]@);
                }
            }
            assert(adj_step(g) =~= ascent(f@, w as int));
        } else {
            assert forall|x: int, y: int| #[trigger] adj_step(g)(x, y) == descent(f@, w as int)(x, y) by {
                if 0 <= x < g.len() {
                    assert(g[x] == adj@[x]@);
                }
            }
            assert(adj_step(g) =~= descent(f@, w as int));
        }
    }
    adj
}

/// Marks the cells whose symbol is `c`, or, with `low`, the cells of the
/// lowest elevation.
fn marks(f: &Vec<char>, c: char, low: bool) -> (m: Vec<bool>)
    ensures
        m.len() == f.len(),
        forall|i: int| 0 <= i < f.len() ==> #[trigger] m@[i] == if low {
            spec_normal(f@[i]) == 'a'
        } else {
            f@[i] == c
        },
{
    let mut m: Vec<bool> = Vec::new();
    let mut i: usize = 0;
    while i < f.len()
        invariant
            i <= f.len(),
            m.len() == i,
            forall|j: int| 0 <= j < i ==> #[trigger] m@[j] == if low {
                spec_normal(f@[j]) == 'a'
            } else {
                f@[j] == c
            },
        decreases f.len() - i,
    {
        let hit = if low { normal(f[i]) == 'a' } else { f[i] == c };
        m.push(hit);
        i += 1;
    }
    m
}

/// Fewest steps from any of `sources` to a cell marked in `targets`.
fn search(adj: &Vec<Vec<usize>>, sources: &Vec<usize>, targets: &Vec<bool>) -> (r: Option<usize>)
    requires
        well_formed(adj_view(adj)),
        targets.len() == adj.len(),
        forall|i: int| 0 <= i < sources.len() ==> sources@[i] < adj.len(),
    ensures
        multi_result(
            adj_step(adj_view(adj)),
            |s: int| exists|i: int| 0 <= i < sources.len() && sources@[i] as int == s,
            |t: int| 0 <= t < targets.len() && targets@[t],
            r,
        ),
{
    let ghost step = adj_step(adj_view(adj));
    let ghost tgt = |t: int| 0 <= t < targets.len() && targets@[t];
    let mut best: Option<usize> = None;
    let mut k: usize = 0;
    while k < sources.len()
        invariant
            well_formed(adj_view(adj)),
            step == adj_step(adj_view(adj)),
            tgt == (|t: int| 0 <= t < targets.len() && targets@[t]),
            targets.len() == adj.len(),
            forall|i: int| 0 <= i < sources.len() ==> sources@[i] < adj.len(),
            k <= sources.len(),
            multi_result(step, |s: int| exists|i: int| 0 <= i < k && sources@[i] as int == s, tgt, best),
        decreases sources.len() - k,
    {
        let s = sources[k];
        let dist = bfs(adj, s);
        let r = nearest(&dist, targets);
        proof {
            let src = |x: int| exists|i: int| 0 <= i < k && sources@[i] as int == x;
            lemma_multi_add(step, src, tgt, best, s as int, r);
            let src2 = |x: int| exists|i: int| 0 <= i < k + 1 && sources@[i] as int == x;
            assert forall|x: int| #[trigger] src2(x) == (src(x) || x == s as int) by {
                if src2(x) && !(x == s as int) {
                    let i = choose|i: int| 0 <= i < k + 1 && sources@[i] as int == x;
                    assert(0 <= i < k && sources@[i] as int == x);
                }
                if x == s as int {
                    assert(0 <= k < k + 1 && sources@[k as int] as int == x);
                }
            }
            assert(src2 =~= (|x: int| src(x) || x == s as int));
        }
        best = combine(best, r);
        k += 1;
    }
    best
}

proof fn lemma_cell_bound(x: int, y: int, w: int, h: int)
    requires
        0 <= x < w,
        0 <= y < h,
    ensures
        0 <= cell(x, y, w) < h * w,
{
    assert(0 <= y * w) by (nonlinear_arith)
        requires
            0 <= y,
            0 <= w,
    ;
    assert(y * w + w <= h * w) by (nonlinear_arith)
        requires
            y < h,
            0 <= w,
    ;
}

/// `r` is the fewest moves from the cell `(x, y)` of `g` to the end cell.
pub open spec fn single_spec(g: Seq<Seq<char>>, x: int, y: int, r: Option<usize>) -> bool {
    nearest_result(ascent(flat(g), width(g)), cell(x, y, width(g)), is_end(flat(g)), r)
}

/// `r` is the fewest moves from any of the cells `(x, y)` in `sources` to the
/// end cell.
pub open spec fn multi_spec(g: Seq<Seq<char>>, sources: Seq<(usize, usize)>, r: Option<usize>) -> bool {
    multi_result(
        ascent(flat(g), width(g)),
        |s: int| exists|i: int| 0 <= i < sources.len() && s == cell(sources[i].0 as int, sources[i].1 as int, width(g)),
        is_end(flat(g)),
        r,
    )
}

/// `r` is the fewest moves from any lowest cell of `g` to the end cell.
pub open spec fn lowest_spec(g: Seq<Seq<char>>, r: Option<usize>) -> bool {
    multi_result(ascent(flat(g), width(g)), is_low(flat(g)), is_end(flat(g)), r)
}

/// `r` is the fewest moves backwards from the first end cell of `g` to a
/// lowest cell.
pub open spec fn backward_spec(g: Seq<Seq<char>>, r: Option<usize>) -> bool {
    exists|e: int| is_first(flat(g), 'E', e) && nearest_result(descent(flat(g), width(g)), e, is_low(flat(g)), r)
}

/// Fewest moves from the cell `(startx, starty)` to the end cell.
pub fn min_dist(input: &Vec<Vec<char>>, startx: usize, starty: usize) -> (r: Option<usize>)
    requires
        is_grid(rows_view(input)),
        starty < input.len(),
        startx < input[0].len(),
    ensures
        single_spec(rows_view(input), startx as int, starty as int, r),
{
    let ghost g = rows_view(input);
    let w = input[0].len();
    let f = flatten(input);
    proof {
        lemma_cell_bound(startx as int, starty as int, w as int, input.len() as int);
    }
    let s = starty * w + startx;
    let mut sources: Vec<usize> = Vec::new();
    sources.push(s);
    min_dist_from(&f, w, &sources)
}

/// Fewest moves from any of the cells `(x, y)` in `sources` to the end cell.
pub fn min_dist_multi(input: &Vec<Vec<char>>, sources: &Vec<(usize, usize)>) -> (r: Option<usize>)
    requires
        is_grid(rows_view(input)),
        forall|i: int| 0 <= i < sources.len() ==> sources@[i].1 < input.len() && sources@[i].0 < input[0].len(),
    ensures
        multi_spec(rows_view(input), sources@, r),
{
    let ghost g = rows_view(input);
    let w = input[0].len();
    let f = flatten(input);
    let mut cells: Vec<usize> = Vec::new();
    let mut i: usize = 0;
    while i < sources.len()
        invariant
            g == rows_view(input),
            w == input[0].len(),
            w == width(g),
            f.len() == input.len() * w,
            is_grid(g),
            forall|j: int| 0 <= j < sources.len() ==> sources@[j].1 < input.len() && sources@[j].0 < w,
            i <= sources.len(),
            cells.len() == i,
            forall|j: int| 0 <= j < i ==> #[trigger] cells@[j] as int == cell(sources@[j].0 as int, sources@[j].1 as int, w as int) && cells@[j] < f.len(),
        decreases sources.len() - i,
    {
        let (x, y) = sources[i];
        proof {
            lemma_cell_bound(x as int, y as int, w as int, input.len() as int);
        }
        cells.push(y * w + x);
        i += 1;
    }
    let r = min_dist_from(&f, w, &cells);
    proof {
        let from_cells = |s: int| exists|i: int| 0 <= i < cells.len() && cells@[i] as int == s;
        let from_pairs = |s: int| exists|i: int| 0 <= i < sources.len() && s == cell(sources@[i].0 as int, sources@[i].1 as int, width(g));
        assert forall|s: int| #[trigger] from_cells(s) == from_pairs(s) by {
            if from_cells(s) {
                let i = choose|i: int| 0 <= i < cells.len() && cells@[i] as int == s;
                assert(0 <= i < sources.len() && s == cell(sources@[i].0 as int, sources@[i].1 as int, width(g)));
            }
            if from_pairs(s) {
                let i = choose|i: int| 0 <= i < sources.len() && s == cell(sources@[i].0 as int, sources@[i].1 as int, width(g));
                assert(0 <= i < cells.len() && cells@[i] as int == s);
            }
        }
        assert(from_cells =~= from_pairs);
    }
    r
}

/// First position of `c` in `f`.
fn find_first(f: &Vec<char>, c: char) -> (i: usize)
    requires
        f@.contains(c),
    ensures
        is_first(f@, c, i as int),
{
    let mut i: usize = 0;
    while i < f.len()
        invariant
            f@.contains(c),
            i <= f.len(),
            forall|j: int| 0 <= j < i ==> f@[j] != c,
        decreases f.len() - i,
    {
        if f[i] == c {
            return i;
        }
        i += 1;
    }
    i
}

/// Fewest moves from the start cell `S` to the end cell `E`.
pub fn part_one(input: &Vec<Vec<char>>) -> (r: Option<usize>)
    requires
        is_grid(rows_view(input)),
        flat(rows_view(input)).contains('S'),
    ensures
        ({
            let g = rows_view(input);
            exists|s: int| is_first(flat(g), 'S', s) && nearest_result(ascent(flat(g), width(g)), s, is_end(flat(g)), r)
        }),
{
    let w = input[0].len();
    let f = flatten(input);
    let s = find_first(&f, 'S');
    let mut sources: Vec<usize> = Vec::new();
    sources.push(s);
    min_dist_from(&f, w, &sources)
}

/// Fewest moves from any cell of the lowest elevation to the end cell, one
/// search from each such cell.
pub fn part_two(input: &Vec<Vec<char>>) -> (r: Option<usize>)
    requires
        is_grid(rows_view(input)),
    ensures
        lowest_spec(rows_view(input), r),
{
    let w = input[0].len();
    let f = flatten(input);
    let mut sources: Vec<usize> = Vec::new();
    let mut i: usize = 0;
    while i < f.len()
        invariant
            i <= f.len(),
            forall|j: int| 0 <= j < sources.len() ==> sources@[j] < i && is_low(f@)(sources@[j] as int),
            forall|t: int| 0 <= t < i && #[trigger] is_low(f@)(t) ==> exists|j: int| 0 <= j < sources.len() && sources@[j] as int == t,
        decreases f.len() - i,
    {
        let ghost before = sources@;
        if normal(f[i]) == 'a' {
            sources.push(i);
        }
        proof {
            assert forall|t: int| 0 <= t < i + 1 && #[trigger] is_low(f@)(t) implies exists|j: int|
                0 <= j < sources.len() && sources@[j] as int == t by {
                if t < i {
                    let j = choose|j: int| 0 <= j < before.len() && before[j] as int == t;
                    assert(sources@[j] == before[j]);
                } else {
                    assert(sources@[before.len() as int] as int == t);
                }
            }
        }
        i += 1;
    }
    let r = min_dist_from(&f, w, &sources);
    proof {
        let p = |s: int| exists|j: int| 0 <= j < sources.len() && sources@[j] as int == s;
        assert forall|s: int| #[trigger] p(s) == is_low(f@)(s) by {
            if p(s) {
                let j = choose|j: int| 0 <= j < sources.len() && sources@[j] as int == s;
            }
        }
        assert(p =~= is_low(f@));
    }
    r
}

/// Fewest moves from any cell of the lowest elevation to the end cell, by one
/// search backwards from the end cell.
pub fn part_two_backward(input: &Vec<Vec<char>>) -> (r: Option<usize>)
    requires
        is_grid(rows_view(input)),
        flat(rows_view(input)).contains('E'),
    ensures
        backward_spec(rows_view(input), r),
{
    let w = input[0].len();
    let f = flatten(input);
    let e = find_first(&f, 'E');
    let adj = neighbours(&f, w, false);
    let dist = bfs(&adj, e);
    let targets = marks(&f, 'a', true);
    let r = nearest(&dist, &targets);
    proof {
        assert((|t: int| 0 <= t < targets.len() && targets@[t]) =~= is_low(f@));
        assert(nearest_result(descent(f@, w as int), e as int, is_low(f@), r));
    }
    r
}

/// The search from one cell gives the same distance as the multi-source
/// search over the list that holds only that cell.
pub proof fn lemma_single_is_multi_of_one(g: Seq<Seq<char>>, x: usize, y: usize, r1: Option<usize>, r2: Option<usize>)
    requires
        is_grid(g),
        (y as int) < g.len(),
        (x as int) < width(g),
        single_spec(g, x as int, y as int, r1),
        multi_spec(g, seq![(x, y)], r2),
    ensures
        r1 == r2,
{
    let s = cell(x as int, y as int, width(g));
    let src = |c: int| exists|i: int| 0 <= i < 1 && c == cell(seq![(x, y)][i].0 as int, seq![(x, y)][i].1 as int, width(g));
    assert forall|c: int| #[trigger] src(c) <==> c == s by {
        if c == s {
            assert(seq![(x, y)][0] == (x, y));
        }
    }
    lemma_single_source(ascent(flat(g), width(g)), src, s, is_end(flat(g)), r2);
    lemma_nearest_unique(ascent(flat(g), width(g)), s, is_end(flat(g)), r1, r2);
}

/// On a grid with one end cell, the search backwards from the end cell finds
/// the same distance as the searches forwards from every lowest cell.
pub proof fn lemma_backward_matches_forward(g: Seq<Seq<char>>, r1: Option<usize>, r2: Option<usize>)
    requires
        is_grid(g),
        forall|t: int, u: int|
            0 <= t < flat(g).len() && 0 <= u < flat(g).len() && #[trigger] flat(g)[t] == 'E' && #[trigger] flat(g)[u] == 'E'
                ==> t == u,
        lowest_spec(g, r1),
        backward_spec(g, r2),
    ensures
        r1 == r2,
{
    let f = flat(g);
    let w = width(g);
    let up = ascent(f, w);
    let down = descent(f, w);
    let low = is_low(f);
    let end = is_end(f);
    let e = choose|e: int| is_first(f, 'E', e) && nearest_result(down, e, low, r2);
    assert(is_flip(up, down));
    assert(is_flip(down, up));
    assert(end(e));
    // both results are the least number of steps linking a lowest cell and `e`
    assert forall|s: int, t: int, j: nat| low(s) && end(t) && #[trigger] reach(up, s, t, j) implies t == e
        && reach(down, e, s, j) by {
        lemma_reach_flip(up, down, s, t, j);
    }
    assert forall|s: int, j: nat| low(s) && #[trigger] reach(down, e, s, j) implies reach(up, s, e, j) by {
        lemma_reach_flip(down, up, e, s, j);
    }
    match (r1, r2) {
        (Some(a), Some(b)) => {
            let (s1, t1) = choose|s: int, t: int| low(s) && end(t) && #[trigger] reach(up, s, t, a as nat);
            let s2 = choose|s: int| low(s) && #[trigger] reach(down, e, s, b as nat);
            assert(reach(up, s2, e, b as nat));
            assert(reach(down, e, s1, a as nat));
        },
        (Some(a), None) => {
            let (s1, t1) = choose|s: int, t: int| low(s) && end(t) && #[trigger] reach(up, s, t, a as nat);
            assert(reach(down, e, s1, a as nat));
        },
        (None, Some(b)) => {
            let s2 = choose|s: int| low(s) && #[trigger] reach(down, e, s, b as nat);
            assert(reach(up, s2, e, b as nat));
        },
        (None, None) => {},
    }
}

/// Fewest moves on the flattened grid from any of `sources` to the end cell.
fn min_dist_from(f: &Vec<char>, w: usize, sources: &Vec<usize>) -> (r: Option<usize>)
    requires
        w > 0,
        forall|i: int| 0 <= i < sources.len() ==> sources@[i] < f.len(),
    ensures
        multi_result(
            ascent(f@, w as int),
            |s: int| exists|i: int| 0 <= i < sources.len() && sources@[i] as int == s,
            is_end(f@),
            r,
        ),
        sources.len() == 1 ==> nearest_result(ascent(f@, w as int), sources@[0] as int, is_end(f@), r),
{
    let adj = neighbours(f, w, true);
    let targets = marks(f, 'E', false);
    let r = search(&adj, sources, &targets);
    proof {
        assert((|t: int| 0 <= t < targets.len() && targets@[t]) =~= is_end(f@));
        if sources.len() == 1 {
            let src = |s: int| exists|i: int| 0 <= i < sources.len() && sources@[i] as int == s;
            assert(src(sources@[0] as int));
            lemma_single_source(ascent(f@, w as int), src, sources@[0] as int, is_end(f@), r);
        }
    }
    r
}

/// A multi-source result over a single source is the single-source result.
proof fn lemma_single_source(
    step: spec_fn(int, int) -> bool,
    src: spec_fn(int) -> bool,
    s: int,
    tgt: spec_fn(int) -> bool,
    r: Option<usize>,
)
    requires
        forall|x: int| #[trigger] src(x) <==> x == s,
        multi_result(step, src, tgt, r),
    ensures
        nearest_result(step, s, tgt, r),
{
    match r {
        Some(d) => {
            let (a, b) = choose|a: int, b: int| src(a) && tgt(b) && #[trigger] reach(step, a, b, d as nat);
            assert(tgt(b) && reach(step, s, b, d as nat));
            assert forall|t: int, j: nat| tgt(t) && j < d implies !#[trigger] reach(step, s, t, j) by {
                assert(src(s));
            }
        },
        None => {
            assert forall|t: int, j: nat| tgt(t) implies !#[trigger] reach(step, s, t, j) by {
                assert(src(s));
            }
        },
    }
}

} // verus!
