use vstd::prelude::*;

use crate::text::{char_lines, chars_of, digits_value, is_number, lines_of, parse_decimal, rows_view, same_chars, split_chars, split_first, split_on, split_once};

verus! {

/// Largest coordinate, either way, that a field may reach.
pub const MAX_X: i64 = 1_000_000;

/// Largest depth that a field may reach.
pub const MAX_Y: i64 = 100_000;

#[derive(Debug, PartialEq, Eq, Clone, Copy, Structural)]
pub enum Tile {
    Sand,
    Wall,
    Empty,
}

/// The tiles of the columns `xmin..=xmax`, rows `ymin..=ymax`, and whether a
/// floor lies below the lowest row.
pub struct Field {
    pub tiles: Vec<Vec<Tile>>,
    pub xmin: i64,
    pub xmax: i64,
    pub ymin: i64,
    pub ymax: i64,
    pub floor: bool,
}

impl Field {
    /// One column per `x`, one tile per `y` in each, the source `(500, 0)`
    /// inside.
    pub open spec fn wf(&self) -> bool {
        &&& self.ymin == 0
        &&& 0 <= self.ymax <= MAX_Y
        &&& -MAX_X <= self.xmin <= 500 <= self.xmax <= MAX_X
        &&& self.tiles.len() == self.xmax - self.xmin + 1
        &&& forall|i: int| 0 <= i < self.tiles.len() ==> (#[trigger] self.tiles@[i]).len() == self.ymax + 1
    }

    /// The tile at `(x, y)`: below the lowest row the floor where there is
    /// one; outside the columns empty where there is a floor, else `None`.
    pub open spec fn tile(&self, x: int, y: int) -> Option<Tile> {
        if self.floor && y > self.ymax {
            Some(Tile::Wall)
        } else if self.xmin <= x <= self.xmax && self.ymin <= y <= self.ymax {
            Some(self.tiles@[x - self.xmin]@[y - self.ymin])
        } else if self.floor {
            Some(Tile::Empty)
        } else {
            None
        }
    }

    /// The tiles as a function of the position.
    pub open spec fn tiles_fn(&self) -> spec_fn(int, int) -> Option<Tile> {
        |x: int, y: int| self.tile(x, y)
    }

    /// The tile at `(x, y)`.
    pub fn get(&self, x: i64, y: i64) -> (r: Option<Tile>)
        requires
            self.wf(),
        ensures
            r == self.tile(x as int, y as int),
    {
        if self.floor && y > self.ymax {
            return Some(Tile::Wall);
        }
        if x <= self.xmax && x >= self.xmin && y <= self.ymax && y >= self.ymin {
            let i = (x - self.xmin) as usize;
            let j = (y - self.ymin) as usize;
            proof {
                assert(self.tiles@[i as int].len() == self.ymax + 1);
            }
            Some(self.tiles[i][j])
        } else if self.floor {
            Some(Tile::Empty)
        } else {
            None
        }
    }

    /// Lays a floor two rows below the lowest wall: one empty row more, the
    /// floor under it.
    pub fn add_floor(&mut self)
        requires
            old(self).wf(),
            old(self).ymax < MAX_Y,
        ensures
            final(self).wf(),
            final(self).floor,
            final(self).ymax == old(self).ymax + 1,
            forall|x: int, y: int|
                #[trigger] final(self).tile(x, y) == if y > old(self).ymax + 1 {
                    Some(Tile::Wall)
                } else if old(self).xmin <= x <= old(self).xmax && 0 <= y <= old(self).ymax {
                    old(self).tile(x, y)
                } else {
                    Some(Tile::Empty)
                },
    {
        let ghost before = self.tiles@;
        self.floor = true;
        self.ymax += 1;
        let mut i: usize = 0;
        while i < self.tiles.len()
            invariant
                self.tiles.len() == before.len(),
                self.floor,
                self.ymax == old(self).ymax + 1,
                self.xmin == old(self).xmin,
                self.xmax == old(self).xmax,
                self.ymin == 0,
                old(self).wf(),
                before == old(self).tiles@,
                i <= self.tiles.len(),
                forall|k: int| 0 <= k < i ==> (#[trigger] self.tiles@[k])@ == before[k]@.push(Tile::Empty),
                forall|k: int| i <= k < self.tiles.len() ==> #[trigger] self.tiles@[k] == before[k],
            decreases self.tiles.len() - i,
        {
            self.tiles[i].push(Tile::Empty);
            i += 1;
        }
        proof {
            assert forall|k: int| 0 <= k < self.tiles.len() implies (#[trigger] self.tiles@[k]).len() == self.ymax + 1 by {
                assert(before[k].len() == old(self).ymax + 1);
            }
            assert forall|x: int, y: int| #[trigger] self.tile(x, y) == if y > old(self).ymax + 1 {
                Some(Tile::Wall)
            } else if old(self).xmin <= x <= old(self).xmax && 0 <= y <= old(self).ymax {
                old(self).tile(x, y)
            } else {
                Some(Tile::Empty)
            } by {
                if old(self).xmin <= x <= old(self).xmax && 0 <= y <= old(self).ymax + 1 {
                    let k = x - self.xmin;
                    assert(before[k].len() == old(self).ymax + 1);
                    assert(self.tiles@[k]@ == before[k]@.push(Tile::Empty));
                }
            }
        }
    }
}

/// Where a grain at `(x, y)` comes to rest among the tiles `t`, rows down to
/// `ymax`: straight down, else down to the left, else down to the right,
/// while that tile is empty; `None` where it falls out.
pub open spec fn settle(t: spec_fn(int, int) -> Option<Tile>, ymax: int, x: int, y: int) -> Option<(int, int)>
    decreases ymax + 1 - y,
{
    if y > ymax {
        None
    } else {
        match t(x, y + 1) {
            None => None,
            Some(Tile::Empty) => settle(t, ymax, x, y + 1),
            Some(_) => match t(x - 1, y + 1) {
                None => None,
                Some(Tile::Empty) => settle(t, ymax, x - 1, y + 1),
                Some(_) => match t(x + 1, y + 1) {
                    None => None,
                    Some(Tile::Empty) => settle(t, ymax, x + 1, y + 1),
                    Some(_) => Some((x, y)),
                },
            },
        }
    }
}

/// Where a grain from the source `(500, 0)` comes to rest; `None` where the
/// source is covered with sand or the grain falls out.
pub open spec fn drop_spec(t: spec_fn(int, int) -> Option<Tile>, ymax: int) -> Option<(int, int)> {
    if t(500, 0) == Some(Tile::Sand) {
        None
    } else {
        settle(t, ymax, 500, 0)
    }
}

/// The tiles `t` with sand at `p`.
pub open spec fn place(t: spec_fn(int, int) -> Option<Tile>, p: (int, int)) -> spec_fn(int, int) -> Option<Tile> {
    |a: int, b: int| if a == p.0 && b == p.1 { Some(Tile::Sand) } else { t(a, b) }
}

/// The tiles after `k` grains have come to rest, `None` where one of them
/// does not.
pub open spec fn after(t: spec_fn(int, int) -> Option<Tile>, ymax: int, k: nat) -> Option<spec_fn(int, int) -> Option<Tile>>
    decreases k,
{
    if k == 0 {
        Some(t)
    } else {
        match after(t, ymax, (k - 1) as nat) {
            Some(u) => match drop_spec(u, ymax) {
                Some(p) => Some(place(u, p)),
                None => None,
            },
            None => None,
        }
    }
}

/// Exactly `r` grains come to rest among the tiles `t`: the next one does not.
pub open spec fn pours(t: spec_fn(int, int) -> Option<Tile>, ymax: int, r: nat) -> bool {
    &&& after(t, ymax, r) is Some
    &&& drop_spec(after(t, ymax, r)->Some_0, ymax) is None
}

/// A grain that starts in the triangle below the source on a tile that
/// holds no sand rests in that triangle on a tile that held no sand.
proof fn lemma_settle(t: spec_fn(int, int) -> Option<Tile>, ymax: int, x: int, y: int)
    requires
        0 <= y,
        -y <= x - 500 <= y,
        t(x, y) != Some(Tile::Sand),
    ensures
        match settle(t, ymax, x, y) {
            Some((a, b)) => 0 <= b <= ymax && -b <= a - 500 <= b && t(a, b) != Some(Tile::Sand),
            None => true,
        },
    decreases ymax + 1 - y,
{
    if y <= ymax {
        match t(x, y + 1) {
            Some(Tile::Empty) => lemma_settle(t, ymax, x, y + 1),
            Some(_) => match t(x - 1, y + 1) {
                Some(Tile::Empty) => lemma_settle(t, ymax, x - 1, y + 1),
                Some(_) => match t(x + 1, y + 1) {
                    Some(Tile::Empty) => lemma_settle(t, ymax, x + 1, y + 1),
                    _ => {},
                },
                None => {},
            },
            None => {},
        }
    }
}

fn empty_column(n: usize) -> (r: Vec<Tile>)
    ensures
        r.len() == n,
        forall|j: int| 0 <= j < n ==> r@[j] == Tile::Empty,
{
    let mut r: Vec<Tile> = Vec::new();
    let mut j: usize = 0;
    while j < n
        invariant
            j <= n,
            r.len() == j,
            forall|k: int| 0 <= k < j ==> r@[k] == Tile::Empty,
        decreases n - j,
    {
        r.push(Tile::Empty);
        j += 1;
    }
    r
}

impl Field {
    /// Puts a grain of sand at `(x, y)`, adding empty columns where `x` lies
    /// beside the field.
    pub fn set_sand(&mut self, x: i64, y: i64)
        requires
            old(self).wf(),
            0 <= y <= old(self).ymax,
            -MAX_X <= x <= MAX_X,
        ensures
            final(self).wf(),
            final(self).floor == old(self).floor,
            final(self).ymax == old(self).ymax,
            final(self).xmin == min(old(self).xmin as int, x as int),
            final(self).xmax == max(old(self).xmax as int, x as int),
            forall|a: int, b: int|
                final(self).in_bounds(a, b) ==> #[trigger] final(self).tile(a, b) == if a == x && b == y {
                    Some(Tile::Sand)
                } else if old(self).in_bounds(a, b) {
                    old(self).tile(a, b)
                } else {
                    Some(Tile::Empty)
                },
            old(self).floor || old(self).xmin <= x <= old(self).xmax ==> forall|a: int, b: int|
                #[trigger] final(self).tile(a, b) == if a == x && b == y {
                    Some(Tile::Sand)
                } else {
                    old(self).tile(a, b)
                },
    {
        let col = (self.ymax + 1) as usize;
        if x > self.xmax {
            let k = x - self.xmax;
            let mut c: i64 = 0;
            let ghost before = self.tiles@;
            while c < k
                invariant
                    old(self).wf(),
                    before == old(self).tiles@,
                    self.floor == old(self).floor,
                    self.xmin == old(self).xmin,
                    self.xmax == old(self).xmax,
                    self.ymin == old(self).ymin,
                    self.ymax == old(self).ymax,
                    col == self.ymax + 1,
                    0 <= c <= k,
                    k == x - self.xmax,
                    self.tiles.len() == before.len() + c,
                    forall|i: int| 0 <= i < before.len() ==> #[trigger] self.tiles@[i] == before[i],
                    forall|i: int| before.len() <= i < self.tiles.len() ==> (#[trigger] self.tiles@[i]).len() == col && forall|j: int|
                        0 <= j < col ==> self.tiles@[i]@[j] == Tile::Empty,
                decreases k - c,
            {
                self.tiles.push(empty_column(col));
                c += 1;
            }
            self.xmax = x;
        } else if x < self.xmin {
            let k = self.xmin - x;
            let mut front: Vec<Vec<Tile>> = Vec::new();
            let mut c: i64 = 0;
            while c < k
                invariant
                    0 <= c <= k,
                    front.len() == c,
                    forall|i: int| 0 <= i < front.len() ==> (#[trigger] front@[i]).len() == col && forall|j: int|
                        0 <= j < col ==> front@[i]@[j] == Tile::Empty,
                decreases k - c,
            {
                front.push(empty_column(col));
                c += 1;
            }
            let ghost before = self.tiles@;
            front.append(&mut self.tiles);
            self.tiles = front;
            self.xmin = x;
            proof {
                assert forall|i: int| 0 <= i < before.len() implies #[trigger] self.tiles@[i + k] == before[i] by {}
            }
        }
        let ghost mid = self.tiles@;
        let i = (x - self.xmin) as usize;
        let j = y as usize;
        proof {
            assert(self.tiles@[i as int].len() == col);
        }
        self.tiles[i].set(j, Tile::Sand);
        proof {
            assert forall|a: int, b: int|
                self.in_bounds(a, b) implies #[trigger] self.tile(a, b) == if a == x && b == y {
                    Some(Tile::Sand)
                } else if old(self).in_bounds(a, b) {
                    old(self).tile(a, b)
                } else {
                    Some(Tile::Empty)
                } by {
                let ka = a - self.xmin;
                if ka != i {
                    assert(self.tiles@[ka] == mid[ka]);
                }
                if old(self).xmin <= a <= old(self).xmax {
                    assert(mid[ka] == old(self).tiles@[a - old(self).xmin]);
                }
            }
            if old(self).floor || old(self).xmin <= x <= old(self).xmax {
                assert forall|a: int, b: int| #[trigger] self.tile(a, b) == if a == x && b == y {
                    Some(Tile::Sand)
                } else {
                    old(self).tile(a, b)
                } by {
                    if self.xmin <= a <= self.xmax && 0 <= b <= self.ymax {
                        let ka = a - self.xmin;
                        if ka != i {
                            assert(self.tiles@[ka] == mid[ka]);
                        }
                        if old(self).xmin <= a <= old(self).xmax {
                            assert(mid[ka] == old(self).tiles@[a - old(self).xmin]);
                        }
                    }
                }
            }
            assert forall|k: int| 0 <= k < self.tiles.len() implies (#[trigger] self.tiles@[k]).len() == self.ymax + 1 by {
                if k != i {
                    assert(self.tiles@[k] == mid[k]);
                }
            }
        }
    }
}

impl Field {
    /// Drops a grain of sand from `(500, 0)`; whether it came to rest.
    pub fn add_sand(&mut self) -> (r: bool)
        requires
            old(self).wf(),
        ensures
            final(self).wf(),
            final(self).floor == old(self).floor,
            final(self).ymax == old(self).ymax,
            match drop_spec(old(self).tiles_fn(), old(self).ymax as int) {
                None => !r && *final(self) == *old(self),
                Some(p) => r && final(self).tiles_fn() == place(old(self).tiles_fn(), p),
            },
    {
        let ghost t = self.tiles_fn();
        let ghost ymax = self.ymax as int;
        let mut x: i64 = 500;
        let mut y: i64 = 0;
        match self.get(x, y) {
            Some(Tile::Sand) => {
                return false;
            },
            _ => {},
        }
        loop
            invariant
                self.wf(),
                t == self.tiles_fn(),
                ymax == self.ymax,
                *self == *old(self),
                0 <= y <= self.ymax,
                -y <= x - 500 <= y,
                !self.floor ==> self.xmin <= x <= self.xmax,
                drop_spec(t, ymax) == settle(t, ymax, x as int, y as int),
            decreases self.ymax - y,
        {
            match self.get(x, y + 1) {
                Some(Tile::Empty) => {
                    y += 1;
                    continue;
                },
                None => {
                    return false;
                },
                _ => {},
            }
            match self.get(x - 1, y + 1) {
                Some(Tile::Empty) => {
                    y += 1;
                    x -= 1;
                    continue;
                },
                None => {
                    return false;
                },
                _ => {},
            }
            match self.get(x + 1, y + 1) {
                Some(Tile::Empty) => {
                    y += 1;
                    x += 1;
                    continue;
                },
                None => {
                    return false;
                },
                _ => {},
            }
            self.set_sand(x, y);
            proof {
                assert(self.tiles_fn() =~= place(t, (x as int, y as int)));
            }
            return true;
        }
    }
}

/// A number for each place of the triangle below the source, different
/// places getting different numbers below `(ymax + 1) * (2 * ymax + 1)`.
pub open spec fn code(ymax: int, p: (int, int)) -> int {
    p.1 * (2 * ymax + 1) + (p.0 - 500 + ymax)
}

proof fn lemma_code(ymax: int, p: (int, int), q: (int, int))
    requires
        0 <= ymax,
        0 <= p.1 <= ymax,
        -p.1 <= p.0 - 500 <= p.1,
        0 <= q.1 <= ymax,
        -q.1 <= q.0 - 500 <= q.1,
    ensures
        0 <= code(ymax, p) < (ymax + 1) * (2 * ymax + 1),
        code(ymax, p) == code(ymax, q) ==> p == q,
{
    let w = 2 * ymax + 1;
    assert(0 <= code(ymax, p) < (ymax + 1) * w) by (nonlinear_arith)
        requires
            0 <= p.1 <= ymax,
            0 <= p.0 - 500 + ymax < w,
            w == 2 * ymax + 1,
            code(ymax, p) == p.1 * w + (p.0 - 500 + ymax),
    ;
    if p.1 < q.1 {
        assert(code(ymax, p) < code(ymax, q)) by (nonlinear_arith)
            requires
                p.1 < q.1,
                0 <= p.0 - 500 + ymax < w,
                0 <= q.0 - 500 + ymax,
                code(ymax, p) == p.1 * w + (p.0 - 500 + ymax),
                code(ymax, q) == q.1 * w + (q.0 - 500 + ymax),
        ;
    }
    if q.1 < p.1 {
        assert(code(ymax, q) < code(ymax, p)) by (nonlinear_arith)
            requires
                q.1 < p.1,
                0 <= q.0 - 500 + ymax < w,
                0 <= p.0 - 500 + ymax,
                code(ymax, p) == p.1 * w + (p.0 - 500 + ymax),
                code(ymax, q) == q.1 * w + (q.0 - 500 + ymax),
        ;
    }
}

/// Drops grains until one does not come to rest; how many did.
fn pour(f: &mut Field) -> (r: u64)
    requires
        old(f).wf(),
    ensures
        pours(old(f).tiles_fn(), old(f).ymax as int, r as nat),
{
    let ghost t0 = f.tiles_fn();
    let ghost ymax = f.ymax as int;
    let ghost n = (ymax + 1) * (2 * ymax + 1);
    let ghost mut placed: Set<int> = Set::empty();
    let mut run: u64 = 0;
    proof {
        vstd::set_lib::lemma_int_range(0, n);
        assert(0 <= n <= 100_001 * 200_001) by (nonlinear_arith)
            requires
                0 <= ymax <= 100_000,
                n == (ymax + 1) * (2 * ymax + 1),
        ;
    }
    loop
        invariant
            f.wf(),
            ymax == f.ymax,
            t0 == old(f).tiles_fn(),
            ymax == old(f).ymax,
            n == (ymax + 1) * (2 * ymax + 1),
            0 <= n <= 100_001 * 200_001,
            after(t0, ymax, run as nat) == Some(f.tiles_fn()),
            placed.finite(),
            placed.subset_of(vstd::set_lib::set_int_range(0, n)),
            placed.len() == run,
            forall|c: int|
                #[trigger] placed.contains(c) ==> exists|a: int, b: int|
                    0 <= b <= ymax && -b <= a - 500 <= b && code(ymax, (a, b)) == c && f.tile(a, b) == Some(Tile::Sand),
        decreases n - placed.len(),
    {
        let ghost before = f.tiles_fn();
        let ghost d = drop_spec(before, ymax);
        proof {
            vstd::set_lib::lemma_int_range(0, n);
            vstd::set_lib::lemma_len_subset(placed, vstd::set_lib::set_int_range(0, n));
        }
        if !f.add_sand() {
            proof {
                assert(d is None);
            }
            return run;
        }
        proof {
            let p = d->Some_0;
            lemma_settle(before, ymax, 500, 0);
            lemma_code(ymax, p, p);
            let c = code(ymax, p);
            assert(!placed.contains(c)) by {
                if placed.contains(c) {
                    let (a, b) = choose|a: int, b: int|
                        0 <= b <= ymax && -b <= a - 500 <= b && code(ymax, (a, b)) == c && before(a, b) == Some(Tile::Sand);
                    lemma_code(ymax, p, (a, b));
                }
            }
            let placed2 = placed.insert(c);
            assert forall|c2: int| #[trigger] placed2.contains(c2) implies exists|a: int, b: int|
                0 <= b <= ymax && -b <= a - 500 <= b && code(ymax, (a, b)) == c2 && f.tile(a, b) == Some(Tile::Sand) by {
                if c2 == c {
                    assert(f.tiles_fn()(p.0, p.1) == Some(Tile::Sand));
                } else {
                    let (a, b) = choose|a: int, b: int|
                        0 <= b <= ymax && -b <= a - 500 <= b && code(ymax, (a, b)) == c2 && before(a, b) == Some(Tile::Sand);
                    assert(f.tiles_fn()(a, b) == Some(Tile::Sand));
                }
            }
            assert(placed2.len() == placed.len() + 1);
            assert(placed2.subset_of(vstd::set_lib::set_int_range(0, n)));
            vstd::set_lib::lemma_len_subset(placed2, vstd::set_lib::set_int_range(0, n));
            placed = placed2;
        }
        run += 1;
    }
}

/// The number of grains that come to rest before one falls out.
pub fn part_one(mut f: Field) -> (r: u64)
    requires
        f.wf(),
    ensures
        pours(f.tiles_fn(), f.ymax as int, r as nat),
{
    pour(&mut f)
}

/// The number of grains that come to rest on a floor two rows below the
/// lowest wall before the source is covered.
pub fn part_two(mut f: Field) -> (r: u64)
    requires
        f.wf(),
        f.ymax < MAX_Y,
    ensures
        ({
            let t = |x: int, y: int| if y > f.ymax + 1 {
                Some(Tile::Wall)
            } else if f.xmin <= x <= f.xmax && 0 <= y <= f.ymax {
                f.tile(x, y)
            } else {
                Some(Tile::Empty)
            };
            pours(t, f.ymax + 1, r as nat)
        }),
{
    let ghost t = |x: int, y: int| if y > f.ymax + 1 {
        Some(Tile::Wall)
    } else if f.xmin <= x <= f.xmax && 0 <= y <= f.ymax {
        f.tile(x, y)
    } else {
        Some(Tile::Empty)
    };
    f.add_floor();
    proof {
        assert(f.tiles_fn() =~= t);
    }
    pour(&mut f)
}

pub open spec fn min(a: int, b: int) -> int {
    if a <= b {
        a
    } else {
        b
    }
}

pub open spec fn max(a: int, b: int) -> int {
    if a >= b {
        a
    } else {
        b
    }
}

/// `(x, y)` lies on the wall from `p` to `q`: a column where their `x`
/// agree, else a row at the height of `p`.
pub open spec fn on_segment(p: (int, int), q: (int, int), x: int, y: int) -> bool {
    if p.0 == q.0 {
        x == p.0 && min(p.1, q.1) <= y <= max(p.1, q.1)
    } else {
        y == p.1 && min(p.0, q.0) <= x <= max(p.0, q.0)
    }
}

impl Field {
    pub open spec fn in_bounds(&self, x: int, y: int) -> bool {
        self.xmin <= x <= self.xmax && 0 <= y <= self.ymax
    }

    /// Builds the wall from `p` to `q`.
    fn mark_segment(&mut self, p: (i64, i64), q: (i64, i64))
        requires
            old(self).wf(),
            !old(self).floor,
            old(self).in_bounds(p.0 as int, p.1 as int),
            old(self).in_bounds(q.0 as int, q.1 as int),
        ensures
            final(self).wf(),
            !final(self).floor,
            final(self).xmin == old(self).xmin,
            final(self).xmax == old(self).xmax,
            final(self).ymax == old(self).ymax,
            forall|x: int, y: int|
                #[trigger] final(self).tile(x, y) == if old(self).in_bounds(x, y) && on_segment(
                    (p.0 as int, p.1 as int),
                    (q.0 as int, q.1 as int),
                    x,
                    y,
                ) {
                    Some(Tile::Wall)
                } else {
                    old(self).tile(x, y)
                },
    {
        let (lo, hi) = if p.0 == q.0 {
            if p.1 <= q.1 { (p.1, q.1) } else { (q.1, p.1) }
        } else {
            if p.0 <= q.0 { (p.0, q.0) } else { (q.0, p.0) }
        };
        let mut c = lo;
        while c <= hi
            invariant
                self.wf(),
                !self.floor,
                self.xmin == old(self).xmin,
                self.xmax == old(self).xmax,
                self.ymax == old(self).ymax,
                self.ymin == 0,
                old(self).in_bounds(p.0 as int, p.1 as int),
                old(self).in_bounds(q.0 as int, q.1 as int),
                lo <= c <= hi + 1,
                p.0 == q.0 ==> lo == min(p.1 as int, q.1 as int) && hi == max(p.1 as int, q.1 as int),
                p.0 != q.0 ==> lo == min(p.0 as int, q.0 as int) && hi == max(p.0 as int, q.0 as int),
                forall|x: int, y: int|
                    #[trigger] self.tile(x, y) == if old(self).in_bounds(x, y) && on_segment(
                        (p.0 as int, p.1 as int),
                        (q.0 as int, q.1 as int),
                        x,
                        y,
                    ) && (if p.0 == q.0 { y < c } else { x < c }) {
                        Some(Tile::Wall)
                    } else {
                        old(self).tile(x, y)
                    },
            decreases hi + 1 - c,
        {
            let (x, y) = if p.0 == q.0 { (p.0, c) } else { (c, p.1) };
            let i = (x - self.xmin) as usize;
            let j = y as usize;
            let ghost mid = self.tiles@;
            let ghost pre = *self;
            proof {
                assert(self.tiles@[i as int].len() == self.ymax + 1);
            }
            self.tiles[i].set(j, Tile::Wall);
            proof {
                assert forall|a: int, b: int| #[trigger] self.tile(a, b) == if old(self).in_bounds(a, b) && on_segment(
                    (p.0 as int, p.1 as int),
                    (q.0 as int, q.1 as int),
                    a,
                    b,
                ) && (if p.0 == q.0 { b < c + 1 } else { a < c + 1 }) {
                    Some(Tile::Wall)
                } else {
                    old(self).tile(a, b)
                } by {
                    assert(pre.tile(a, b) == if old(self).in_bounds(a, b) && on_segment(
                        (p.0 as int, p.1 as int),
                        (q.0 as int, q.1 as int),
                        a,
                        b,
                    ) && (if p.0 == q.0 { b < c } else { a < c }) {
                        Some(Tile::Wall)
                    } else {
                        old(self).tile(a, b)
                    });
                    if self.in_bounds(a, b) {
                        if a - self.xmin != i {
                            assert(self.tiles@[a - self.xmin] == mid[a - self.xmin]);
                        } else if b != j {
                            assert(self.tiles@[i as int]@[b] == mid[i as int]@[b]);
                        }
                    }
                }
                assert forall|k: int| 0 <= k < self.tiles.len() implies (#[trigger] self.tiles@[k]).len() == self.ymax + 1 by {
                    if k != i {
                        assert(self.tiles@[k] == mid[k]);
                    }
                }
            }
            c += 1;
        }
    }
}

/// The point that the word `w` writes as `x,y`, within the field's limits.
pub open spec fn spec_point(w: Seq<char>) -> Option<(int, int)> {
    match split_first(w, ',') {
        Some((a, b)) => if is_number(a) && is_number(b) && digits_value(a) <= MAX_X && digits_value(b) < MAX_Y {
            Some((digits_value(a) as int, digits_value(b) as int))
        } else {
            None
        },
        None => None,
    }
}

/// The corners of the wall that the line `l` writes: points separated by
/// `" -> "`.
pub open spec fn spec_path(l: Seq<char>) -> Option<Seq<(int, int)>> {
    let w = split_on(l, ' ');
    if w.len() % 2 == 1 && (forall|k: int| 0 <= k < w.len() && k % 2 == 1 ==> #[trigger] w[k] == "->"@) && (forall|k: int|
        0 <= k < w.len() && k % 2 == 0 ==> spec_point(#[trigger] w[k]) is Some) {
        Some(Seq::new(((w.len() + 1) / 2) as nat, |k: int| spec_point(w[2 * k])->Some_0))
    } else {
        None
    }
}

fn read_point(w: &Vec<char>) -> (r: Option<(i64, i64)>)
    ensures
        match r {
            Some(p) => spec_point(w@) == Some((p.0 as int, p.1 as int)),
            None => spec_point(w@) is None,
        },
{
    match split_once(w, ',') {
        None => None,
        Some((a, b)) => match (parse_decimal(&a, MAX_X as u64), parse_decimal(&b, MAX_Y as u64)) {
            (Some(x), Some(y)) => if y < MAX_Y as u64 {
                Some((x as i64, y as i64))
            } else {
                None
            },
            _ => None,
        },
    }
}

fn read_path(l: &Vec<char>) -> (r: Option<Vec<(i64, i64)>>)
    ensures
        match r {
            Some(v) => spec_path(l@) == Some(v@.map_values(|p: (i64, i64)| (p.0 as int, p.1 as int))),
            None => spec_path(l@) is None,
        },
{
    let w = split_chars(l, ' ');
    let ghost ws = split_on(l@, ' ');
    let arrow = chars_of("->");
    if w.len() % 2 != 1 {
        return None;
    }
    let mut out: Vec<(i64, i64)> = Vec::new();
    let mut k: usize = 0;
    while k < w.len()
        invariant
            ws == split_on(l@, ' '),
            rows_view(&w) == ws,
            arrow@ == "->"@,
            w.len() % 2 == 1,
            k <= w.len(),
            k % 2 == 0 ==> out.len() == k / 2,
            k % 2 == 1 ==> out.len() == k / 2 + 1,
            forall|j: int| 0 <= j < k && j % 2 == 1 ==> #[trigger] ws[j] == "->"@,
            forall|j: int| 0 <= j < k && j % 2 == 0 ==> spec_point(#[trigger] ws[j]) is Some,
            forall|j: int| 0 <= j < out.len() ==> spec_point(ws[2 * j]) == Some(((#[trigger] out@[j]).0 as int, out@[j].1 as int)),
        decreases w.len() - k,
    {
        proof {
            assert(w@[k as int]@ == ws[k as int]);
        }
        if k % 2 == 1 {
            if !same_chars(&w[k], &arrow) {
                return None;
            }
        } else {
            match read_point(&w[k]) {
                Some(p) => {
                    out.push(p);
                },
                None => {
                    return None;
                },
            }
        }
        k += 1;
    }
    proof {
        let want = Seq::new(((ws.len() + 1) / 2) as nat, |j: int| spec_point(ws[2 * j])->Some_0);
        assert(out@.map_values(|p: (i64, i64)| (p.0 as int, p.1 as int)) =~= want);
    }
    Some(out)
}

pub open spec fn pts(v: Seq<(i64, i64)>) -> Seq<(int, int)> {
    v.map_values(|p: (i64, i64)| (p.0 as int, p.1 as int))
}

/// The corners of the walls, one path per line.
pub open spec fn paths_of(ls: Seq<Seq<char>>) -> Seq<Seq<(int, int)>> {
    Seq::new(ls.len(), |i: int| spec_path(ls[i])->Some_0)
}

/// A wall of path `a` before path `i`, or of path `i` before its corner
/// `k`, covers `(x, y)`.
pub open spec fn wall_before(ps: Seq<Seq<(int, int)>>, i: int, k: int, x: int, y: int) -> bool {
    exists|a: int, b: int|
        0 <= a < ps.len() && 1 <= b < ps[a].len() && (a < i || (a == i && b < k)) && #[trigger] on_segment(
            ps[a][b - 1],
            ps[a][b],
            x,
            y,
        )
}

/// Some wall of the paths covers `(x, y)`.
pub open spec fn wall_at(ps: Seq<Seq<(int, int)>>, x: int, y: int) -> bool {
    wall_before(ps, ps.len() as int, 0, x, y)
}

/// `lo`, `hi` and `top` bound every corner of the paths and the source; each
/// is the source's or some corner's.
pub open spec fn bounds_of(ps: Seq<Seq<(int, int)>>, lo: int, hi: int, top: int) -> bool {
    &&& lo <= 500 <= hi && 0 <= top
    &&& forall|i: int, k: int|
        0 <= i < ps.len() && 0 <= k < ps[i].len() ==> lo <= (#[trigger] ps[i][k]).0 <= hi && 0 <= ps[i][k].1 <= top
    &&& (lo == 500 || exists|i: int, k: int| 0 <= i < ps.len() && 0 <= k < ps[i].len() && (#[trigger] ps[i][k]).0 == lo)
    &&& (hi == 500 || exists|i: int, k: int| 0 <= i < ps.len() && 0 <= k < ps[i].len() && (#[trigger] ps[i][k]).0 == hi)
    &&& (top == 0 || exists|i: int, k: int| 0 <= i < ps.len() && 0 <= k < ps[i].len() && (#[trigger] ps[i][k]).1 == top)
}

impl Field {
    /// The field that the wall paths of `s` build, one path per line: the
    /// columns and rows from the source to the farthest corner, walls where
    /// the paths run, empty elsewhere, no floor.
    pub fn from_str(s: &str) -> (r: Option<Field>)
        ensures
            match r {
                Some(f) => ({
                    let ls = lines_of(s@);
                    let ps = paths_of(ls);
                    &&& forall|i: int| 0 <= i < ls.len() ==> spec_path(#[trigger] ls[i]) is Some
                    &&& f.wf() && !f.floor
                    &&& bounds_of(ps, f.xmin as int, f.xmax as int, f.ymax as int)
                    &&& forall|x: int, y: int|
                        f.in_bounds(x, y) ==> #[trigger] f.tile(x, y) == Some(
                            if wall_at(ps, x, y) {
                                Tile::Wall
                            } else {
                                Tile::Empty
                            },
                        )
                }),
                None => exists|i: int| 0 <= i < lines_of(s@).len() && spec_path(#[trigger] lines_of(s@)[i]) is None,
            },
    {
        let lines = char_lines(s);
        let ghost ls = lines_of(s@);
        let ghost ps = paths_of(ls);
        let mut paths: Vec<Vec<(i64, i64)>> = Vec::new();
        let mut i: usize = 0;
        while i < lines.len()
            invariant
                ls == lines_of(s@),
                ps == paths_of(ls),
                rows_view(&lines) == ls,
                i <= lines.len(),
                paths.len() == i,
                forall|j: int| 0 <= j < i ==> spec_path(#[trigger] ls[j]) is Some,
                forall|j: int| 0 <= j < i ==> pts((#[trigger] paths@[j])@) == ps[j],
            decreases lines.len() - i,
        {
            proof {
                assert(lines@[i as int]@ == ls[i as int]);
            }
            match read_path(&lines[i]) {
                Some(v) => {
                    paths.push(v);
                },
                None => {
                    return None;
                },
            }
            i += 1;
        }
        let mut xmin: i64 = 500;
        let mut xmax: i64 = 500;
        let mut ymax: i64 = 0;
        let mut a: usize = 0;
        while a < paths.len()
            invariant
                ps == paths_of(ls),
                ps.len() == paths.len(),
                forall|j: int| 0 <= j < paths.len() ==> pts((#[trigger] paths@[j])@) == ps[j],
                forall|j: int| 0 <= j < ls.len() ==> spec_path(#[trigger] ls[j]) is Some,
                ls.len() == paths.len(),
                a <= paths.len(),
                -MAX_X <= xmin <= 500 <= xmax <= MAX_X,
                0 <= ymax < MAX_Y,
                bounds_of(ps.subrange(0, a as int), xmin as int, xmax as int, ymax as int),
            decreases paths.len() - a,
        {
            let path = &paths[a];
            let ghost pa = ps[a as int];
            proof {
                assert(pts(path@) == pa);
                assert(spec_path(ls[a as int]) is Some);
            }
            let mut k: usize = 0;
            proof {
                let q0 = ps.subrange(0, a as int);
                let q1 = q0.push(pa.subrange(0, 0));
                assert forall|i2: int, k2: int| 0 <= i2 < q0.len() && 0 <= k2 < q0[i2].len() implies q1[i2][k2] == q0[i2][k2] by {}
                assert(bounds_of(q1, xmin as int, xmax as int, ymax as int)) by {
                    if xmin != 500 {
                        let (i3, k3) = choose|i3: int, k3: int| 0 <= i3 < q0.len() && 0 <= k3 < q0[i3].len() && (#[trigger] q0[i3][k3]).0 == xmin;
                        assert(q1[i3][k3] == q0[i3][k3]);
                    }
                    if xmax != 500 {
                        let (i3, k3) = choose|i3: int, k3: int| 0 <= i3 < q0.len() && 0 <= k3 < q0[i3].len() && (#[trigger] q0[i3][k3]).0 == xmax;
                        assert(q1[i3][k3] == q0[i3][k3]);
                    }
                    if ymax != 0 {
                        let (i3, k3) = choose|i3: int, k3: int| 0 <= i3 < q0.len() && 0 <= k3 < q0[i3].len() && (#[trigger] q0[i3][k3]).1 == ymax;
                        assert(q1[i3][k3] == q0[i3][k3]);
                    }
                }
            }
            while k < path.len()
                invariant
                    ps == paths_of(ls),
                    a < ps.len(),
                    pts(path@) == pa,
                    pa == ps[a as int],
                    spec_path(ls[a as int]) is Some,
                    k <= path.len(),
                    -MAX_X <= xmin <= 500 <= xmax <= MAX_X,
                    0 <= ymax < MAX_Y,
                    bounds_of(ps.subrange(0, a as int).push(pa.subrange(0, k as int)), xmin as int, xmax as int, ymax as int),
                decreases path.len() - k,
            {
                let (x, y) = path[k];
                proof {
                    assert(pa[k as int] == (x as int, y as int));
                    let w = split_on(ls[a as int], ' ');
                    let want = Seq::new(((w.len() + 1) / 2) as nat, |j: int| spec_point(w[2 * j])->Some_0);
                    assert(spec_path(ls[a as int]) == Some(want));
                    assert(pa == want);
                    assert(pa.len() == path.len());
                    assert(w.len() % 2 == 1);
                    let wl = w.len() as int;
                    let kk = k as int;
                    assert(2 * kk < wl) by (nonlinear_arith)
                        requires
                            kk < (wl + 1) / 2,
                            wl % 2 == 1,
                            wl >= 0,
                    ;
                    assert(pa[k as int] == spec_point(w[2 * k])->Some_0);
                    assert(spec_point(w[2 * k]) is Some);
                }
                let ghost q = ps.subrange(0, a as int).push(pa.subrange(0, k as int));
                let ghost (ox, oX, oy) = (xmin as int, xmax as int, ymax as int);
                if x < xmin {
                    xmin = x;
                }
                if x > xmax {
                    xmax = x;
                }
                if y > ymax {
                    ymax = y;
                }
                proof {
                    let q2 = ps.subrange(0, a as int).push(pa.subrange(0, k as int + 1));
                    assert forall|i2: int, k2: int| 0 <= i2 < q2.len() && 0 <= k2 < q2[i2].len() implies q2[i2][k2] == if i2
                        < a { q[i2][k2] } else if k2 < k { q[i2][k2] } else { (x as int, y as int) } by {}
                    assert(bounds_of(q2, xmin as int, xmax as int, ymax as int)) by {
                        if xmin as int != ox && xmin != 500 {
                            assert(q2[a as int][k as int].0 == xmin);
                        }
                        if xmax as int != oX && xmax != 500 {
                            assert(q2[a as int][k as int].0 == xmax);
                        }
                        if ymax as int != oy && ymax != 0 {
                            assert(q2[a as int][k as int].1 == ymax);
                        }
                        if xmin as int == ox && ox != 500 {
                            let (i3, k3) = choose|i3: int, k3: int| 0 <= i3 < q.len() && 0 <= k3 < q[i3].len() && (#[trigger] q[i3][k3]).0 == ox;
                            assert(q2[i3][k3] == q[i3][k3]);
                        }
                        if xmax as int == oX && oX != 500 {
                            let (i3, k3) = choose|i3: int, k3: int| 0 <= i3 < q.len() && 0 <= k3 < q[i3].len() && (#[trigger] q[i3][k3]).0 == oX;
                            assert(q2[i3][k3] == q[i3][k3]);
                        }
                        if ymax as int == oy && oy != 0 {
                            let (i3, k3) = choose|i3: int, k3: int| 0 <= i3 < q.len() && 0 <= k3 < q[i3].len() && (#[trigger] q[i3][k3]).1 == oy;
                            assert(q2[i3][k3] == q[i3][k3]);
                        }
                    }
                }
                k += 1;
            }
            proof {
                assert(pa.subrange(0, k as int) =~= pa);
                assert(ps.subrange(0, a as int).push(pa) =~= ps.subrange(0, a as int + 1));
            }
            a += 1;
        }
        proof {
            assert(ps.subrange(0, a as int) =~= ps);
        }
        let n = (xmax - xmin + 1) as usize;
        let col = (ymax + 1) as usize;
        let mut tiles: Vec<Vec<Tile>> = Vec::new();
        let mut c: usize = 0;
        while c < n
            invariant
                c <= n,
                tiles.len() == c,
                forall|j: int| 0 <= j < c ==> (#[trigger] tiles@[j]).len() == col && forall|y: int|
                    0 <= y < col ==> tiles@[j]@[y] == Tile::Empty,
            decreases n - c,
        {
            tiles.push(empty_column(col));
            c += 1;
        }
        let mut f = Field { tiles, xmin, xmax, ymin: 0, ymax, floor: false };
        let mut a: usize = 0;
        while a < paths.len()
            invariant
                ps == paths_of(ls),
                ps.len() == paths.len(),
                forall|j: int| 0 <= j < paths.len() ==> pts((#[trigger] paths@[j])@) == ps[j],
                forall|j: int| 0 <= j < ls.len() ==> spec_path(#[trigger] ls[j]) is Some,
                ls.len() == paths.len(),
                f.wf(),
                !f.floor,
                f.xmin == xmin && f.xmax == xmax && f.ymax == ymax,
                bounds_of(ps, xmin as int, xmax as int, ymax as int),
                a <= paths.len(),
                forall|x: int, y: int|
                    f.in_bounds(x, y) ==> #[trigger] f.tile(x, y) == Some(
                        if wall_before(ps, a as int, 0, x, y) {
                            Tile::Wall
                        } else {
                            Tile::Empty
                        },
                    ),
            decreases paths.len() - a,
        {
            let path = &paths[a];
            let ghost pa = ps[a as int];
            proof {
                assert(pts(path@) == pa);
            }
            let mut k: usize = 1;
            proof {
                assert forall|x: int, y: int| #[trigger] wall_before(ps, a as int, 0, x, y) == wall_before(ps, a as int, 1, x, y) by {
                    if wall_before(ps, a as int, 1, x, y) {
                        let (a2, b2) = choose|a2: int, b2: int|
                            0 <= a2 < ps.len() && 1 <= b2 < ps[a2].len() && (a2 < a || (a2 == a && b2 < 1)) && #[trigger] on_segment(
                                ps[a2][b2 - 1],
                                ps[a2][b2],
                                x,
                                y,
                            );
                    }
                }
            }
            while k < path.len()
                invariant
                    ps == paths_of(ls),
                    ps.len() == paths.len(),
                    a < paths.len(),
                    pts(path@) == pa,
                    pa == ps[a as int],
                    f.wf(),
                    !f.floor,
                    f.xmin == xmin && f.xmax == xmax && f.ymax == ymax,
                    bounds_of(ps, xmin as int, xmax as int, ymax as int),
                    1 <= k,
                    k <= path.len() || path.len() == 0,
                    forall|x: int, y: int|
                        f.in_bounds(x, y) ==> #[trigger] f.tile(x, y) == Some(
                            if wall_before(ps, a as int, k as int, x, y) {
                                Tile::Wall
                            } else {
                                Tile::Empty
                            },
                        ),
                decreases path.len() - k,
            {
                let p0 = path[k - 1];
                let p1 = path[k];
                proof {
                    assert(pa[k - 1] == (p0.0 as int, p0.1 as int));
                    assert(pa[k as int] == (p1.0 as int, p1.1 as int));
                    assert(ps[a as int][k - 1] == pa[k - 1]);
                    assert(ps[a as int][k as int] == pa[k as int]);
                }
                let ghost fb = f;
                f.mark_segment(p0, p1);
                proof {
                    assert forall|x: int, y: int| f.in_bounds(x, y) implies #[trigger] f.tile(x, y) == Some(
                        if wall_before(ps, a as int, k + 1, x, y) {
                            Tile::Wall
                        } else {
                            Tile::Empty
                        },
                    ) by {
                        assert(fb.tile(x, y) == Some(
                            if wall_before(ps, a as int, k as int, x, y) {
                                Tile::Wall
                            } else {
                                Tile::Empty
                            },
                        ));
                        if on_segment(pa[k - 1], pa[k as int], x, y) {
                            assert(wall_before(ps, a as int, k + 1, x, y));
                        }
                        if wall_before(ps, a as int, k + 1, x, y) && !wall_before(ps, a as int, k as int, x, y) {
                            let (a2, b2) = choose|a2: int, b2: int|
                                0 <= a2 < ps.len() && 1 <= b2 < ps[a2].len() && (a2 < a || (a2 == a && b2 < k + 1)) && #[trigger] on_segment(
                                    ps[a2][b2 - 1],
                                    ps[a2][b2],
                                    x,
                                    y,
                                );
                            assert(a2 == a && b2 == k);
                        }
                        if wall_before(ps, a as int, k as int, x, y) {
                            let (a2, b2) = choose|a2: int, b2: int|
                                0 <= a2 < ps.len() && 1 <= b2 < ps[a2].len() && (a2 < a || (a2 == a && b2 < k)) && #[trigger] on_segment(
                                    ps[a2][b2 - 1],
                                    ps[a2][b2],
                                    x,
                                    y,
                                );
                            assert(wall_before(ps, a as int, k + 1, x, y));
                        }
                    }
                }
                k += 1;
            }
            proof {
                assert forall|x: int, y: int| #[trigger] wall_before(ps, a as int + 1, 0, x, y) == wall_before(
                    ps,
                    a as int,
                    k as int,
                    x,
                    y,
                ) by {
                    if wall_before(ps, a as int + 1, 0, x, y) {
                        let (a2, b2) = choose|a2: int, b2: int|
                            0 <= a2 < ps.len() && 1 <= b2 < ps[a2].len() && (a2 < a + 1 || (a2 == a + 1 && b2 < 0)) && #[trigger] on_segment(
                                ps[a2][b2 - 1],
                                ps[a2][b2],
                                x,
                                y,
                            );
                        if a2 == a {
                            assert(b2 < k);
                        }
                    }
                    if wall_before(ps, a as int, k as int, x, y) {
                        let (a2, b2) = choose|a2: int, b2: int|
                            0 <= a2 < ps.len() && 1 <= b2 < ps[a2].len() && (a2 < a || (a2 == a && b2 < k)) && #[trigger] on_segment(
                                ps[a2][b2 - 1],
                                ps[a2][b2],
                                x,
                                y,
                            );
                    }
                }
            }
            a += 1;
        }
        Some(f)
    }
}

} // verus!
