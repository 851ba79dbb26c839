use vstd::prelude::*;

use crate::text::{char_lines, digits_value, is_number, lines_of, parse_decimal, rows_view, split_chars, split_on};

verus! {

/// Largest coordinate, either way, that the parser accepts.
pub const MAX_COORD: u64 = 0x8000_0000;

#[derive(Debug, PartialEq, Eq, Clone, Copy, Structural)]
pub struct Point {
    pub x: i64,
    pub y: i64,
}

#[derive(Debug, PartialEq, Eq, Clone, Copy, Structural)]
pub enum Tile {
    Sensor,
    Beacon,
    Empty,
    NoBeacon,
}

/// The sensors, the beacon closest to each, the distance between them, and
/// the rectangle that the sensors' ranges span.
pub struct Field {
    pub sensors: Vec<Point>,
    pub beacons: Vec<Point>,
    pub dists: Vec<u64>,
    pub xmin: i64,
    pub xmax: i64,
    pub ymin: i64,
    pub ymax: i64,
}

pub open spec fn abs(x: int) -> int {
    if x < 0 {
        -x
    } else {
        x
    }
}

pub open spec fn manhattan(a: Point, x: int, y: int) -> int {
    abs(x - a.x) + abs(y - a.y)
}

impl Field {
    /// Lists of one length, coordinates within `MAX_COORD`, each distance the
    /// one from its sensor to its beacon.
    pub open spec fn wf(&self) -> bool {
        &&& self.beacons.len() == self.sensors.len()
        &&& self.dists.len() == self.sensors.len()
        &&& forall|i: int|
            0 <= i < self.sensors.len() ==> {
                let s = #[trigger] self.sensors@[i];
                let b = self.beacons@[i];
                &&& -MAX_COORD <= s.x <= MAX_COORD && -MAX_COORD <= s.y <= MAX_COORD
                &&& -MAX_COORD <= b.x <= MAX_COORD && -MAX_COORD <= b.y <= MAX_COORD
                &&& self.dists@[i] == manhattan(s, b.x as int, b.y as int)
            }
        &&& -8 * MAX_COORD <= self.xmin && self.xmax <= 8 * MAX_COORD
        &&& -8 * MAX_COORD <= self.ymin && self.ymax <= 8 * MAX_COORD
    }

    pub open spec fn in_bounds(&self, x: int, y: int) -> bool {
        self.xmin <= x <= self.xmax && self.ymin <= y <= self.ymax
    }

    /// Some sensor reaches `(x, y)`.
    pub open spec fn covered(&self, x: int, y: int) -> bool {
        exists|i: int| 0 <= i < self.sensors.len() && manhattan(#[trigger] self.sensors@[i], x, y) <= self.dists@[i]
    }

    pub open spec fn spec_get(&self, x: int, y: int) -> Option<Tile> {
        if !self.in_bounds(x, y) {
            None
        } else if self.beacons@.contains(Point { x: x as i64, y: y as i64 }) {
            Some(Tile::Beacon)
        } else if self.sensors@.contains(Point { x: x as i64, y: y as i64 }) {
            Some(Tile::Sensor)
        } else if self.covered(x, y) {
            Some(Tile::NoBeacon)
        } else {
            Some(Tile::Empty)
        }
    }
}

fn holds_point(v: &Vec<Point>, p: Point) -> (r: bool)
    ensures
        r == v@.contains(p),
{
    let mut i: usize = 0;
    while i < v.len()
        invariant
            i <= v.len(),
            forall|j: int| 0 <= j < i ==> v@[j] != p,
        decreases v.len() - i,
    {
        let q = v[i];
        if q.x == p.x && q.y == p.y {
            proof {
                assert(v@[i as int] == p);
            }
            return true;
        }
        i += 1;
    }
    false
}

fn dist(a: Point, x: i64, y: i64) -> (r: u64)
    requires
        -MAX_COORD <= a.x <= MAX_COORD,
        -MAX_COORD <= a.y <= MAX_COORD,
        -8 * MAX_COORD <= x <= 8 * MAX_COORD,
        -8 * MAX_COORD <= y <= 8 * MAX_COORD,
    ensures
        r == manhattan(a, x as int, y as int),
{
    let dx = if x < a.x { a.x - x } else { x - a.x };
    let dy = if y < a.y { a.y - y } else { y - a.y };
    (dx + dy) as u64
}

impl Field {
    /// The tile at `(x, y)`, `None` outside the rectangle.
    pub fn get(&self, x: i64, y: i64) -> (r: Option<Tile>)
        requires
            self.wf(),
        ensures
            r == self.spec_get(x as int, y as int),
    {
        if !(x <= self.xmax && x >= self.xmin && y <= self.ymax && y >= self.ymin) {
            return None;
        }
        let p = Point { x, y };
        if holds_point(&self.beacons, p) {
            return Some(Tile::Beacon);
        }
        if holds_point(&self.sensors, p) {
            return Some(Tile::Sensor);
        }
        let mut i: usize = 0;
        while i < self.sensors.len()
            invariant
                self.wf(),
                self.in_bounds(x as int, y as int),
                !self.beacons@.contains(p),
                !self.sensors@.contains(p),
                p == (Point { x, y }),
                i <= self.sensors.len(),
                forall|j: int| 0 <= j < i ==> manhattan(#[trigger] self.sensors@[j], x as int, y as int) > self.dists@[j],
            decreases self.sensors.len() - i,
        {
            let s = self.sensors[i];
            proof {
                assert(self.sensors@[i as int] == s);
            }
            if dist(s, x, y) <= self.dists[i] {
                proof {
                    assert(self.covered(x as int, y as int));
                }
                return Some(Tile::NoBeacon);
            }
            i += 1;
        }
        Some(Tile::Empty)
    }

    /// The tile at `(x, y)` and how far down its column the search may jump:
    /// past every cell that the nearest-ending sensor range still covers.
    pub fn get_jump(&self, x: i64, y: i64) -> (r: Option<(Tile, i64)>)
        requires
            self.wf(),
        ensures
            match r {
                Some((t, j)) => {
                    &&& Some(t) == self.spec_get(x as int, y as int)
                    &&& t == Tile::Empty ==> j == 0
                    &&& y + j <= 8 * MAX_COORD + 1
                    &&& t != Tile::Empty ==> j >= 1 && forall|c: int| y <= c < y + j ==> #[trigger] self.covered(x as int, c)
                    &&& t != Tile::Empty ==> forall|c: int|
                        y <= c < y + j && self.in_bounds(x as int, c) ==> #[trigger] self.spec_get(x as int, c) != Some(
                            Tile::Empty,
                        )
                },
                None => self.spec_get(x as int, y as int) is None,
            },
    {
        if !(x <= self.xmax && x >= self.xmin && y <= self.ymax && y >= self.ymin) {
            return None;
        }
        let p = Point { x, y };
        if holds_point(&self.beacons, p) {
            proof {
                let i = choose|i: int| 0 <= i < self.beacons.len() && self.beacons@[i] == p;
                assert(manhattan(self.sensors@[i], x as int, y as int) <= self.dists@[i]);
                assert forall|c: int| y <= c < y + 1 implies #[trigger] self.covered(x as int, c) by {}
            }
            return Some((Tile::Beacon, 1));
        }
        if holds_point(&self.sensors, p) {
            proof {
                let i = choose|i: int| 0 <= i < self.sensors.len() && self.sensors@[i] == p;
                assert(manhattan(self.sensors@[i], x as int, y as int) <= self.dists@[i]);
                assert forall|c: int| y <= c < y + 1 implies #[trigger] self.covered(x as int, c) by {}
            }
            return Some((Tile::Sensor, 1));
        }
        let mut best: Option<i64> = None;
        let mut i: usize = 0;
        while i < self.sensors.len()
            invariant
                self.wf(),
                self.in_bounds(x as int, y as int),
                !self.beacons@.contains(p),
                !self.sensors@.contains(p),
                p == (Point { x, y }),
                i <= self.sensors.len(),
                match best {
                    Some(j) => j >= 1 && y + j <= 8 * MAX_COORD + 1 && (exists|s: int| 0 <= s < i && manhattan(#[trigger] self.sensors@[s], x as int, y as int) <= self.dists@[s])
                        && forall|t: int| y <= t < y + j ==> #[trigger] self.covered(x as int, t),
                    None => forall|s: int| 0 <= s < i ==> manhattan(#[trigger] self.sensors@[s], x as int, y as int) > self.dists@[s],
                },
            decreases self.sensors.len() - i,
        {
            let s = self.sensors[i];
            let d = self.dists[i];
            proof {
                assert(self.sensors@[i as int] == s);
            }
            if dist(s, x, y) <= d {
                let ax = if x < s.x { s.x - x } else { x - s.x };
                let j = (s.y + d as i64 - ax) - y + 1;
                proof {
                    assert forall|t: int| y <= t < y + j implies #[trigger] self.covered(x as int, t) by {
                        assert(manhattan(self.sensors@[i as int], x as int, t) <= self.dists@[i as int]);
                    }
                }
                best = match best {
                    Some(b) => Some(if j < b { j } else { b }),
                    None => Some(j),
                };
            }
            i += 1;
        }
        match best {
            Some(j) => {
                proof {
                    assert forall|t: int| y <= t < y + j && self.in_bounds(x as int, t) implies #[trigger] self.spec_get(x as int, t)
                        != Some(Tile::Empty) by {
                        assert(self.covered(x as int, t));
                    }
                }
                Some((Tile::NoBeacon, j))
            },
            None => Some((Tile::Empty, 0)),
        }
    }
}

/// The number that `s` writes, with an optional minus sign, within
/// `MAX_COORD` either way.
pub open spec fn signed(s: Seq<char>) -> Option<int> {
    if s.len() > 0 && s[0] == '-' {
        if is_number(s.drop_first()) && digits_value(s.drop_first()) <= MAX_COORD {
            Some(-digits_value(s.drop_first()))
        } else {
            None
        }
    } else if is_number(s) && digits_value(s) <= MAX_COORD {
        Some(digits_value(s) as int)
    } else {
        None
    }
}

/// The coordinate that the word `w` writes as `<axis>=<number><end>`.
pub open spec fn coord(w: Seq<char>, axis: char, end: Seq<char>) -> Option<int> {
    if w.len() >= 2 + end.len() && w[0] == axis && w[1] == '=' && w.subrange(w.len() - end.len(), w.len() as int)
        == end {
        signed(w.subrange(2, w.len() - end.len()))
    } else {
        None
    }
}

/// The sensor and the beacon that a line
/// `Sensor at x=<x>, y=<y>: closest beacon is at x=<x>, y=<y>` names.
pub open spec fn spec_line(l: Seq<char>) -> Option<(Point, Point)> {
    let w = split_on(l, ' ');
    if w.len() == 10 && w[0] == seq!['S', 'e', 'n', 's', 'o', 'r'] && w[1] == seq!['a', 't'] && w[4] == seq![
        'c',
        'l',
        'o',
        's',
        'e',
        's',
        't',
    ] && w[5] == seq!['b', 'e', 'a', 'c', 'o', 'n'] && w[6] == seq!['i', 's'] && w[7] == seq!['a', 't'] && coord(
        w[2],
        'x',
        seq![','],
    ) is Some && coord(w[3], 'y', seq![':']) is Some && coord(w[8], 'x', seq![',']) is Some && coord(
        w[9],
        'y',
        Seq::empty(),
    ) is Some {
        Some(
            (
                Point { x: coord(w[2], 'x', seq![','])->Some_0 as i64, y: coord(w[3], 'y', seq![':'])->Some_0 as i64 },
                Point { x: coord(w[8], 'x', seq![','])->Some_0 as i64, y: coord(w[9], 'y', Seq::empty())->Some_0 as i64 },
            ),
        )
    } else {
        None
    }
}

fn read_signed(w: &Vec<char>, from: usize, to: usize) -> (r: Option<i64>)
    requires
        from <= to <= w.len(),
    ensures
        match r {
            Some(v) => signed(w@.subrange(from as int, to as int)) == Some(v as int),
            None => signed(w@.subrange(from as int, to as int)) is None,
        },
{
    let ghost s = w@.subrange(from as int, to as int);
    if from < to && w[from] == '-' {
        let digits = crate::text::copy_range(w, from + 1, to);
        proof {
            assert(digits@ =~= s.drop_first());
        }
        match parse_decimal(&digits, MAX_COORD) {
            Some(v) => Some(-(v as i64)),
            None => None,
        }
    } else {
        let digits = crate::text::copy_range(w, from, to);
        match parse_decimal(&digits, MAX_COORD) {
            Some(v) => Some(v as i64),
            None => None,
        }
    }
}

fn read_coord(w: &Vec<char>, axis: char, end: &Vec<char>) -> (r: Option<i64>)
    ensures
        match r {
            Some(v) => coord(w@, axis, end@) == Some(v as int),
            None => coord(w@, axis, end@) is None,
        },
{
    if w.len() < 2 || w.len() - 2 < end.len() || w[0] != axis || w[1] != '=' {
        return None;
    }
    let cut = w.len() - end.len();
    if !crate::text::stands_at(w, cut, end) {
        return None;
    }
    read_signed(w, 2, cut)
}

fn word_is(w: &Vec<char>, p: &Vec<char>) -> (r: bool)
    ensures
        r == (w@ == p@),
{
    crate::text::same_chars(w, p)
}

fn read_line(l: &Vec<char>) -> (r: Option<(Point, Point)>)
    ensures
        r == spec_line(l@),
{
    let w = split_chars(l, ' ');
    if w.len() != 10 {
        return None;
    }
    let w_sensor = vec!['S', 'e', 'n', 's', 'o', 'r'];
    let w_at = vec!['a', 't'];
    let w_closest = vec!['c', 'l', 'o', 's', 'e', 's', 't'];
    let w_beacon = vec!['b', 'e', 'a', 'c', 'o', 'n'];
    let w_is = vec!['i', 's'];
    let comma = vec![','];
    let colon = vec![':'];
    let nothing: Vec<char> = Vec::new();
    proof {
        assert(w_sensor@ =~= seq!['S', 'e', 'n', 's', 'o', 'r']);
        assert(w_at@ =~= seq!['a', 't']);
        assert(w_closest@ =~= seq!['c', 'l', 'o', 's', 'e', 's', 't']);
        assert(w_beacon@ =~= seq!['b', 'e', 'a', 'c', 'o', 'n']);
        assert(w_is@ =~= seq!['i', 's']);
        assert(comma@ =~= seq![',']);
        assert(colon@ =~= seq![':']);
        assert(nothing@ =~= Seq::<char>::empty());
    }
    if !word_is(&w[0], &w_sensor) || !word_is(&w[1], &w_at) || !word_is(&w[4], &w_closest) || !word_is(
        &w[5],
        &w_beacon,
    ) || !word_is(&w[6], &w_is) || !word_is(&w[7], &w_at) {
        return None;
    }
    match (read_coord(&w[2], 'x', &comma), read_coord(&w[3], 'y', &colon), read_coord(&w[8], 'x', &comma), read_coord(&w[9], 'y', &nothing)) {
        (Some(xs), Some(ys), Some(xb), Some(yb)) => Some((Point { x: xs, y: ys }, Point { x: xb, y: yb })),
        _ => None,
    }
}

/// The rectangle that the sensor ranges of the first `n` pairs span, as
/// `(xmin, xmax, ymin, ymax)`; empty (`i64::MAX` to `i64::MIN`) for none.
pub open spec fn span(ps: Seq<(Point, Point)>, n: int) -> (int, int, int, int)
    decreases n,
{
    if n <= 0 {
        (i64::MAX as int, i64::MIN as int, i64::MAX as int, i64::MIN as int)
    } else {
        let (a, b, c, e) = span(ps, n - 1);
        let s = ps[n - 1].0;
        let d = manhattan(s, ps[n - 1].1.x as int, ps[n - 1].1.y as int);
        (
            if s.x - d < a { s.x - d } else { a },
            if s.x + d > b { s.x + d } else { b },
            if s.y - d < c { s.y - d } else { c },
            if s.y + d > e { s.y + d } else { e },
        )
    }
}

impl Field {
    /// One sensor per line; `None` where a line names none.
    pub fn from_str(s: &str) -> (r: Option<Field>)
        ensures
            match r {
                Some(f) => f.wf() && f.sensors.len() == lines_of(s@).len() && (forall|i: int|
                    0 <= i < f.sensors.len() ==> spec_line(#[trigger] lines_of(s@)[i]) == Some((f.sensors@[i], f.beacons@[i])))
                    && ({
                    let ps = Seq::new(f.sensors.len() as nat, |i: int| (f.sensors@[i], f.beacons@[i]));
                    span(ps, ps.len() as int) == (f.xmin as int, f.xmax as int, f.ymin as int, f.ymax as int)
                }),
                None => exists|i: int| 0 <= i < lines_of(s@).len() && spec_line(#[trigger] lines_of(s@)[i]) is None,
            },
    {
        let lines = char_lines(s);
        let ghost ls = lines_of(s@);
        let mut sensors: Vec<Point> = Vec::new();
        let mut beacons: Vec<Point> = Vec::new();
        let mut dists: Vec<u64> = Vec::new();
        let mut xmin = i64::MAX;
        let mut xmax = i64::MIN;
        let mut ymin = i64::MAX;
        let mut ymax = i64::MIN;
        let mut i: usize = 0;
        while i < lines.len()
            invariant
                ls == lines_of(s@),
                rows_view(&lines) == ls,
                i <= lines.len(),
                sensors.len() == i,
                beacons.len() == i,
                dists.len() == i,
                forall|j: int| 0 <= j < i ==> spec_line(#[trigger] ls[j]) == Some((sensors@[j], beacons@[j])),
                forall|j: int|
                    0 <= j < i ==> {
                        let a = #[trigger] sensors@[j];
                        let b = beacons@[j];
                        &&& -MAX_COORD <= a.x <= MAX_COORD && -MAX_COORD <= a.y <= MAX_COORD
                        &&& -MAX_COORD <= b.x <= MAX_COORD && -MAX_COORD <= b.y <= MAX_COORD
                        &&& dists@[j] == manhattan(a, b.x as int, b.y as int)
                    },
                span(Seq::new(i as nat, |j: int| (sensors@[j], beacons@[j])), i as int) == (xmin as int, xmax as int, ymin as int, ymax as int),
                -8 * MAX_COORD <= xmin && xmax <= 8 * MAX_COORD && -8 * MAX_COORD <= ymin && ymax <= 8 * MAX_COORD,
            decreases lines.len() - i,
        {
            proof {
                assert(lines@[i as int]@ == ls[i as int]);
            }
            let (a, b) = match read_line(&lines[i]) {
                Some(p) => p,
                None => {
                    return None;
                },
            };
            proof {
                assert(-(MAX_COORD as int) <= a.x <= MAX_COORD) by {
                    let w = split_on(ls[i as int], ' ');
                    assert(coord(w[2], 'x', seq![',']) is Some);
                }
                assert(-(MAX_COORD as int) <= a.y <= MAX_COORD);
                assert(-(MAX_COORD as int) <= b.x <= MAX_COORD);
                assert(-(MAX_COORD as int) <= b.y <= MAX_COORD);
            }
            let d = dist(a, b.x, b.y);
            let di = d as i64;
            let ghost prev = Seq::new(i as nat, |j: int| (sensors@[j], beacons@[j]));
            if a.x - di < xmin {
                xmin = a.x - di;
            }
            if a.x + di > xmax {
                xmax = a.x + di;
            }
            if a.y - di < ymin {
                ymin = a.y - di;
            }
            if a.y + di > ymax {
                ymax = a.y + di;
            }
            sensors.push(a);
            beacons.push(b);
            dists.push(d);
            proof {
                let now = Seq::new((i + 1) as nat, |j: int| (sensors@[j], beacons@[j]));
                assert forall|j: int| 0 <= j < i implies now[j] == prev[j] by {}
                assert(span(now, i as int) == span(prev, i as int)) by {
                    lemma_span_prefix(now, prev, i as int);
                }
            }
            i += 1;
        }
        let f = Field { sensors, beacons, dists, xmin, xmax, ymin, ymax };
        Some(f)
    }
}

proof fn lemma_span_prefix(a: Seq<(Point, Point)>, b: Seq<(Point, Point)>, n: int)
    requires
        0 <= n <= a.len(),
        n <= b.len(),
        forall|j: int| 0 <= j < n ==> a[j] == b[j],
    ensures
        span(a, n) == span(b, n),
    decreases n,
{
    if n > 0 {
        lemma_span_prefix(a, b, n - 1);
    }
}

/// Tiles among `x0 .. x0 + n` of row `y` where no beacon can be.
pub open spec fn count_no_beacon(f: &Field, y: int, x0: int, n: int) -> int
    decreases n,
{
    if n <= 0 {
        0
    } else {
        count_no_beacon(f, y, x0, n - 1) + if f.spec_get(x0 + n - 1, y) == Some(Tile::NoBeacon) { 1int } else { 0int }
    }
}

/// The number of positions of row `y` where no beacon can be.
pub fn part_one(f: &Field, y: i64) -> (r: u64)
    requires
        f.wf(),
        f.ymin <= y <= f.ymax,
    ensures
        r == count_no_beacon(f, y as int, f.xmin as int, f.xmax - f.xmin + 1),
{
    let mut no_beacon: u64 = 0;
    if f.xmin > f.xmax {
        return 0;
    }
    let mut x = f.xmin;
    while x <= f.xmax
        invariant
            f.wf(),
            f.ymin <= y <= f.ymax,
            f.xmin <= x <= f.xmax + 1,
            no_beacon == count_no_beacon(f, y as int, f.xmin as int, x - f.xmin),
            no_beacon <= x - f.xmin,
        decreases f.xmax + 1 - x,
    {
        match f.get(x, y) {
            Some(Tile::NoBeacon) => no_beacon += 1,
            _ => {},
        }
        x += 1;
    }
    no_beacon
}

/// `(x, y)` is the first empty tile of the square `0..=max` when the
/// columns are searched one after the other, each from the top.
pub open spec fn first_empty(f: &Field, max: int, x: int, y: int) -> bool {
    &&& 0 <= x <= max && 0 <= y <= max
    &&& f.spec_get(x, y) == Some(Tile::Empty)
    &&& forall|a: int, b: int|
        0 <= a <= max && 0 <= b <= max && (a < x || (a == x && b < y)) ==> #[trigger] f.spec_get(a, b) != Some(
            Tile::Empty,
        )
}

/// The tuning frequency `x * 4000000 + y` of the first empty tile of the
/// square `0..=max`, `None` where the square has no empty tile.
pub fn part_two(f: &Field, max: i64) -> (r: Option<u64>)
    requires
        f.wf(),
        0 <= max <= 8 * MAX_COORD,
        f.xmin <= 0 && max <= f.xmax && f.ymin <= 0 && max <= f.ymax,
    ensures
        match r {
            Some(v) => exists|x: int, y: int| #[trigger] first_empty(f, max as int, x, y) && v == x * 4000000 + y,
            None => forall|x: int, y: int| 0 <= x <= max && 0 <= y <= max ==> #[trigger] f.spec_get(x, y) != Some(Tile::Empty),
        },
{
    let mut x: i64 = 0;
    while x <= max
        invariant
            f.wf(),
            0 <= max <= 8 * MAX_COORD,
            f.xmin <= 0 && max <= f.xmax && f.ymin <= 0 && max <= f.ymax,
            0 <= x <= max + 1,
            forall|a: int, b: int| 0 <= a < x && 0 <= b <= max ==> #[trigger] f.spec_get(a, b) != Some(Tile::Empty),
        decreases max + 1 - x,
    {
        let mut y: i64 = 0;
        while y <= max
            invariant
                f.wf(),
                0 <= max <= 8 * MAX_COORD,
                f.xmin <= 0 && max <= f.xmax && f.ymin <= 0 && max <= f.ymax,
                0 <= x <= max,
                0 <= y,
                y <= 8 * MAX_COORD + 1,
                forall|a: int, b: int| 0 <= a < x && 0 <= b <= max ==> #[trigger] f.spec_get(a, b) != Some(Tile::Empty),
                forall|b: int| 0 <= b < y && b <= max ==> #[trigger] f.spec_get(x as int, b) != Some(Tile::Empty),
            decreases if y <= max { max + 1 - y } else { 0 },
        {
            match f.get_jump(x, y) {
                Some((Tile::Empty, _)) => {
                    proof {
                        assert(first_empty(f, max as int, x as int, y as int));
                    }
                    return Some((x as u64) * 4000000 + y as u64);
                },
                Some((_, jump)) => {
                    proof {
                        assert forall|b: int| 0 <= b < y + jump && b <= max implies #[trigger] f.spec_get(x as int, b)
                            != Some(Tile::Empty) by {
                            if b >= y {
                                assert(f.in_bounds(x as int, b));
                            }
                        }
                    }
                    y += jump;
                },
                None => {
                    y += 1;
                },
            }
        }
        x += 1;
    }
    None
}

} // verus!
