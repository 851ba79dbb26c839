use vstd::prelude::*;

use crate::text::{char_lines, digits_value, lines_of, parse_decimal, rows_view, split_first, split_once, is_number};

verus! {

/// Largest number of steps that one instruction may ask for.
pub const MAX_STEPS: u64 = 0xffff_ffff;

/// Largest number of steps that the simulations accept in all.
pub const MAX_TOTAL: i64 = 0x1_0000_0000_0000;

#[derive(Debug, PartialEq, Eq, Clone, Copy, Structural)]
pub enum Direction {
    R,
    L,
    U,
    D,
    UR,
    UL,
    DR,
    DL,
}

#[derive(Debug, PartialEq, Eq, Clone, Copy, Structural)]
pub struct Instruction {
    pub dir: Direction,
    pub len: usize,
}

pub open spec fn delta(d: Direction) -> (int, int) {
    match d {
        Direction::R => (1, 0),
        Direction::L => (-1, 0),
        Direction::U => (0, 1),
        Direction::D => (0, -1),
        Direction::UR => (1, 1),
        Direction::UL => (-1, 1),
        Direction::DR => (1, -1),
        Direction::DL => (-1, -1),
    }
}

pub open spec fn moved(p: (int, int), d: Direction) -> (int, int) {
    (p.0 + delta(d).0, p.1 + delta(d).1)
}

pub open spec fn abs(x: int) -> int {
    if x < 0 {
        -x
    } else {
        x
    }
}

/// Where a knot at `t` goes when the knot before it stands at `h`: one step
/// towards it, straight or diagonal, once they are no longer touching.
pub open spec fn follow_pos(t: (int, int), h: (int, int)) -> (int, int) {
    if abs(t.0 - h.0) > 1 && t.1 == h.1 {
        moved(t, if t.0 < h.0 { Direction::R } else { Direction::L })
    } else if abs(t.1 - h.1) > 1 && t.0 == h.0 {
        moved(t, if t.1 < h.1 { Direction::U } else { Direction::D })
    } else if abs(t.1 - h.1) > 1 || abs(t.0 - h.0) > 1 {
        if t.0 < h.0 && t.1 < h.1 {
            moved(t, Direction::UR)
        } else if t.0 < h.0 {
            moved(t, Direction::DR)
        } else if t.1 < h.1 {
            moved(t, Direction::UL)
        } else {
            moved(t, Direction::DL)
        }
    } else {
        t
    }
}

/// Knots from `i` on follow, each the knot before it as it now stands.
pub open spec fn chain(r: Seq<(int, int)>, i: int) -> Seq<(int, int)>
    decreases r.len() - i,
{
    if i <= 0 || i >= r.len() {
        r
    } else {
        chain(r.update(i, follow_pos(r[i], r[i - 1])), i + 1)
    }
}

/// One step of the head in direction `d`, the other knots following.
pub open spec fn rope_step(r: Seq<(int, int)>, d: Direction) -> Seq<(int, int)> {
    chain(r.update(0, moved(r[0], d)), 1)
}

/// The single steps of the instructions.
pub open spec fn dirs_of(ins: Seq<Instruction>) -> Seq<Direction>
    decreases ins.len(),
{
    if ins.len() == 0 {
        Seq::empty()
    } else {
        dirs_of(ins.drop_last()) + Seq::new(ins.last().len as nat, |k: int| ins.last().dir)
    }
}

/// The `n` knots after the steps `ds`, all starting at the origin.
pub open spec fn rope_after(n: nat, ds: Seq<Direction>) -> Seq<(int, int)>
    decreases ds.len(),
{
    if ds.len() == 0 {
        Seq::new(n, |k: int| (0int, 0int))
    } else {
        rope_step(rope_after(n, ds.drop_last()), ds.last())
    }
}

/// The positions that knot `i` of `n` takes over the steps `ds`.
pub open spec fn knot_seen(n: nat, ds: Seq<Direction>, i: int) -> Set<(int, int)>
    decreases ds.len(),
{
    if ds.len() == 0 {
        set![(0int, 0int)]
    } else {
        knot_seen(n, ds.drop_last(), i).insert(rope_after(n, ds)[i])
    }
}

/// The number of single steps of the instructions.
pub open spec fn total_len(ins: Seq<Instruction>) -> int
    decreases ins.len(),
{
    if ins.len() == 0 {
        0
    } else {
        total_len(ins.drop_last()) + ins.last().len
    }
}

/// A knot at `(x, y)` with the positions it has taken.
pub struct Marker {
    pub x: i64,
    pub y: i64,
    pub visited: Vec<(i64, i64)>,
}

pub open spec fn pos_view(v: Seq<(i64, i64)>) -> Seq<(int, int)> {
    v.map_values(|p: (i64, i64)| (p.0 as int, p.1 as int))
}

impl Marker {
    pub open spec fn pos(&self) -> (int, int) {
        (self.x as int, self.y as int)
    }

    /// The positions taken, as a set.
    pub open spec fn seen(&self) -> Set<(int, int)> {
        pos_view(self.visited@).to_set()
    }

    /// The visited positions hold the current one, each once.
    pub open spec fn wf(&self) -> bool {
        &&& pos_view(self.visited@).no_duplicates()
        &&& self.seen().contains(self.pos())
    }

    /// A knot at the origin.
    pub fn new() -> (r: Marker)
        ensures
            r.wf(),
            r.pos() == (0int, 0int),
            r.seen() == set![(0int, 0int)],
    {
        let mut visited: Vec<(i64, i64)> = Vec::new();
        visited.push((0, 0));
        let r = Marker { x: 0, y: 0, visited };
        proof {
            assert(pos_view(r.visited@) =~= seq![(0int, 0int)]);
            assert(seq![(0int, 0int)].to_set() =~= set![(0int, 0int)]) by {
                assert(seq![(0int, 0int)][0] == (0int, 0int));
            }
        }
        r
    }

    /// Adds the current position to the visited ones.
    fn record(&mut self)
        requires
            pos_view(old(self).visited@).no_duplicates(),
        ensures
            final(self).wf(),
            final(self).pos() == old(self).pos(),
            final(self).seen() == old(self).seen().insert(old(self).pos()),
    {
        let ghost before = pos_view(self.visited@);
        let mut i: usize = 0;
        while i < self.visited.len()
            invariant
                before == pos_view(self.visited@),
                before == pos_view(old(self).visited@),
                self.pos() == old(self).pos(),
                before.no_duplicates(),
                i <= self.visited.len(),
                forall|j: int| 0 <= j < i ==> self.visited@[j] != (self.x, self.y),
            decreases self.visited.len() - i,
        {
            let (a, b) = self.visited[i];
            if a == self.x && b == self.y {
                proof {
                    assert(before[i as int] == self.pos());
                    assert(before.to_set().contains(self.pos()));
                    assert(before.to_set().insert(self.pos()) =~= before.to_set());
                }
                return;
            }
            i += 1;
        }
        let p = (self.x, self.y);
        self.visited.push(p);
        proof {
            let now = pos_view(self.visited@);
            assert(now =~= before.push(self.pos()));
            before.lemma_push_to_set_commute(self.pos());
            assert forall|j: int| 0 <= j < before.len() implies before[j] != self.pos() by {
                assert(self.visited@[j] != p);
            }
            assert(now.no_duplicates()) by {
                assert forall|a: int, b: int| 0 <= a < now.len() && 0 <= b < now.len() && a != b implies now[a] != now[b] by {
                    if a < before.len() && b < before.len() {
                        assert(now[a] == before[a] && now[b] == before[b]);
                    }
                }
            }
            assert(now.to_set().contains(self.pos())) by {
                assert(now[before.len() as int] == self.pos());
            }
        }
    }

    /// Moves the knot one step in direction `dir` and records its place.
    pub fn move_dir(&mut self, dir: &Direction)
        requires
            old(self).wf(),
            -MAX_TOTAL <= old(self).x <= MAX_TOTAL,
            -MAX_TOTAL <= old(self).y <= MAX_TOTAL,
        ensures
            final(self).wf(),
            final(self).pos() == moved(old(self).pos(), *dir),
            final(self).seen() == old(self).seen().insert(final(self).pos()),
    {
        match dir {
            Direction::R => self.x += 1,
            Direction::L => self.x -= 1,
            Direction::U => self.y += 1,
            Direction::D => self.y -= 1,
            Direction::UR => {
                self.x += 1;
                self.y += 1;
            },
            Direction::UL => {
                self.x -= 1;
                self.y += 1;
            },
            Direction::DR => {
                self.y -= 1;
                self.x += 1;
            },
            Direction::DL => {
                self.y -= 1;
                self.x -= 1;
            },
        }
        self.record();
    }

    /// Moves the knot after the knot at `(hx, hy)`.
    pub fn follow(&mut self, hx: i64, hy: i64)
        requires
            old(self).wf(),
            -MAX_TOTAL <= old(self).x <= MAX_TOTAL,
            -MAX_TOTAL <= old(self).y <= MAX_TOTAL,
            -MAX_TOTAL <= hx <= MAX_TOTAL,
            -MAX_TOTAL <= hy <= MAX_TOTAL,
        ensures
            final(self).wf(),
            final(self).pos() == follow_pos(old(self).pos(), (hx as int, hy as int)),
            final(self).seen() == old(self).seen().insert(final(self).pos()),
    {
        let dx = if self.x < hx { hx - self.x } else { self.x - hx };
        let dy = if self.y < hy { hy - self.y } else { self.y - hy };
        if dx > 1 && self.y == hy {
            if self.x < hx {
                self.move_dir(&Direction::R);
            } else {
                self.move_dir(&Direction::L);
            }
        } else if dy > 1 && self.x == hx {
            if self.y < hy {
                self.move_dir(&Direction::U);
            } else {
                self.move_dir(&Direction::D);
            }
        } else if dy > 1 || dx > 1 {
            if self.x < hx && self.y < hy {
                self.move_dir(&Direction::UR);
            } else if self.x < hx {
                self.move_dir(&Direction::DR);
            } else if self.y < hy {
                self.move_dir(&Direction::UL);
            } else {
                self.move_dir(&Direction::DL);
            }
        } else {
            proof {
                assert(old(self).seen().insert(self.pos()) =~= old(self).seen());
            }
        }
    }
}

/// The instruction that `l` writes: a direction letter, a space, a number of
/// steps of at most `MAX_STEPS`.
pub open spec fn spec_instruction(l: Seq<char>) -> Option<Instruction> {
    match split_first(l, ' ') {
        Some((a, b)) => {
            let dir = if a == seq!['R'] {
                Some(Direction::R)
            } else if a == seq!['L'] {
                Some(Direction::L)
            } else if a == seq!['U'] {
                Some(Direction::U)
            } else if a == seq!['D'] {
                Some(Direction::D)
            } else {
                None
            };
            if dir is Some && is_number(b) && digits_value(b) <= MAX_STEPS {
                Some(Instruction { dir: dir->Some_0, len: digits_value(b) as usize })
            } else {
                None
            }
        },
        None => None,
    }
}

impl Instruction {
    /// Reads `<direction> <steps>`.
    pub fn from_str(l: &Vec<char>) -> (r: Option<Instruction>)
        ensures
            r == spec_instruction(l@),
    {
        match split_once(l, ' ') {
            None => None,
            Some((a, b)) => {
                let dir = if a.len() != 1 {
                    None
                } else if a[0] == 'R' {
                    Some(Direction::R)
                } else if a[0] == 'L' {
                    Some(Direction::L)
                } else if a[0] == 'U' {
                    Some(Direction::U)
                } else if a[0] == 'D' {
                    Some(Direction::D)
                } else {
                    None
                };
                proof {
                    if a.len() == 1 {
                        assert(a@ =~= seq![a@[0]]);
                    } else {
                        assert(seq!['R'].len() == 1);
                    }
                }
                match (dir, parse_decimal(&b, MAX_STEPS)) {
                    (Some(d), Some(n)) => Some(Instruction { dir: d, len: n as usize }),
                    _ => None,
                }
            },
        }
    }
}

/// One instruction per line; `None` where a line is none.
pub fn parse(input: &str) -> (r: Option<Vec<Instruction>>)
    ensures
        match r {
            Some(v) => v.len() == lines_of(input@).len() && forall|i: int|
                0 <= i < v.len() ==> spec_instruction(#[trigger] lines_of(input@)[i]) == Some(v@[i]),
            None => exists|i: int| 0 <= i < lines_of(input@).len() && spec_instruction(#[trigger] lines_of(input@)[i]) is None,
        },
{
    let lines = char_lines(input);
    let ghost ls = lines_of(input@);
    let mut out: Vec<Instruction> = Vec::new();
    let mut i: usize = 0;
    while i < lines.len()
        invariant
            ls == lines_of(input@),
            rows_view(&lines) == ls,
            i <= lines.len(),
            out.len() == i,
            forall|j: int| 0 <= j < i ==> spec_instruction(#[trigger] ls[j]) == Some(out@[j]),
        decreases lines.len() - i,
    {
        proof {
            assert(lines@[i as int]@ == ls[i as int]);
        }
        match Instruction::from_str(&lines[i]) {
            Some(ins) => out.push(ins),
            None => {
                return None;
            },
        }
        i += 1;
    }
    Some(out)
}

proof fn lemma_total_prefix(ins: Seq<Instruction>, i: int)
    requires
        0 <= i <= ins.len(),
    ensures
        0 <= total_len(ins.subrange(0, i)) <= total_len(ins),
    decreases ins.len(),
{
    if i < ins.len() {
        assert(ins.subrange(0, i) =~= ins.drop_last().subrange(0, i));
        lemma_total_prefix(ins.drop_last(), i);
    } else {
        assert(ins.subrange(0, i) =~= ins);
        if ins.len() > 0 {
            lemma_total_prefix(ins.drop_last(), ins.len() - 1);
            assert(ins.drop_last().subrange(0, ins.len() - 1) =~= ins.drop_last());
        }
    }
}

pub open spec fn positions(rope: Seq<Marker>) -> Seq<(int, int)> {
    rope.map_values(|m: Marker| m.pos())
}

/// Every coordinate of the knots is at most `b` away from the origin.
pub open spec fn within(rope: Seq<Marker>, b: int) -> bool {
    forall|k: int| 0 <= k < rope.len() ==> -b <= (#[trigger] rope[k]).x <= b && -b <= rope[k].y <= b
}

proof fn lemma_chain_step(p: Seq<(int, int)>, k: int)
    requires
        1 <= k < p.len(),
    ensures
        chain(p, k) == chain(p.update(k, follow_pos(p[k], p[k - 1])), k + 1),
{
}

/// The number of positions that the last of `n` knots takes while the head
/// follows the instructions.
pub fn simulate(input: &Vec<Instruction>, n: usize) -> (r: usize)
    requires
        n >= 2,
        total_len(input@) <= MAX_TOTAL,
    ensures
        r == knot_seen(n as nat, dirs_of(input@), n - 1).len(),
{
    let ghost ins = input@;
    let mut rope: Vec<Marker> = Vec::new();
    let mut k: usize = 0;
    while k < n
        invariant
            k <= n,
            rope.len() == k,
            forall|m: int| 0 <= m < k ==> (#[trigger] rope@[m]).wf() && rope@[m].pos() == (0int, 0int)
                && rope@[m].seen() == set![(0int, 0int)],
        decreases n - k,
    {
        rope.push(Marker::new());
        k += 1;
    }
    let ghost mut done: Seq<Direction> = Seq::empty();
    proof {
        assert(positions(rope@) =~= rope_after(n as nat, done));
        assert(ins.subrange(0, 0) =~= Seq::<Instruction>::empty());
    }
    let mut i: usize = 0;
    while i < input.len()
        invariant
            ins == input@,
            n >= 2,
            total_len(ins) <= MAX_TOTAL,
            rope.len() == n,
            i <= ins.len(),
            done == dirs_of(ins.subrange(0, i as int)),
            done.len() == total_len(ins.subrange(0, i as int)),
            positions(rope@) == rope_after(n as nat, done),
            forall|m: int| 0 <= m < n ==> (#[trigger] rope@[m]).wf() && rope@[m].seen() == knot_seen(n as nat, done, m),
            within(rope@, done.len() as int),
        decreases ins.len() - i,
    {
        let ins_i = input[i];
        let d = ins_i.dir;
        proof {
            lemma_total_prefix(ins, i as int + 1);
            assert(ins.subrange(0, i as int + 1).drop_last() =~= ins.subrange(0, i as int));
            assert(ins.subrange(0, i as int + 1).last() == ins_i);
        }
        let ghost base = done;
        let mut j: usize = 0;
        while j < ins_i.len
            invariant
                ins == input@,
                n >= 2,
                total_len(ins) <= MAX_TOTAL,
                rope.len() == n,
                i < ins.len(),
                ins_i == ins[i as int],
                d == ins_i.dir,
                j <= ins_i.len,
                base == dirs_of(ins.subrange(0, i as int)),
                base.len() + ins_i.len <= MAX_TOTAL,
                done == base + Seq::new(j as nat, |x: int| d),
                positions(rope@) == rope_after(n as nat, done),
                forall|m: int| 0 <= m < n ==> (#[trigger] rope@[m]).wf() && rope@[m].seen() == knot_seen(n as nat, done, m),
                within(rope@, done.len() as int),
            decreases ins_i.len - j,
        {
            let ghost r0 = positions(rope@);
            let ghost next = done.push(d);
            proof {
                assert(next.drop_last() =~= done);
                assert(rope@[0].pos() == r0[0]);
            }
            rope[0].move_dir(&d);
            let ghost headed = r0.update(0, moved(r0[0], d));
            proof {
                assert(positions(rope@) =~= headed);
            }
            let mut k: usize = 1;
            while k < n
                invariant
                    n >= 2,
                    rope.len() == n,
                    1 <= k <= n,
                    next == done.push(d),
                    done.len() + 1 <= MAX_TOTAL,
                    r0 == rope_after(n as nat, done),
                    chain(headed, 1) == chain(positions(rope@), k as int),
                    forall|m: int| 0 <= m < n ==> (#[trigger] rope@[m]).wf(),
                    forall|m: int| 0 <= m < k ==> (#[trigger] rope@[m]).seen() == knot_seen(n as nat, done, m).insert(rope@[m].pos()),
                    forall|m: int| k <= m < n ==> (#[trigger] rope@[m]).seen() == knot_seen(n as nat, done, m) && rope@[m].pos() == r0[m],
                    within(rope@, done.len() as int + 1),
                decreases n - k,
            {
                let hx = rope[k - 1].x;
                let hy = rope[k - 1].y;
                let ghost pk = positions(rope@);
                proof {
                    lemma_chain_step(pk, k as int);
                    assert(pk[k as int] == rope@[k as int].pos());
                    assert(pk[k - 1] == (hx as int, hy as int));
                }
                rope[k].follow(hx, hy);
                proof {
                    assert(positions(rope@) =~= pk.update(k as int, follow_pos(pk[k as int], pk[k - 1])));
                }
                k += 1;
            }
            proof {
                let fin = positions(rope@);
                assert(chain(fin, n as int) == fin);
                assert(rope_after(n as nat, next) == fin);
                assert forall|m: int| 0 <= m < n implies (#[trigger] rope@[m]).seen() == knot_seen(n as nat, next, m) by {
                    assert(fin[m] == rope@[m].pos());
                }
                assert(done + seq![d] =~= next);
                assert(base + Seq::new((j + 1) as nat, |x: int| d) =~= next) by {
                    assert(base + Seq::new(j as nat, |x: int| d) == done);
                }
            }
            proof {
                done = next;
            }
            j += 1;
        }
        proof {
            assert(dirs_of(ins.subrange(0, i as int + 1)) =~= base + Seq::new(ins_i.len as nat, |x: int| d));
        }
        i += 1;
    }
    proof {
        assert(ins.subrange(0, i as int) =~= ins);
        assert(rope@[n - 1].seen() == knot_seen(n as nat, dirs_of(ins), n - 1));
        pos_view(rope@[n - 1].visited@).unique_seq_to_set();
    }
    rope[n - 1].visited.len()
}

/// The number of positions that the tail of a rope of two knots takes.
pub fn part_one(input: &Vec<Instruction>) -> (r: usize)
    requires
        total_len(input@) <= MAX_TOTAL,
    ensures
        r == knot_seen(2, dirs_of(input@), 1).len(),
{
    simulate(input, 2)
}

/// The number of positions that the tail of a rope of ten knots takes.
pub fn part_two(input: &Vec<Instruction>) -> (r: usize)
    requires
        total_len(input@) <= MAX_TOTAL,
    ensures
        r == knot_seen(10, dirs_of(input@), 9).len(),
{
    simulate(input, 10)
}

} // verus!
