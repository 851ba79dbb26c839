use vstd::prelude::*;

use crate::text::{char_lines, digits_value, is_number, lines_of, parse_decimal, push_char, rows_view};

verus! {

/// Largest amount that one `addx` may add or take away.
pub const MAX_ADD: u64 = 65536;

/// Largest number of instructions that the simulations accept.
pub const MAX_PROG: usize = 16384;

#[derive(Debug, PartialEq, Eq, Clone, Copy, Structural)]
pub enum Instruction {
    Addx(i64),
    Noop,
}

/// The instruction that the line `l` writes: `noop`, or `addx` with a
/// number of at most `MAX_ADD`, signed or not.
pub open spec fn spec_instr(l: Seq<char>) -> Option<Instruction> {
    if l == seq!['n', 'o', 'o', 'p'] {
        Some(Instruction::Noop)
    } else if l.len() > 5 && l.subrange(0, 5) == seq!['a', 'd', 'd', 'x', ' '] {
        let n = l.subrange(5, l.len() as int);
        if n[0] == '-' && is_number(n.drop_first()) && digits_value(n.drop_first()) <= MAX_ADD {
            Some(Instruction::Addx((-digits_value(n.drop_first())) as i64))
        } else if is_number(n) && digits_value(n) <= MAX_ADD {
            Some(Instruction::Addx(digits_value(n) as i64))
        } else {
            None
        }
    } else {
        None
    }
}

fn tail(l: &Vec<char>, from: usize) -> (r: Vec<char>)
    requires
        from <= l.len(),
    ensures
        r@ == l@.subrange(from as int, l.len() as int),
{
    let mut r: Vec<char> = Vec::new();
    let mut i: usize = from;
    while i < l.len()
        invariant
            from <= i <= l.len(),
            r@ == l@.subrange(from as int, i as int),
        decreases l.len() - i,
    {
        r.push(l[i]);
        proof {
            assert(r@ =~= l@.subrange(from as int, i as int + 1));
        }
        i += 1;
    }
    r
}

impl Instruction {
    /// Reads `noop` or `addx <number>`.
    pub fn from_str(l: &Vec<char>) -> (r: Option<Instruction>)
        ensures
            r == spec_instr(l@),
    {
        let noop = vec!['n', 'o', 'o', 'p'];
        if l.len() == 4 && l[0] == 'n' && l[1] == 'o' && l[2] == 'o' && l[3] == 'p' {
            proof {
                assert(l@ =~= seq!['n', 'o', 'o', 'p']);
            }
            return Some(Instruction::Noop);
        }
        proof {
            if l@ == seq!['n', 'o', 'o', 'p'] {
                assert(l@[0] == 'n');
            }
        }
        if !(l.len() > 5 && l[0] == 'a' && l[1] == 'd' && l[2] == 'd' && l[3] == 'x' && l[4] == ' ') {
            proof {
                if l.len() > 5 && l@.subrange(0, 5) == seq!['a', 'd', 'd', 'x', ' '] {
                    assert(l@[0] == l@.subrange(0, 5)[0]);
                    assert(l@[1] == l@.subrange(0, 5)[1]);
                    assert(l@[2] == l@.subrange(0, 5)[2]);
                    assert(l@[3] == l@.subrange(0, 5)[3]);
                    assert(l@[4] == l@.subrange(0, 5)[4]);
                }
            }
            return None;
        }
        proof {
            assert(l@.subrange(0, 5) =~= seq!['a', 'd', 'd', 'x', ' ']);
        }
        let n = tail(l, 5);
        if n[0] == '-' {
            let m = tail(&n, 1);
            proof {
                assert(m@ =~= n@.drop_first());
            }
            match parse_decimal(&m, MAX_ADD) {
                Some(v) => Some(Instruction::Addx(-(v as i64))),
                None => None,
            }
        } else {
            match parse_decimal(&n, MAX_ADD) {
                Some(v) => Some(Instruction::Addx(v as i64)),
                None => None,
            }
        }
    }
}

/// The program: one instruction per line. `None` where a line is no
/// instruction.
pub fn parse(input: &str) -> (r: Option<Vec<Instruction>>)
    ensures
        match r {
            Some(v) => v.len() == lines_of(input@).len() && forall|i: int|
                0 <= i < v.len() ==> spec_instr(#[trigger] lines_of(input@)[i]) == Some(v@[i]),
            None => exists|i: int| 0 <= i < lines_of(input@).len() && spec_instr(#[trigger] lines_of(input@)[i]) is None,
        },
{
    let lines = char_lines(input);
    let ghost ls = lines_of(input@);
    let mut out: Vec<Instruction> = Vec::new();
    let mut i: usize = 0;
    while i < lines.len()
        invariant
            ls == lines_of(input@),
            rows_view(&lines) == ls,
            i <= lines.len(),
            out.len() == i,
            forall|j: int| 0 <= j < i ==> spec_instr(#[trigger] ls[j]) == Some(out@[j]),
        decreases lines.len() - i,
    {
        proof {
            assert(lines@[i as int]@ == ls[i as int]);
        }
        match Instruction::from_str(&lines[i]) {
            Some(ins) => out.push(ins),
            None => {
                return None;
            },
        }
        i += 1;
    }
    Some(out)
}

/// Every `addx` of the program adds at most `MAX_ADD` either way.
pub open spec fn small(p: Seq<Instruction>) -> bool {
    forall|i: int|
        0 <= i < p.len() ==> match #[trigger] p[i] {
            Instruction::Addx(v) => -(MAX_ADD as int) <= v <= MAX_ADD,
            Instruction::Noop => true,
        }
}

/// The register after the program `p` has run.
pub open spec fn x_after(p: Seq<Instruction>) -> int
    decreases p.len(),
{
    if p.len() == 0 {
        1
    } else {
        x_after(p.drop_last()) + match p.last() {
            Instruction::Addx(v) => v as int,
            Instruction::Noop => 0,
        }
    }
}

/// The register during each cycle: `noop` takes one cycle, `addx` two, and
/// `addx` changes the register after its second cycle.
pub open spec fn trace(p: Seq<Instruction>) -> Seq<int>
    decreases p.len(),
{
    if p.len() == 0 {
        Seq::empty()
    } else {
        let t = trace(p.drop_last());
        let x = x_after(p.drop_last());
        match p.last() {
            Instruction::Noop => t.push(x),
            Instruction::Addx(_) => t.push(x).push(x),
        }
    }
}

/// The signal strength of cycle `c` (counted from 1) where it is one of the
/// 20th, 60th, 100th, ... cycles, else 0.
pub open spec fn signal(c: int, x: int) -> int {
    if c >= 20 && (c - 20) % 40 == 0 {
        c * x
    } else {
        0
    }
}

/// The sum of the signal strengths over the trace `t`.
pub open spec fn strength(t: Seq<int>) -> int
    decreases t.len(),
{
    if t.len() == 0 {
        0
    } else {
        strength(t.drop_last()) + signal(t.len() as int, t.last())
    }
}

/// What the screen shows in cycle `c` while the sprite stands at `x`: lit
/// where the sprite covers the pixel, with a line break after each 40.
pub open spec fn pixel(c: int, x: int) -> Seq<char> {
    let lit = -1 <= (c - 1) % 40 - x <= 1;
    seq![if lit { '#' } else { '.' }] + if c % 40 == 0 { seq!['\n'] } else { Seq::<char>::empty() }
}

/// The screen drawn over the trace `t`.
pub open spec fn screen(t: Seq<int>) -> Seq<char>
    decreases t.len(),
{
    if t.len() == 0 {
        Seq::empty()
    } else {
        screen(t.drop_last()) + pixel(t.len() as int, t.last())
    }
}

proof fn lemma_trace_len(p: Seq<Instruction>)
    ensures
        trace(p).len() <= 2 * p.len(),
    decreases p.len(),
{
    if p.len() > 0 {
        lemma_trace_len(p.drop_last());
    }
}

proof fn lemma_x_bound(p: Seq<Instruction>)
    requires
        small(p),
    ensures
        -(p.len() * MAX_ADD) + 1 <= x_after(p) <= 1 + p.len() * MAX_ADD,
    decreases p.len(),
{
    if p.len() > 0 {
        assert(small(p.drop_last())) by {
            assert forall|i: int| 0 <= i < p.drop_last().len() implies match #[trigger] p.drop_last()[i] {
                Instruction::Addx(v) => -(MAX_ADD as int) <= v <= MAX_ADD,
                Instruction::Noop => true,
            } by {
                assert(p.drop_last()[i] == p[i]);
            }
        }
        lemma_x_bound(p.drop_last());
        assert(p[p.len() - 1] == p.last());
        assert((p.len() - 1) * MAX_ADD + MAX_ADD == p.len() * MAX_ADD) by (nonlinear_arith);
    }
}

/// Bound on one signal strength, `2 * MAX_PROG * (1 + MAX_PROG * MAX_ADD)`:
/// cycles stay within `2 * MAX_PROG` and the register within
/// `1 + MAX_PROG * MAX_ADD`.
pub open spec fn signal_bound() -> int {
    35184372121600
}

fn signal_of(c: u64, x: i64) -> (r: i64)
    requires
        1 <= c <= 32768,
        -1073741823 <= x <= 1073741825,
    ensures
        r == signal(c as int, x as int),
        -signal_bound() <= r <= signal_bound(),
{
    if c >= 20 && (c - 20) % 40 == 0 {
        proof {
            assert(-signal_bound() <= c * x <= signal_bound()) by (nonlinear_arith)
                requires
                    1 <= c <= 32768,
                    -1073741823 <= x <= 1073741825,
            ;
        }
        (c as i64) * x
    } else {
        0
    }
}

proof fn lemma_prefix_step(p: Seq<Instruction>, i: int)
    requires
        0 <= i < p.len(),
    ensures
        p.subrange(0, i + 1).drop_last() == p.subrange(0, i),
        p.subrange(0, i + 1).last() == p[i],
{
    assert(p.subrange(0, i + 1).drop_last() =~= p.subrange(0, i));
}

/// The sum of the signal strengths of the 20th, 60th, 100th, ... cycles.
pub fn part_one(input: &Vec<Instruction>) -> (r: i64)
    requires
        input.len() <= MAX_PROG,
        small(input@),
    ensures
        r == strength(trace(input@)),
{
    let ghost p = input@;
    let mut x: i64 = 1;
    let mut cycle: u64 = 0;
    let mut acc: i64 = 0;
    let mut i: usize = 0;
    while i < input.len()
        invariant
            p == input@,
            input.len() <= MAX_PROG,
            small(p),
            i <= input.len(),
            x == x_after(p.subrange(0, i as int)),
            cycle == trace(p.subrange(0, i as int)).len(),
            cycle <= 2 * i,
            acc == strength(trace(p.subrange(0, i as int))),
            -(cycle * signal_bound()) <= acc <= cycle * signal_bound(),
        decreases input.len() - i,
    {
        let ghost pre = p.subrange(0, i as int);
        proof {
            lemma_prefix_step(p, i as int);
            lemma_x_bound(pre);
            assert(pre.len() * MAX_ADD <= 1073741824) by (nonlinear_arith)
                requires
                    pre.len() <= 16384,
                    MAX_ADD == 65536,
            ;
            assert(small(pre)) by {
                assert forall|j: int| 0 <= j < pre.len() implies match #[trigger] pre[j] {
                    Instruction::Addx(v) => -(MAX_ADD as int) <= v <= MAX_ADD,
                    Instruction::Noop => true,
                } by {
                    assert(pre[j] == p[j]);
                }
            }
        }
        let ghost t = trace(pre);
        match input[i] {
            Instruction::Noop => {
                cycle += 1;
                let s = signal_of(cycle, x);
                proof {
                    assert(t.push(x as int).drop_last() =~= t);
                    assert(trace(p.subrange(0, i as int + 1)) == t.push(x as int));
                    assert(strength(t.push(x as int)) == strength(t) + signal(cycle as int, x as int));
                    assert(acc + s <= cycle * signal_bound()) by (nonlinear_arith)
                        requires
                            acc <= (cycle - 1) * signal_bound(),
                            s <= signal_bound(),
                    ;
                    assert(acc + s >= -(cycle * signal_bound())) by (nonlinear_arith)
                        requires
                            acc >= -((cycle - 1) * signal_bound()),
                            s >= -signal_bound(),
                    ;
                }
                proof {
                            assert(cycle * signal_bound() <= 32768 * 35184372121600) by (nonlinear_arith)
                        requires
                            cycle <= 32768,
                            signal_bound() == 35184372121600,
                    ;
                }
                acc = acc + s;
            },
            Instruction::Addx(v) => {
                cycle += 1;
                let s1 = signal_of(cycle, x);
                proof {
                    assert(t.push(x as int).drop_last() =~= t);
                    assert(strength(t.push(x as int)) == strength(t) + signal(cycle as int, x as int));
                    assert(acc + s1 <= cycle * signal_bound()) by (nonlinear_arith)
                        requires
                            acc <= (cycle - 1) * signal_bound(),
                            s1 <= signal_bound(),
                    ;
                    assert(acc + s1 >= -(cycle * signal_bound())) by (nonlinear_arith)
                        requires
                            acc >= -((cycle - 1) * signal_bound()),
                            s1 >= -signal_bound(),
                    ;
                }
                proof {
                            assert(cycle * signal_bound() <= 32768 * 35184372121600) by (nonlinear_arith)
                        requires
                            cycle <= 32768,
                            signal_bound() == 35184372121600,
                    ;
                }
                acc = acc + s1;
                cycle += 1;
                let s2 = signal_of(cycle, x);
                proof {
                    assert(t.push(x as int).push(x as int).drop_last() =~= t.push(x as int));
                    assert(trace(p.subrange(0, i as int + 1)) == t.push(x as int).push(x as int));
                    assert(strength(t.push(x as int).push(x as int)) == strength(t.push(x as int)) + signal(
                        cycle as int,
                        x as int,
                    ));
                    assert(acc + s2 <= cycle * signal_bound()) by (nonlinear_arith)
                        requires
                            acc <= (cycle - 1) * signal_bound(),
                            s2 <= signal_bound(),
                    ;
                    assert(acc + s2 >= -(cycle * signal_bound())) by (nonlinear_arith)
                        requires
                            acc >= -((cycle - 1) * signal_bound()),
                            s2 >= -signal_bound(),
                    ;
                }
                proof {
                            assert(cycle * signal_bound() <= 32768 * 35184372121600) by (nonlinear_arith)
                        requires
                            cycle <= 32768,
                            signal_bound() == 35184372121600,
                    ;
                }
                acc = acc + s2;
                proof {
                    assert(p[i as int] == input@[i as int]);
                    assert(-(MAX_ADD as int) <= v <= MAX_ADD);
                }
                x = x + v;
            },
        }
        i += 1;
    }
    proof {
        assert(p.subrange(0, i as int) =~= p);
    }
    acc
}

/// Draws the pixel of cycle `c` at the end of `s`.
fn draw(s: &mut String, c: u64, x: i64)
    requires
        1 <= c <= 32768,
        -1073741823 <= x <= 1073741825,
    ensures
        final(s)@ == old(s)@ + pixel(c as int, x as int),
{
    let pos = ((c - 1) % 40) as i64;
    let lit = x - 1 <= pos && pos <= x + 1;
    let ghost before = s@;
    if lit {
        push_char(s, '#');
    } else {
        push_char(s, '.');
    }
    if c % 40 == 0 {
        push_char(s, '\n');
    }
    proof {
        assert(s@ =~= before + pixel(c as int, x as int));
    }
}

/// The picture that the sprite draws on the screen, one line per 40 cycles.
pub fn part_two(input: &Vec<Instruction>) -> (r: String)
    requires
        input.len() <= MAX_PROG,
        small(input@),
    ensures
        r@ == screen(trace(input@)),
{
    let ghost p = input@;
    let mut x: i64 = 1;
    let mut cycle: u64 = 0;
    let mut s = String::new();
    let mut i: usize = 0;
    while i < input.len()
        invariant
            p == input@,
            input.len() <= MAX_PROG,
            small(p),
            i <= input.len(),
            x == x_after(p.subrange(0, i as int)),
            cycle == trace(p.subrange(0, i as int)).len(),
            cycle <= 2 * i,
            s@ == screen(trace(p.subrange(0, i as int))),
        decreases input.len() - i,
    {
        let ghost pre = p.subrange(0, i as int);
        proof {
            lemma_prefix_step(p, i as int);
            lemma_x_bound(pre);
            assert(pre.len() * MAX_ADD <= 1073741824) by (nonlinear_arith)
                requires
                    pre.len() <= 16384,
                    MAX_ADD == 65536,
            ;
        }
        let ghost t = trace(pre);
        match input[i] {
            Instruction::Noop => {
                cycle += 1;
                draw(&mut s, cycle, x);
                proof {
                    assert(t.push(x as int).drop_last() =~= t);
                    assert(trace(p.subrange(0, i as int + 1)) == t.push(x as int));
                    assert(screen(t.push(x as int)) == screen(t) + pixel(cycle as int, x as int));
                }
            },
            Instruction::Addx(v) => {
                cycle += 1;
                draw(&mut s, cycle, x);
                cycle += 1;
                draw(&mut s, cycle, x);
                proof {
                    assert(t.push(x as int).drop_last() =~= t);
                    assert(t.push(x as int).push(x as int).drop_last() =~= t.push(x as int));
                    assert(trace(p.subrange(0, i as int + 1)) == t.push(x as int).push(x as int));
                    assert(screen(t.push(x as int)) == screen(t) + pixel(cycle - 1, x as int));
                    assert(screen(t.push(x as int).push(x as int)) == screen(t.push(x as int)) + pixel(
                        cycle as int,
                        x as int,
                    ));
                    assert(s@ =~= screen(t.push(x as int).push(x as int)));
                    assert(p[i as int] == input@[i as int]);
                    assert(-(MAX_ADD as int) <= v <= MAX_ADD);
                }
                x = x + v;
            },
        }
        i += 1;
    }
    proof {
        assert(p.subrange(0, i as int) =~= p);
    }
    s
}

} // verus!
