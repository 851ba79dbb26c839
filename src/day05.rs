use vstd::prelude::*;

use crate::text::{
    char_lines, digits_value, is_number, lines_of, parse_decimal, push_char, rows_view, split_chars,
    split_on,
};

verus! {

/// Largest number that an instruction may hold.
pub const MAX_MOVE: u64 = 0xffff_ffff;

pub open spec fn stacks_view(v: &Vec<Vec<char>>) -> Seq<Seq<char>> {
    v@.map_values(|r: Vec<char>| r@)
}

/// The characters of `s` that are not spaces, counted.
pub open spec fn non_spaces(s: Seq<char>) -> nat
    decreases s.len(),
{
    if s.len() == 0 {
        0
    } else {
        non_spaces(s.drop_last()) + if s.last() == ' ' { 0nat } else { 1nat }
    }
}

/// The crates of stack `i` in the first `rows` rows of the drawing `d`,
/// bottom first: row `rows - 1` is the lowest, and a crate stands at
/// position `1 + 4 * i` of a row unless that is a space.
pub open spec fn column(d: Seq<Seq<char>>, i: int, rows: int) -> Seq<char>
    decreases rows,
{
    if rows <= 0 {
        Seq::empty()
    } else {
        let c = d[rows - 1][1 + 4 * i];
        let above = column(d, i, rows - 1);
        if c == ' ' {
            above
        } else {
            seq![c] + above
        }
    }
}

/// The words of `l` read `move <n> from <a> to <b>`.
pub open spec fn spec_move(l: Seq<char>) -> Option<(u64, u64, u64)> {
    let w = split_on(l, ' ');
    if w.len() == 6 && w[0] == seq!['m', 'o', 'v', 'e'] && w[2] == seq!['f', 'r', 'o', 'm'] && w[4] == seq!['t', 'o']
        && is_number(w[1]) && is_number(w[3]) && is_number(w[5]) && digits_value(w[1]) <= MAX_MOVE
        && digits_value(w[3]) <= MAX_MOVE && digits_value(w[5]) <= MAX_MOVE {
        Some((digits_value(w[1]) as u64, digits_value(w[3]) as u64, digits_value(w[5]) as u64))
    } else {
        None
    }
}

fn word_is(w: &Vec<char>, p: &Vec<char>) -> (r: bool)
    ensures
        r == (w@ == p@),
{
    crate::text::same_chars(w, p)
}

fn parse_move(l: &Vec<char>) -> (r: Option<(u64, u64, u64)>)
    ensures
        r == spec_move(l@),
{
    let w = split_chars(l, ' ');
    let ghost ws = split_on(l@, ' ');
    if w.len() != 6 {
        return None;
    }
    proof {
        assert(w@[0]@ == ws[0] && w@[1]@ == ws[1] && w@[2]@ == ws[2]);
        assert(w@[3]@ == ws[3] && w@[4]@ == ws[4] && w@[5]@ == ws[5]);
    }
    let mv = vec!['m', 'o', 'v', 'e'];
    let fr = vec!['f', 'r', 'o', 'm'];
    let to = vec!['t', 'o'];
    proof {
        assert(mv@ =~= seq!['m', 'o', 'v', 'e']);
        assert(fr@ =~= seq!['f', 'r', 'o', 'm']);
        assert(to@ =~= seq!['t', 'o']);
    }
    if !word_is(&w[0], &mv) || !word_is(&w[2], &fr) || !word_is(&w[4], &to) {
        return None;
    }
    match (parse_decimal(&w[1], MAX_MOVE), parse_decimal(&w[3], MAX_MOVE), parse_decimal(&w[5], MAX_MOVE)) {
        (Some(n), Some(a), Some(b)) => Some((n, a, b)),
        _ => None,
    }
}

/// Line `e` is the first empty line of `ls`.
pub open spec fn blank_at(ls: Seq<Seq<char>>, e: int) -> bool {
    &&& 0 <= e < ls.len()
    &&& ls[e].len() == 0
    &&& forall|k: int| 0 <= k < e ==> (#[trigger] ls[k]).len() != 0
}

/// Every row of the drawing above the numbers reaches each of the `n` stacks.
pub open spec fn rows_ok(d: Seq<Seq<char>>, n: int) -> bool {
    n > 0 ==> forall|r: int| 0 <= r < d.len() - 1 ==> 4 * n - 3 < (#[trigger] d[r]).len()
}

/// Every line after line `e` is an instruction.
pub open spec fn moves_ok(ls: Seq<Seq<char>>, e: int) -> bool {
    forall|k: int| e < k < ls.len() ==> spec_move(#[trigger] ls[k]) is Some
}

/// A drawing of at least one line, an empty line, then instructions.
pub open spec fn input_ok(ls: Seq<Seq<char>>) -> bool {
    exists|e: int|
        #[trigger] blank_at(ls, e) && e >= 1 && rows_ok(ls.subrange(0, e), non_spaces(ls[e - 1]) as int) && moves_ok(
            ls,
            e,
        )
}

/// The stacks and instructions read from the lines `ls` whose first empty
/// line is line `e`.
pub open spec fn read_from(ls: Seq<Seq<char>>, e: int, st: Seq<Seq<char>>, ins: Seq<(u64, u64, u64)>) -> bool {
    let d = ls.subrange(0, e);
    &&& st.len() == non_spaces(d.last())
    &&& forall|i: int| 0 <= i < st.len() ==> #[trigger] st[i] == column(d, i, e - 1)
    &&& ins.len() == ls.len() - e - 1
    &&& forall|k: int| 0 <= k < ins.len() ==> spec_move(#[trigger] ls[e + 1 + k]) == Some(ins[k])
}

/// The drawing of the stacks (the lines before the first empty line, the
/// last of them numbering the stacks) and the instructions after it.
pub fn parse(input: &str) -> (r: Option<(Vec<Vec<char>>, Vec<(u64, u64, u64)>)>)
    ensures
        match r {
            Some((st, ins)) => exists|e: int| #[trigger] blank_at(lines_of(input@), e) && read_from(lines_of(input@), e, stacks_view(&st), ins@),
            None => !input_ok(lines_of(input@)),
        },
{
    let lines = char_lines(input);
    let ghost ls = lines_of(input@);
    let mut e: usize = 0;
    while e < lines.len() && lines[e].len() != 0
        invariant
            ls == lines_of(input@),
            rows_view(&lines) == ls,
            e <= lines.len(),
            forall|k: int| 0 <= k < e ==> (#[trigger] ls[k]).len() != 0,
        decreases lines.len() - e,
    {
        proof {
            assert(lines@[e as int]@ == ls[e as int]);
        }
        e += 1;
    }
    if e == lines.len() {
        proof {
            assert(!input_ok(ls)) by {
                if input_ok(ls) {
                    let x = choose|x: int| #[trigger] blank_at(ls, x) && x >= 1 && rows_ok(ls.subrange(0, x), non_spaces(ls[x - 1]) as int) && moves_ok(ls, x);
                }
            }
        }
        return None;
    }
    proof {
        assert(lines@[e as int]@ == ls[e as int]);
        assert(blank_at(ls, e as int));
    }
    if e == 0 {
        proof {
            assert(!input_ok(ls)) by {
                if input_ok(ls) {
                    let x = choose|x: int| #[trigger] blank_at(ls, x) && x >= 1 && rows_ok(ls.subrange(0, x), non_spaces(ls[x - 1]) as int) && moves_ok(ls, x);
                    assert(ls[0].len() != 0);
                }
            }
        }
        return None;
    }
    let ghost d = ls.subrange(0, e as int);
    let numbers = &lines[e - 1];
    proof {
        assert(numbers@ == d.last());
    }
    let mut n: usize = 0;
    let mut k: usize = 0;
    while k < numbers.len()
        invariant
            k <= numbers.len(),
            n == non_spaces(numbers@.subrange(0, k as int)),
            n <= k,
        decreases numbers.len() - k,
    {
        proof {
            assert(numbers@.subrange(0, k as int + 1).drop_last() =~= numbers@.subrange(0, k as int));
        }
        if numbers[k] != ' ' {
            n += 1;
        }
        k += 1;
    }
    proof {
        assert(numbers@.subrange(0, k as int) =~= numbers@);
    }
    let mut stacks: Vec<Vec<char>> = Vec::new();
    let mut i: usize = 0;
    while i < n
        invariant
            ls == lines_of(input@),
            rows_view(&lines) == ls,
            blank_at(ls, e as int),
            1 <= e < lines.len(),
            d == ls.subrange(0, e as int),
            n == non_spaces(d.last()),
            i <= n,
            stacks.len() == i,
            forall|j: int| 0 <= j < i ==> (#[trigger] stacks@[j])@ == column(d, j, e - 1),
            i > 0 ==> forall|x: int| 0 <= x < d.len() - 1 ==> 4 * i - 3 < (#[trigger] d[x]).len(),
        decreases n - i,
    {
        let mut st: Vec<char> = Vec::new();
        let mut r: usize = e - 1;
        proof {
            assert(Seq::<char>::empty() + column(d, i as int, r as int) =~= column(d, i as int, e - 1));
        }
        while r > 0
            invariant
                ls == lines_of(input@),
                rows_view(&lines) == ls,
                blank_at(ls, e as int),
                1 <= e < lines.len(),
                d == ls.subrange(0, e as int),
                r <= e - 1,
                i < n,
                n == non_spaces(d.last()),
                st@ + column(d, i as int, r as int) == column(d, i as int, e - 1),
                forall|x: int| r <= x < d.len() - 1 ==> 1 + 4 * i < (#[trigger] d[x]).len(),
            decreases r,
        {
            let row = &lines[r - 1];
            proof {
                assert(row@ == d[r - 1]);
            }
            if i > (usize::MAX - 1) / 4 || row.len() <= 1 + 4 * i {
                proof {
                    assert(!input_ok(ls)) by {
                        if input_ok(ls) {
                            let x = choose|x: int| #[trigger] blank_at(ls, x) && x >= 1 && rows_ok(ls.subrange(0, x), non_spaces(ls[x - 1]) as int) && moves_ok(ls, x);
                            assert(x == e);
                            assert(d[r - 1].len() > 4 * n - 3);
                        }
                    }
                }
                return None;
            }
            let c = row[1 + 4 * i];
            let ghost before = st@;
            if c != ' ' {
                st.push(c);
            }
            proof {
                let rest = column(d, i as int, r - 1);
                if c != ' ' {
                    assert(st@ + rest =~= before + (seq![c] + rest));
                } else {
                    assert(st@ + rest =~= before + column(d, i as int, r as int));
                }
            }
            r -= 1;
        }
        proof {
            assert(st@ =~= column(d, i as int, e - 1));
        }
        stacks.push(st);
        i += 1;
    }
    let mut ins: Vec<(u64, u64, u64)> = Vec::new();
    let mut k: usize = e + 1;
    while k < lines.len()
        invariant
            ls == lines_of(input@),
            rows_view(&lines) == ls,
            blank_at(ls, e as int),
            1 <= e < lines.len(),
            d == ls.subrange(0, e as int),
            e + 1 <= k <= lines.len(),
            ins.len() == k - e - 1,
            forall|j: int| 0 <= j < ins.len() ==> spec_move(#[trigger] ls[e + 1 + j]) == Some(ins@[j]),
        decreases lines.len() - k,
    {
        proof {
            assert(lines@[k as int]@ == ls[k as int]);
        }
        match parse_move(&lines[k]) {
            Some(m) => {
                ins.push(m);
                proof {
                    assert(ls[e + 1 + (ins.len() - 1)] == ls[k as int]);
                }
            },
            None => {
                proof {
                    assert(!input_ok(ls)) by {
                        if input_ok(ls) {
                            let x = choose|x: int| #[trigger] blank_at(ls, x) && x >= 1 && rows_ok(ls.subrange(0, x), non_spaces(ls[x - 1]) as int) && moves_ok(ls, x);
                            assert(x == e);
                            assert(spec_move(ls[k as int]) is Some);
                        }
                    }
                }
                return None;
            },
        }
        k += 1;
    }
    proof {
        assert(stacks_view(&stacks).len() == n);
        assert forall|j: int| 0 <= j < n implies #[trigger] stacks_view(&stacks)[j] == column(d, j, e - 1) by {
            assert(stacks_view(&stacks)[j] == stacks@[j]@);
        }
    }
    Some((stacks, ins))
}

/// Moves the top crate of stack `from` onto stack `to`.
pub open spec fn pop_push(st: Seq<Seq<char>>, from: int, to: int) -> Seq<Seq<char>> {
    let c = st[from].last();
    let s1 = st.update(from, st[from].drop_last());
    s1.update(to, s1[to].push(c))
}

/// Moves `k` crates one at a time; `None` where a stack runs empty.
pub open spec fn one_by_one(st: Seq<Seq<char>>, k: nat, from: int, to: int) -> Option<Seq<Seq<char>>>
    decreases k,
{
    if k == 0 {
        Some(st)
    } else if st[from].len() == 0 {
        None
    } else {
        one_by_one(pop_push(st, from, to), (k - 1) as nat, from, to)
    }
}

/// Moves the top `k` crates of stack `from` at once, keeping their order;
/// all of them where the stack holds fewer.
pub open spec fn chunk(st: Seq<Seq<char>>, k: int, from: int, to: int) -> Seq<Seq<char>> {
    let len = st[from].len() as int;
    let cut = if k > len { 0 } else { len - k };
    let tail = st[from].subrange(cut, len);
    let s1 = st.update(from, st[from].subrange(0, cut));
    s1.update(to, s1[to] + tail)
}

/// Each instruction names two of the `n` stacks, counted from 1.
pub open spec fn names_stacks(ins: Seq<(u64, u64, u64)>, n: int) -> bool {
    forall|k: int| 0 <= k < ins.len() ==> 1 <= (#[trigger] ins[k]).1 <= n && 1 <= ins[k].2 <= n
}

/// The stacks after the instructions, crates moved one at a time; `None`
/// where a stack runs empty.
pub open spec fn crane_one(st: Seq<Seq<char>>, ins: Seq<(u64, u64, u64)>) -> Option<Seq<Seq<char>>>
    decreases ins.len(),
{
    if ins.len() == 0 {
        Some(st)
    } else {
        match one_by_one(st, ins[0].0 as nat, ins[0].1 - 1, ins[0].2 - 1) {
            Some(next) => crane_one(next, ins.drop_first()),
            None => None,
        }
    }
}

/// The stacks after the instructions, crates moved together.
pub open spec fn crane_many(st: Seq<Seq<char>>, ins: Seq<(u64, u64, u64)>) -> Seq<Seq<char>>
    decreases ins.len(),
{
    if ins.len() == 0 {
        st
    } else {
        crane_many(chunk(st, ins[0].0 as int, ins[0].1 - 1, ins[0].2 - 1), ins.drop_first())
    }
}

/// The top crate of each non-empty stack.
pub open spec fn tops(st: Seq<Seq<char>>) -> Seq<char>
    decreases st.len(),
{
    if st.len() == 0 {
        Seq::empty()
    } else {
        tops(st.drop_last()) + if st.last().len() > 0 { seq![st.last().last()] } else { Seq::<char>::empty() }
    }
}

fn top_string(stacks: &Vec<Vec<char>>) -> (r: String)
    ensures
        r@ == tops(stacks_view(stacks)),
{
    let ghost v = stacks_view(stacks);
    let mut s = String::new();
    let mut i: usize = 0;
    while i < stacks.len()
        invariant
            v == stacks_view(stacks),
            i <= stacks.len(),
            s@ == tops(v.subrange(0, i as int)),
        decreases stacks.len() - i,
    {
        proof {
            assert(v.subrange(0, i as int + 1).drop_last() =~= v.subrange(0, i as int));
            assert(v[i as int] == stacks@[i as int]@);
        }
        let n = stacks[i].len();
        if n > 0 {
            let c = stacks[i][n - 1];
            push_char(&mut s, c);
        }
        proof {
            assert(s@ =~= tops(v.subrange(0, i as int + 1)));
        }
        i += 1;
    }
    proof {
        assert(v.subrange(0, i as int) =~= v);
    }
    s
}

proof fn lemma_drop_step(ins: Seq<(u64, u64, u64)>, i: int)
    requires
        0 <= i < ins.len(),
    ensures
        ins.subrange(i, ins.len() as int)[0] == ins[i],
        ins.subrange(i, ins.len() as int).drop_first() == ins.subrange(i + 1, ins.len() as int),
{
    assert(ins.subrange(i, ins.len() as int).drop_first() =~= ins.subrange(i + 1, ins.len() as int));
}

/// Follows the instructions moving one crate at a time, and reads the top
/// crate of each stack; `None` where an instruction takes from an empty stack.
pub fn part_one(instructions: &Vec<(u64, u64, u64)>, stacks: &mut Vec<Vec<char>>) -> (r: Option<String>)
    requires
        names_stacks(instructions@, old(stacks).len() as int),
    ensures
        match crane_one(stacks_view(old(stacks)), instructions@) {
            Some(fin) => r is Some && stacks_view(final(stacks)) == fin && r->Some_0@ == tops(fin),
            None => r is None,
        },
{
    let ghost goal = crane_one(stacks_view(stacks), instructions@);
    let ghost ins = instructions@;
    let n = stacks.len();
    proof {
        assert(ins.subrange(0, ins.len() as int) =~= ins);
    }
    let mut i: usize = 0;
    while i < instructions.len()
        invariant
            ins == instructions@,
            names_stacks(ins, n as int),
            stacks.len() == n,
            i <= ins.len(),
            goal == crane_one(stacks_view(old(stacks)), ins),
            goal == crane_one(stacks_view(stacks), ins.subrange(i as int, ins.len() as int)),
        decreases ins.len() - i,
    {
        let (k, from, to) = instructions[i];
        proof {
            lemma_drop_step(ins, i as int);
            assert(ins[i as int] == (k, from, to));
        }
        let f = from as usize - 1;
        let t = to as usize - 1;
        let mut j: u64 = 0;
        while j < k
            invariant
                ins == instructions@,
                names_stacks(ins, n as int),
                stacks.len() == n,
                i < ins.len(),
                f < n,
                t < n,
                j <= k,
                goal == crane_one(stacks_view(old(stacks)), ins),
                goal == match one_by_one(stacks_view(stacks), (k - j) as nat, f as int, t as int) {
                    Some(next) => crane_one(next, ins.subrange(i as int + 1, ins.len() as int)),
                    None => None,
                },
            decreases k - j,
        {
            let ghost v = stacks_view(stacks);
            proof {
                assert(v[f as int] == stacks@[f as int]@);
            }
            if stacks[f].len() == 0 {
                proof {
                    assert(one_by_one(v, (k - j) as nat, f as int, t as int) is None);
                }
                return None;
            }
            let o = match stacks[f].pop() {
                Some(c) => c,
                None => ' ',
            };
            stacks[t].push(o);
            proof {
                assert(stacks_view(stacks) =~= pop_push(v, f as int, t as int));
            }
            j += 1;
        }
        i += 1;
    }
    proof {
        assert(ins.subrange(i as int, ins.len() as int) =~= Seq::<(u64, u64, u64)>::empty());
    }
    Some(top_string(stacks))
}

/// Follows the instructions moving the crates of each instruction together,
/// and reads the top crate of each stack.
pub fn part_two(instructions: &Vec<(u64, u64, u64)>, stacks: &mut Vec<Vec<char>>) -> (r: String)
    requires
        names_stacks(instructions@, old(stacks).len() as int),
    ensures
        stacks_view(final(stacks)) == crane_many(stacks_view(old(stacks)), instructions@),
        r@ == tops(stacks_view(final(stacks))),
{
    let ghost goal = crane_many(stacks_view(stacks), instructions@);
    let ghost ins = instructions@;
    let n = stacks.len();
    proof {
        assert(ins.subrange(0, ins.len() as int) =~= ins);
    }
    let mut i: usize = 0;
    while i < instructions.len()
        invariant
            ins == instructions@,
            names_stacks(ins, n as int),
            stacks.len() == n,
            i <= ins.len(),
            goal == crane_many(stacks_view(stacks), ins.subrange(i as int, ins.len() as int)),
        decreases ins.len() - i,
    {
        let (k, from, to) = instructions[i];
        proof {
            lemma_drop_step(ins, i as int);
            assert(ins[i as int] == (k, from, to));
        }
        let f = from as usize - 1;
        let t = to as usize - 1;
        let ghost v = stacks_view(stacks);
        let len = stacks[f].len();
        let cut = if k as u128 > len as u128 { 0 } else { len - k as usize };
        proof {
            assert(v[f as int] == stacks@[f as int]@);
        }
        let mut tail = stacks[f].split_off(cut);
        let ghost tail_v = tail@;
        stacks[t].append(&mut tail);
        proof {
            assert(tail_v =~= v[f as int].subrange(cut as int, len as int));
            assert(stacks_view(stacks) =~= chunk(v, k as int, f as int, t as int));
        }
        i += 1;
    }
    proof {
        assert(ins.subrange(i as int, ins.len() as int) =~= Seq::<(u64, u64, u64)>::empty());
    }
    top_string(stacks)
}

} // verus!
