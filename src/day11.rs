use std::collections::VecDeque;
use vstd::prelude::*;

use crate::text::{
    after_prefix, blocks_view, char_blocks, chars_of, copy_range, digits_value, groups_of, is_number,
    lines_of, parse_decimal, rows_view, same_chars, split_chars, split_on, starts,
};

verus! {

#[derive(Debug, PartialEq, Eq, Clone, Copy, Structural)]
pub enum Operation {
    Add,
    Mult,
}

#[derive(Debug, PartialEq, Eq, Clone, Copy, Structural)]
pub enum Term {
    Old,
    Num(u64),
}

/// A monkey: the worry levels of the items it holds, in order, how it
/// changes a worry level, the divisor of its test, the monkeys it throws to,
/// and how many items it has inspected.
pub struct Monkey {
    pub items: VecDeque<u64>,
    pub test: u64,
    pub to_true: usize,
    pub to_false: usize,
    pub op: Operation,
    pub t1: Term,
    pub t2: Term,
    pub inspected: usize,
}

pub struct MonkeyModel {
    pub items: Seq<int>,
    pub test: int,
    pub to_true: int,
    pub to_false: int,
    pub op: Operation,
    pub t1: Term,
    pub t2: Term,
    pub inspected: int,
}

impl Monkey {
    pub open spec fn model(&self) -> MonkeyModel {
        MonkeyModel {
            items: self.items@.map_values(|x: u64| x as int),
            test: self.test as int,
            to_true: self.to_true as int,
            to_false: self.to_false as int,
            op: self.op,
            t1: self.t1,
            t2: self.t2,
            inspected: self.inspected as int,
        }
    }
}

pub open spec fn models(ms: Seq<Monkey>) -> Seq<MonkeyModel> {
    ms.map_values(|m: Monkey| m.model())
}

pub open spec fn term_value(t: Term, old: int) -> int {
    match t {
        Term::Old => old,
        Term::Num(n) => n as int,
    }
}

pub open spec fn apply(op: Operation, a: int, b: int) -> int {
    match op {
        Operation::Add => a + b,
        Operation::Mult => a * b,
    }
}

/// The worry level once the monkey is done with it: divided by three where
/// `relief` is 0, else its remainder by `relief`.
pub open spec fn relieve(w: int, relief: int) -> int {
    if relief == 0 {
        w / 3
    } else {
        w % relief
    }
}

/// What happens when monkey `m` inspects an item of worry `old`: the new
/// worry level and the monkey it is thrown to; `None` where the worry level
/// leaves `u64` or the count of inspections leaves `usize`.
pub open spec fn inspect_spec(m: MonkeyModel, old: int, relief: int) -> Option<(int, int)> {
    let raw = apply(m.op, term_value(m.t1, old), term_value(m.t2, old));
    if raw > u64::MAX || m.inspected + 1 > usize::MAX {
        None
    } else {
        let w = relieve(raw, relief);
        Some((w, if w % m.test == 0 { m.to_true } else { m.to_false }))
    }
}

/// Every monkey tests by a positive divisor and throws to two other monkeys.
pub open spec fn troop_ok(ms: Seq<MonkeyModel>) -> bool {
    forall|i: int|
        0 <= i < ms.len() ==> (#[trigger] ms[i]).test > 0 && 0 <= ms[i].to_true < ms.len() && 0 <= ms[i].to_false
            < ms.len() && ms[i].to_true != i && ms[i].to_false != i
}

/// Monkey `i` throws all of its items, in order; `None` on overflow.
pub open spec fn turn(ms: Seq<MonkeyModel>, i: int, relief: int) -> Option<Seq<MonkeyModel>>
    decreases ms[i].items.len(),
{
    if !(0 <= i < ms.len()) || ms[i].items.len() == 0 {
        Some(ms)
    } else {
        let m = ms[i];
        match inspect_spec(m, m.items[0], relief) {
            None => None,
            Some((w, t)) => if t == i || !(0 <= t < ms.len()) {
                None
            } else {
                let ms2 = ms.update(i, MonkeyModel { items: m.items.drop_first(), inspected: m.inspected + 1, ..m });
                let ms3 = ms2.update(t, MonkeyModel { items: ms2[t].items.push(w), ..ms2[t] });
                turn(ms3, i, relief)
            },
        }
    }
}

/// The first `k` monkeys take their turns.
pub open spec fn turns(ms: Seq<MonkeyModel>, k: int, relief: int) -> Option<Seq<MonkeyModel>>
    decreases k,
{
    if k <= 0 {
        Some(ms)
    } else {
        match turns(ms, k - 1, relief) {
            Some(s) => turn(s, k - 1, relief),
            None => None,
        }
    }
}

/// The troop after `r` rounds.
pub open spec fn after_rounds(ms: Seq<MonkeyModel>, r: int, relief: int) -> Option<Seq<MonkeyModel>>
    decreases r,
{
    if r <= 0 {
        Some(ms)
    } else {
        match after_rounds(ms, r - 1, relief) {
            Some(s) => turns(s, s.len() as int, relief),
            None => None,
        }
    }
}

/// What a throw gives.
pub enum Throw {
    /// The monkey holds no item.
    Done,
    /// The item, with its new worry level, goes to the monkey.
    To(u64, usize),
    /// The worry level or the count of inspections would not fit.
    Overflow,
}

impl Monkey {
    fn throw(&mut self, relief: u64) -> (r: Throw)
        requires
            old(self).test > 0,
        ensures
            old(self).items@.len() == 0 ==> r is Done && *final(self) == *old(self),
            old(self).items@.len() > 0 ==> match inspect_spec(old(self).model(), old(self).items@[0] as int, relief as int) {
                None => r is Overflow && *final(self) == *old(self),
                Some((w, t)) => r == Throw::To(w as u64, t as usize) && final(self).model() == (MonkeyModel {
                    items: old(self).model().items.drop_first(),
                    inspected: old(self).inspected + 1,
                    ..old(self).model()
                }),
            },
    {
        let ghost before = self.model();
        if self.items.len() == 0 {
            return Throw::Done;
        }
        if self.inspected == usize::MAX {
            return Throw::Overflow;
        }
        let wl = self.items[0];
        let a = match self.t1 {
            Term::Old => wl,
            Term::Num(n) => n,
        };
        let b = match self.t2 {
            Term::Old => wl,
            Term::Num(n) => n,
        };
        let raw = match self.op {
            Operation::Mult => a.checked_mul(b),
            Operation::Add => a.checked_add(b),
        };
        let raw = match raw {
            Some(v) => v,
            None => {
                return Throw::Overflow;
            },
        };
        self.items.pop_front();
        self.inspected += 1;
        let w = if relief == 0 { raw / 3 } else { raw % relief };
        proof {
            assert(self.model().items =~= before.items.drop_first());
        }
        if w % self.test == 0 {
            Throw::To(w, self.to_true)
        } else {
            Throw::To(w, self.to_false)
        }
    }

    /// Inspects the first item, dividing the worry level by three.
    pub fn inspect(&mut self) -> (r: Throw)
        requires
            old(self).test > 0,
        ensures
            old(self).items@.len() == 0 ==> r is Done && *final(self) == *old(self),
            old(self).items@.len() > 0 ==> match inspect_spec(old(self).model(), old(self).items@[0] as int, 0) {
                None => r is Overflow,
                Some((w, t)) => r == Throw::To(w as u64, t as usize) && final(self).model() == (MonkeyModel {
                    items: old(self).model().items.drop_first(),
                    inspected: old(self).inspected + 1,
                    ..old(self).model()
                }),
            },
    {
        self.throw(0)
    }

    /// Inspects the first item, keeping the worry level's remainder by `scm`.
    pub fn inspect_part_two(&mut self, scm: u64) -> (r: Throw)
        requires
            old(self).test > 0,
            scm > 0,
        ensures
            old(self).items@.len() == 0 ==> r is Done && *final(self) == *old(self),
            old(self).items@.len() > 0 ==> match inspect_spec(old(self).model(), old(self).items@[0] as int, scm as int) {
                None => r is Overflow,
                Some((w, t)) => r == Throw::To(w as u64, t as usize) && final(self).model() == (MonkeyModel {
                    items: old(self).model().items.drop_first(),
                    inspected: old(self).inspected + 1,
                    ..old(self).model()
                }),
            },
    {
        self.throw(scm)
    }
}

/// Monkey `i` throws all of its items.
fn take_turn(ms: &mut Vec<Monkey>, i: usize, relief: u64) -> (ok: bool)
    requires
        troop_ok(models(old(ms)@)),
        i < old(ms).len(),
    ensures
        final(ms).len() == old(ms).len(),
        troop_ok(models(final(ms)@)),
        ok <==> turn(models(old(ms)@), i as int, relief as int) is Some,
        ok ==> turn(models(old(ms)@), i as int, relief as int) == Some(models(final(ms)@)),
{
    let ghost goal = turn(models(ms@), i as int, relief as int);
    let n = ms.len();
    loop
        invariant
            ms.len() == n,
            n == old(ms).len(),
            i < n,
            troop_ok(models(ms@)),
            goal == turn(models(ms@), i as int, relief as int),
            goal == turn(models(old(ms)@), i as int, relief as int),
        decreases ms@[i as int].items@.len(),
    {
        let ghost before = models(ms@);
        let ghost before_vec = ms@;
        proof {
            assert(before[i as int] == ms@[i as int].model());
            assert(ms@[i as int].test > 0);
        }
        match ms[i].throw(relief) {
            Throw::Done => {
                proof {
                    assert(models(ms@) =~= before);
                    assert(before[i as int].items.len() == ms@[i as int].items@.len());
                }
                return true;
            },
            Throw::Overflow => {
                proof {
                    assert(ms@ =~= before_vec);
                }
                return false;
            },
            Throw::To(w, t) => {
                let ghost mid = models(ms@);
                proof {
                    assert(t == before[i as int].to_true || t == before[i as int].to_false);
                    assert(t < n && t != i);
                }
                ms[t].items.push_back(w);
                proof {
                    let m = before[i as int];
                    let ms2 = before.update(i as int, MonkeyModel { items: m.items.drop_first(), inspected: m.inspected + 1, ..m });
                    let ms3 = ms2.update(t as int, MonkeyModel { items: ms2[t as int].items.push(w as int), ..ms2[t as int] });
                    assert forall|k: int| 0 <= k < n implies models(ms@)[k] == ms3[k] by {
                        if k == t {
                            assert(models(ms@)[k].items =~= ms3[k].items);
                        } else if k == i {
                            assert(models(ms@)[k] == mid[k]);
                        } else {
                            assert(models(ms@)[k] == before[k]);
                        }
                    }
                    assert(models(ms@) =~= ms3);
                    assert forall|k: int| 0 <= k < n implies (#[trigger] models(ms@)[k]).test > 0 && 0 <= models(ms@)[k].to_true < n
                        && 0 <= models(ms@)[k].to_false < n && models(ms@)[k].to_true != k && models(ms@)[k].to_false != k by {
                        assert(before[k].test > 0);
                    }
                }
            },
        }
    }
}

/// All monkeys take their turns, `r` times over.
fn play(ms: &mut Vec<Monkey>, r: usize, relief: u64) -> (ok: bool)
    requires
        troop_ok(models(old(ms)@)),
    ensures
        ok <==> after_rounds(models(old(ms)@), r as int, relief as int) is Some,
        ok ==> after_rounds(models(old(ms)@), r as int, relief as int) == Some(models(final(ms)@)),
        final(ms).len() == old(ms).len(),
{
    let ghost start = models(ms@);
    let n = ms.len();
    let mut k: usize = 0;
    while k < r
        invariant
            ms.len() == n,
            n == old(ms).len(),
            start == models(old(ms)@),
            start.len() == n,
            troop_ok(models(ms@)),
            k <= r,
            after_rounds(start, k as int, relief as int) == Some(models(ms@)),
        decreases r - k,
    {
        let ghost at_round = models(ms@);
        let mut j: usize = 0;
        while j < n
            invariant
                ms.len() == n,
                n == old(ms).len(),
                start == models(old(ms)@),
                at_round.len() == n,
                start.len() == n,
                k < r,
                after_rounds(start, k as int, relief as int) == Some(at_round),
                troop_ok(models(ms@)),
                j <= n,
                turns(at_round, j as int, relief as int) == Some(models(ms@)),
            decreases n - j,
        {
            if !take_turn(ms, j, relief) {
                proof {
                    lemma_turns_fail(at_round, j as int + 1, n as int, relief as int);
                    assert(after_rounds(start, k as int + 1, relief as int) is None);
                    lemma_rounds_fail(start, k as int + 1, r as int, relief as int);
                }
                return false;
            }
            j += 1;
        }
        k += 1;
    }
    true
}

proof fn lemma_rounds_fail(ms: Seq<MonkeyModel>, k: int, r: int, relief: int)
    requires
        0 < k <= r,
        after_rounds(ms, k, relief) is None,
    ensures
        after_rounds(ms, r, relief) is None,
    decreases r - k,
{
    if k < r {
        lemma_rounds_fail(ms, k + 1, r, relief);
    }
}

proof fn lemma_turns_fail(ms: Seq<MonkeyModel>, k: int, n: int, relief: int)
    requires
        0 < k <= n,
        turns(ms, k, relief) is None,
    ensures
        turns(ms, n, relief) is None,
    decreases n - k,
{
    if k < n {
        lemma_turns_fail(ms, k + 1, n, relief);
    }
}

/// `p` is the largest product of the inspection counts of two monkeys.
pub open spec fn is_business(ms: Seq<MonkeyModel>, p: int) -> bool {
    &&& exists|a: int, b: int|
        0 <= a < ms.len() && 0 <= b < ms.len() && a != b && p == (#[trigger] ms[a]).inspected * (#[trigger] ms[b]).inspected
    &&& forall|a: int, b: int|
        0 <= a < ms.len() && 0 <= b < ms.len() && a != b ==> (#[trigger] ms[a]).inspected * (#[trigger] ms[b]).inspected <= p
}

fn busiest_except(ms: &Vec<Monkey>, skip: usize) -> (r: usize)
    requires
        ms.len() >= 2,
    ensures
        r < ms.len(),
        r != skip,
        forall|k: int| 0 <= k < ms.len() && k != skip ==> ms@[k].inspected <= ms@[r as int].inspected,
{
    let mut best: usize = if skip == 0 { 1 } else { 0 };
    let mut i: usize = 0;
    while i < ms.len()
        invariant
            ms.len() >= 2,
            best < ms.len(),
            best != skip,
            i <= ms.len(),
            forall|k: int| 0 <= k < i && k != skip ==> ms@[k].inspected <= ms@[best as int].inspected,
        decreases ms.len() - i,
    {
        if i != skip && ms[i].inspected > ms[best].inspected {
            best = i;
        }
        i += 1;
    }
    best
}

/// The product of the two largest inspection counts, `None` where it does
/// not fit in `u64`.
fn business(ms: &Vec<Monkey>) -> (r: Option<u64>)
    requires
        ms.len() >= 2,
    ensures
        match r {
            Some(p) => is_business(models(ms@), p as int),
            None => exists|p: int| is_business(models(ms@), p) && p > u64::MAX,
        },
{
    let ghost v = models(ms@);
    let n = ms.len();
    let a = busiest_except(ms, n);
    let b = busiest_except(ms, a);
    let x = ms[a].inspected as u64;
    let y = ms[b].inspected as u64;
    let ghost p = (x as int) * (y as int);
    proof {
        assert(v[a as int].inspected == x && v[b as int].inspected == y);
        assert forall|c: int, d: int| 0 <= c < n && 0 <= d < n && c != d implies (#[trigger] v[c]).inspected * (#[trigger] v[d]).inspected
            <= p by {
            let vc = v[c].inspected;
            let vd = v[d].inspected;
            assert(v[c] == ms@[c].model() && v[d] == ms@[d].model());
            assert(vc <= x && vd <= x);
            if c == a as int {
                assert(vd <= y);
                assert(vc * vd <= x * y) by (nonlinear_arith)
                    requires
                        vc == x,
                        0 <= vd <= y,
                ;
            } else if d == a as int {
                assert(vc <= y);
                assert(vc * vd <= x * y) by (nonlinear_arith)
                    requires
                        vd == x,
                        0 <= vc <= y,
                ;
            } else {
                assert(vc <= y && vd <= y);
                assert(vc * vd <= x * y) by (nonlinear_arith)
                    requires
                        0 <= vc <= y,
                        0 <= vd <= y,
                        y <= x,
                ;
            }
        }
        assert(is_business(v, p));
    }
    x.checked_mul(y)
}

/// `r` is the monkey business of the troop `fin` reached after the rounds,
/// `None` where the rounds overflow or the product does not fit.
pub open spec fn outcome(fin: Option<Seq<MonkeyModel>>, r: Option<u64>) -> bool {
    &&& fin is None ==> r is None
    &&& fin is Some && r is Some ==> is_business(fin->Some_0, r->Some_0 as int)
    &&& fin is Some && r is None ==> exists|p: int| is_business(fin->Some_0, p) && p > u64::MAX
}

/// The smallest common multiple the tests build up: starting from 1, each
/// divisor that does not divide the product so far multiplies it.
pub open spec fn scm_of(ms: Seq<MonkeyModel>, n: int) -> int
    decreases n,
{
    if n <= 0 {
        1
    } else {
        let acc = scm_of(ms, n - 1);
        if acc % ms[n - 1].test != 0 {
            acc * ms[n - 1].test
        } else {
            acc
        }
    }
}

/// The monkey business after `rounds` rounds where worry levels drop to a
/// third after each inspection; `None` where a number does not fit.
pub fn part_one(input: Vec<Monkey>, rounds: usize) -> (r: Option<u64>)
    requires
        troop_ok(models(input@)),
        input.len() >= 2,
    ensures
        outcome(after_rounds(models(input@), rounds as int, 0), r),
{
    let ghost v = models(input@);
    let mut troop = input;
    assert(models(troop@) == v);
    if !play(&mut troop, rounds, 0) {
        return None;
    }
    let ghost fin = models(troop@);
    assert(after_rounds(v, rounds as int, 0) == Some(fin));
    let r = business(&troop);
    proof {
        let so = Some(fin);
        assert(so->Some_0 == fin);
        if r is Some {
            assert(is_business(fin, r->Some_0 as int));
            assert(is_business(so->Some_0, r->Some_0 as int));
        } else {
            assert(exists|p: int| is_business(fin, p) && p > u64::MAX);
            assert(exists|p: int| is_business(so->Some_0, p) && p > u64::MAX);
        }
        assert(outcome(so, r));
    }
    r
}

/// The monkey business after `rounds` rounds where worry levels are kept
/// as remainders by a common multiple of the tests; `None` where a number
/// does not fit.
pub fn part_two(input: Vec<Monkey>, rounds: usize) -> (r: Option<u64>)
    requires
        troop_ok(models(input@)),
        input.len() >= 2,
    ensures
        scm_of(models(input@), input.len() as int) > u64::MAX ==> r is None,
        scm_of(models(input@), input.len() as int) <= u64::MAX ==> outcome(
            after_rounds(models(input@), rounds as int, scm_of(models(input@), input.len() as int)),
            r,
        ),
{
    let ghost v = models(input@);
    let mut scm: u64 = 1;
    let mut i: usize = 0;
    while i < input.len()
        invariant
            v == models(input@),
            troop_ok(v),
            i <= input.len(),
            scm == scm_of(v, i as int),
            scm >= 1,
        decreases input.len() - i,
    {
        let t = input[i].test;
        proof {
            assert(v[i as int].test == t);
            assert(t > 0);
        }
        if scm % t != 0 {
            match scm.checked_mul(t) {
                Some(x) => {
                    proof {
                        assert(scm * t >= 1) by (nonlinear_arith)
                            requires
                                scm >= 1,
                                t >= 1,
                        ;
                    }
                    scm = x;
                },
                None => {
                    proof {
                        assert(scm_of(v, i as int + 1) > u64::MAX) by (nonlinear_arith)
                            requires
                                scm_of(v, i as int + 1) == scm * t,
                                scm * t > u64::MAX,
                        ;
                        lemma_scm_mono(v, i as int + 1, input.len() as int);
                    }
                    return None;
                },
            }
        }
        i += 1;
    }
    let mut troop = input;
    assert(models(troop@) == v);
    if !play(&mut troop, rounds, scm) {
        return None;
    }
    let ghost fin = models(troop@);
    assert(after_rounds(v, rounds as int, scm as int) == Some(fin));
    let r = business(&troop);
    proof {
        assert(scm == scm_of(v, v.len() as int));
        let so = Some(fin);
        assert(so->Some_0 == fin);
        if r is Some {
            assert(is_business(fin, r->Some_0 as int));
            assert(is_business(so->Some_0, r->Some_0 as int));
        } else {
            assert(exists|p: int| is_business(fin, p) && p > u64::MAX);
            assert(exists|p: int| is_business(so->Some_0, p) && p > u64::MAX);
        }
        assert(outcome(so, r));
    }
    r
}

proof fn lemma_scm_mono(ms: Seq<MonkeyModel>, a: int, b: int)
    requires
        0 <= a <= b <= ms.len(),
        troop_ok(ms),
    ensures
        scm_of(ms, b) >= scm_of(ms, a) >= 1,
    decreases b,
{
    if b > a {
        lemma_scm_mono(ms, a, b - 1);
        let acc = scm_of(ms, b - 1);
        let t = ms[b - 1].test;
        assert(t > 0);
        assert(acc * t >= acc) by (nonlinear_arith)
            requires
                acc >= 1,
                t >= 1,
        ;
    } else {
        lemma_scm_pos(ms, a);
    }
}

proof fn lemma_scm_pos(ms: Seq<MonkeyModel>, a: int)
    requires
        0 <= a <= ms.len(),
        troop_ok(ms),
    ensures
        scm_of(ms, a) >= 1,
    decreases a,
{
    if a > 0 {
        lemma_scm_pos(ms, a - 1);
        let acc = scm_of(ms, a - 1);
        let t = ms[a - 1].test;
        assert(t > 0);
        assert(acc * t >= 1) by (nonlinear_arith)
            requires
                acc >= 1,
                t >= 1,
        ;
    }
}

/// Largest number that the parser accepts.
pub const MAX_WORRY: u64 = 0x8000_0000;

pub open spec fn number_ok(s: Seq<char>) -> bool {
    is_number(s) && digits_value(s) <= MAX_WORRY
}

pub open spec fn spec_term(w: Seq<char>) -> Option<Term> {
    if w == "old"@ {
        Some(Term::Old)
    } else if number_ok(w) {
        Some(Term::Num(digits_value(w) as u64))
    } else {
        None
    }
}

pub open spec fn spec_op(w: Seq<char>) -> Option<Operation> {
    if w == "*"@ {
        Some(Operation::Mult)
    } else if w == "+"@ {
        Some(Operation::Add)
    } else {
        None
    }
}

/// The worry levels that `s` lists, separated by `", "`.
pub open spec fn spec_items(s: Seq<char>) -> Option<Seq<int>> {
    let p = split_on(s, ',');
    if number_ok(p[0]) && forall|k: int|
        1 <= k < p.len() ==> (#[trigger] p[k]).len() >= 1 && p[k][0] == ' ' && number_ok(p[k].drop_first()) {
        Some(Seq::new(p.len(), |k: int| if k == 0 { digits_value(p[0]) as int } else { digits_value(p[k].drop_first()) as int }))
    } else {
        None
    }
}

/// `l` is `p` followed by a number that the parser accepts.
pub open spec fn numbered(l: Seq<char>, p: Seq<char>) -> bool {
    starts(l, p) && number_ok(l.subrange(p.len() as int, l.len() as int))
}

pub open spec fn number_after(l: Seq<char>, p: Seq<char>) -> int {
    digits_value(l.subrange(p.len() as int, l.len() as int)) as int
}

/// The monkey that the six lines `b` describe, without inspections.
pub open spec fn spec_monkey(b: Seq<Seq<char>>) -> Option<MonkeyModel> {
    if b.len() != 6 || !starts(b[0], "Monkey "@) || !starts(b[1], "  Starting items: "@) || !starts(
        b[2],
        "  Operation: new = "@,
    ) {
        None
    } else {
        let head = b[0].subrange(7, b[0].len() as int);
        let items = spec_items(b[1].subrange(18, b[1].len() as int));
        let w = split_on(b[2].subrange(19, b[2].len() as int), ' ');
        if head.len() >= 1 && head.last() == ':' && number_ok(head.drop_last()) && items is Some && w.len() == 3
            && spec_term(w[0]) is Some && spec_op(w[1]) is Some && spec_term(w[2]) is Some && numbered(
            b[3],
            "  Test: divisible by "@,
        ) && number_after(b[3], "  Test: divisible by "@) > 0 && numbered(b[4], "    If true: throw to monkey "@)
            && numbered(b[5], "    If false: throw to monkey "@) {
            Some(
                MonkeyModel {
                    items: items->Some_0,
                    test: number_after(b[3], "  Test: divisible by "@),
                    to_true: number_after(b[4], "    If true: throw to monkey "@),
                    to_false: number_after(b[5], "    If false: throw to monkey "@),
                    op: spec_op(w[1])->Some_0,
                    t1: spec_term(w[0])->Some_0,
                    t2: spec_term(w[2])->Some_0,
                    inspected: 0,
                },
            )
        } else {
            None
        }
    }
}

fn read_term(w: &Vec<char>) -> (r: Option<Term>)
    ensures
        r == spec_term(w@),
{
    if same_chars(w, &chars_of("old")) {
        return Some(Term::Old);
    }
    match parse_decimal(w, MAX_WORRY) {
        Some(v) => Some(Term::Num(v)),
        None => None,
    }
}

fn read_op(w: &Vec<char>) -> (r: Option<Operation>)
    ensures
        r == spec_op(w@),
{
    if same_chars(w, &chars_of("*")) {
        Some(Operation::Mult)
    } else if same_chars(w, &chars_of("+")) {
        Some(Operation::Add)
    } else {
        None
    }
}

fn read_items(s: &Vec<char>) -> (r: Option<VecDeque<u64>>)
    ensures
        match r {
            Some(q) => spec_items(s@) == Some(q@.map_values(|x: u64| x as int)),
            None => spec_items(s@) is None,
        },
{
    let p = split_chars(s, ',');
    let ghost ps = split_on(s@, ',');
    proof {
        crate::text::lemma_split_nonempty(s@, ',');
        assert(p@[0]@ == ps[0]);
    }
    let first = match parse_decimal(&p[0], MAX_WORRY) {
        Some(v) => v,
        None => {
            return None;
        },
    };
    let mut q: VecDeque<u64> = VecDeque::new();
    q.push_back(first);
    let mut k: usize = 1;
    while k < p.len()
        invariant
            ps == split_on(s@, ','),
            rows_view(&p) == ps,
            ps.len() >= 1,
            number_ok(ps[0]),
            1 <= k <= p.len(),
            q@.len() == k,
            q@[0] == digits_value(ps[0]),
            forall|j: int| 1 <= j < k ==> (#[trigger] ps[j]).len() >= 1 && ps[j][0] == ' ' && number_ok(ps[j].drop_first())
                && q@[j] == digits_value(ps[j].drop_first()),
        decreases p.len() - k,
    {
        let piece = &p[k];
        proof {
            assert(piece@ == ps[k as int]);
        }
        if piece.len() == 0 || piece[0] != ' ' {
            return None;
        }
        let rest = copy_range(piece, 1, piece.len());
        proof {
            assert(rest@ =~= ps[k as int].drop_first());
        }
        match parse_decimal(&rest, MAX_WORRY) {
            Some(v) => {
                q.push_back(v);
            },
            None => {
                return None;
            },
        }
        k += 1;
    }
    proof {
        let want = Seq::new(ps.len(), |j: int| if j == 0 { digits_value(ps[0]) as int } else { digits_value(ps[j].drop_first()) as int });
        assert(q@.map_values(|x: u64| x as int) =~= want);
    }
    Some(q)
}

fn read_numbered(l: &Vec<char>, p: &str) -> (r: Option<u64>)
    ensures
        match r {
            Some(v) => numbered(l@, p@) && v == number_after(l@, p@),
            None => !numbered(l@, p@),
        },
{
    match after_prefix(l, &chars_of(p)) {
        Some(rest) => parse_decimal(&rest, MAX_WORRY),
        None => None,
    }
}

impl Monkey {
    /// Reads one monkey from its six lines.
    pub fn from_str(b: &Vec<Vec<char>>) -> (r: Option<Monkey>)
        ensures
            match r {
                Some(m) => spec_monkey(rows_view(b)) == Some(m.model()),
                None => spec_monkey(rows_view(b)) is None,
            },
    {
        let ghost bv = rows_view(b);
        if b.len() != 6 {
            return None;
        }
        proof {
            assert(b@[0]@ == bv[0] && b@[1]@ == bv[1] && b@[2]@ == bv[2]);
            assert(b@[3]@ == bv[3] && b@[4]@ == bv[4] && b@[5]@ == bv[5]);
        }
        let p0 = chars_of("Monkey ");
        let p1 = chars_of("  Starting items: ");
        let p2 = chars_of("  Operation: new = ");
        proof {
            reveal_strlit("Monkey ");
            reveal_strlit("  Starting items: ");
            reveal_strlit("  Operation: new = ");
        }
        let head = match after_prefix(&b[0], &p0) {
            Some(h) => h,
            None => {
                return None;
            },
        };
        let list = match after_prefix(&b[1], &p1) {
            Some(h) => h,
            None => {
                return None;
            },
        };
        let formula = match after_prefix(&b[2], &p2) {
            Some(h) => h,
            None => {
                return None;
            },
        };
        if head.len() == 0 || head[head.len() - 1] != ':' {
            return None;
        }
        let num = copy_range(&head, 0, head.len() - 1);
        proof {
            assert(num@ =~= head@.drop_last());
        }
        if parse_decimal(&num, MAX_WORRY).is_none() {
            return None;
        }
        let items = match read_items(&list) {
            Some(q) => q,
            None => {
                return None;
            },
        };
        let w = split_chars(&formula, ' ');
        let ghost ws = split_on(formula@, ' ');
        if w.len() != 3 {
            return None;
        }
        proof {
            assert(w@[0]@ == ws[0] && w@[1]@ == ws[1] && w@[2]@ == ws[2]);
        }
        let (t1, op, t2) = match (read_term(&w[0]), read_op(&w[1]), read_term(&w[2])) {
            (Some(a), Some(o), Some(c)) => (a, o, c),
            _ => {
                return None;
            },
        };
        let test = match read_numbered(&b[3], "  Test: divisible by ") {
            Some(v) => v,
            None => {
                return None;
            },
        };
        if test == 0 {
            return None;
        }
        let to_true = match read_numbered(&b[4], "    If true: throw to monkey ") {
            Some(v) => v,
            None => {
                return None;
            },
        };
        let to_false = match read_numbered(&b[5], "    If false: throw to monkey ") {
            Some(v) => v,
            None => {
                return None;
            },
        };
        let m = Monkey {
            items,
            test,
            to_true: to_true as usize,
            to_false: to_false as usize,
            op,
            t1,
            t2,
            inspected: 0,
        };
        Some(m)
    }
}

/// The monkeys, one block of six lines each, blocks separated by empty lines.
pub fn parse(input: &str) -> (r: Option<Vec<Monkey>>)
    ensures
        match r {
            Some(v) => v.len() == groups_of(lines_of(input@)).len() && forall|i: int|
                0 <= i < v.len() ==> spec_monkey(#[trigger] groups_of(lines_of(input@))[i]) == Some(v@[i].model()),
            None => exists|i: int|
                0 <= i < groups_of(lines_of(input@)).len() && spec_monkey(#[trigger] groups_of(lines_of(input@))[i]) is None,
        },
{
    let blocks = char_blocks(input);
    let ghost gs = groups_of(lines_of(input@));
    let mut out: Vec<Monkey> = Vec::new();
    let mut i: usize = 0;
    while i < blocks.len()
        invariant
            gs == groups_of(lines_of(input@)),
            blocks_view(&blocks) == gs,
            i <= blocks.len(),
            out.len() == i,
            forall|j: int| 0 <= j < i ==> spec_monkey(#[trigger] gs[j]) == Some(out@[j].model()),
        decreases blocks.len() - i,
    {
        proof {
            assert(rows_view(&blocks@[i as int]) == gs[i as int]);
        }
        match Monkey::from_str(&blocks[i]) {
            Some(m) => out.push(m),
            None => {
                return None;
            },
        }
        i += 1;
    }
    Some(out)
}

} // verus!
