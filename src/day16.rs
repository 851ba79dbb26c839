use vstd::prelude::*;

use crate::graph::{adj_step, adj_view, bfs, bfs_result, is_dist, reach, reachable, well_formed};
use crate::text::{char_lines, lines_of};
use crate::valves::{lemma_line_unique, parse_line, valve_line};

verus! {

/// Largest budget the searches accept; it keeps every score within `u64`.
pub const MAX_BUDGET: u64 = 65536;

/// Largest flow rate the searches accept.
pub const MAX_FLOW: u64 = 65536;

/// The distance table as a sequence of rows.
pub open spec fn dview(d: &Vec<Vec<Option<usize>>>) -> Seq<Seq<Option<usize>>> {
    d@.map_values(|r: Vec<Option<usize>>| r@)
}

/// A square table with one row and one column for each of `n` valves.
pub open spec fn is_table(d: Seq<Seq<Option<usize>>>, n: int) -> bool {
    &&& d.len() == n
    &&& forall|a: int| 0 <= a < n ==> #[trigger] d[a].len() == n
}

/// `d` holds the fewest tunnels between any two valves of `g`, `None` where
/// there is no way.
pub open spec fn is_dist_table(g: Seq<Seq<usize>>, d: Seq<Seq<Option<usize>>>) -> bool {
    &&& is_table(d, g.len() as int)
    &&& forall|a: int, b: int|
        0 <= a < g.len() && 0 <= b < g.len() ==> match #[trigger] d[a][b] {
            Some(x) => is_dist(adj_step(g), a, b, x as nat),
            None => !reachable(adj_step(g), a, b),
        }
}

/// Where the agent stands before opening the `i`-th valve of `p`.
pub open spec fn prev(start: int, p: Seq<usize>, i: int) -> int {
    if i == 0 {
        start
    } else {
        p[i - 1] as int
    }
}

/// Minutes spent to walk from `a` to `b` and open `b`.
pub open spec fn hop(d: Seq<Seq<Option<usize>>>, a: int, b: int) -> int {
    match d[a][b] {
        Some(x) => x + 1,
        None => 0,
    }
}

/// Minutes left after opening the valves of `p` in order.
pub open spec fn left(d: Seq<Seq<Option<usize>>>, start: int, budget: int, p: Seq<usize>) -> int
    decreases p.len(),
{
    if p.len() == 0 {
        budget
    } else {
        left(d, start, budget, p.drop_last()) - hop(d, prev(start, p, p.len() - 1), p.last() as int)
    }
}

/// Pressure released by opening the valves of `p` in order: each valve
/// releases its flow rate for every minute left after it is opened.
pub open spec fn score(
    d: Seq<Seq<Option<usize>>>,
    flow: Seq<u64>,
    start: int,
    budget: int,
    p: Seq<usize>,
) -> int
    decreases p.len(),
{
    if p.len() == 0 {
        0
    } else {
        score(d, flow, start, budget, p.drop_last()) + left(d, start, budget, p) * flow[p.last() as int]
    }
}

/// `p` opens distinct valves of positive flow, each reachable from the one
/// before, within the budget.
pub open spec fn feasible(
    d: Seq<Seq<Option<usize>>>,
    flow: Seq<u64>,
    start: int,
    budget: int,
    p: Seq<usize>,
) -> bool {
    &&& forall|i: int| 0 <= i < p.len() ==> (p[i] as int) < flow.len() && flow[p[i] as int] > 0
    &&& forall|i: int, j: int| 0 <= i < j < p.len() ==> p[i] != p[j]
    &&& forall|i: int| 0 <= i < p.len() ==> (#[trigger] d[prev(start, p, i)][p[i] as int]) is Some
    &&& left(d, start, budget, p) >= 0
}

/// `q` starts with `p`.
pub open spec fn extends(q: Seq<usize>, p: Seq<usize>) -> bool {
    p.len() <= q.len() && q.subrange(0, p.len() as int) == p
}

/// `r` is the largest score of a feasible order.
pub open spec fn is_best(
    d: Seq<Seq<Option<usize>>>,
    flow: Seq<u64>,
    start: int,
    budget: int,
    r: int,
) -> bool {
    &&& exists|p: Seq<usize>| #[trigger] feasible(d, flow, start, budget, p) && score(d, flow, start, budget, p) == r
    &&& forall|p: Seq<usize>| #[trigger] feasible(d, flow, start, budget, p) ==> score(d, flow, start, budget, p) <= r
}

/// No valve is opened by both orders.
pub open spec fn disjoint(p: Seq<usize>, q: Seq<usize>) -> bool {
    forall|i: int, j: int| 0 <= i < p.len() && 0 <= j < q.len() ==> p[i] != q[j]
}

/// `r` is the largest combined score of two feasible orders that share no valve.
pub open spec fn is_best_pair(
    d: Seq<Seq<Option<usize>>>,
    flow: Seq<u64>,
    start: int,
    budget: int,
    r: int,
) -> bool {
    &&& exists|p: Seq<usize>, q: Seq<usize>|
        #[trigger] feasible(d, flow, start, budget, p) && #[trigger] feasible(d, flow, start, budget, q)
            && disjoint(p, q) && score(d, flow, start, budget, p) + score(d, flow, start, budget, q) == r
    &&& forall|p: Seq<usize>, q: Seq<usize>|
        #[trigger] feasible(d, flow, start, budget, p) && #[trigger] feasible(d, flow, start, budget, q)
            && disjoint(p, q) ==> score(d, flow, start, budget, p) + score(d, flow, start, budget, q) <= r
}

/// The inputs of a search: a distance table over valves with bounded flow
/// rates, a start valve and a bounded budget.
pub open spec fn search_inputs(
    d: Seq<Seq<Option<usize>>>,
    flow: Seq<u64>,
    start: int,
    budget: int,
) -> bool {
    &&& is_table(d, flow.len() as int)
    &&& 0 <= start < flow.len()
    &&& 0 <= budget <= MAX_BUDGET
    &&& forall|v: int| 0 <= v < flow.len() ==> #[trigger] flow[v] <= MAX_FLOW
}

proof fn lemma_push(
    d: Seq<Seq<Option<usize>>>,
    flow: Seq<u64>,
    start: int,
    budget: int,
    p: Seq<usize>,
    v: usize,
)
    ensures
        left(d, start, budget, p.push(v)) == left(d, start, budget, p) - hop(
            d,
            prev(start, p.push(v), p.len() as int),
            v as int,
        ),
        score(d, flow, start, budget, p.push(v)) == score(d, flow, start, budget, p) + left(
            d,
            start,
            budget,
            p.push(v),
        ) * flow[v as int],
        prev(start, p.push(v), p.len() as int) == if p.len() == 0 {
            start
        } else {
            p.last() as int
        },
{
    assert(p.push(v).drop_last() =~= p);
}

/// Minutes left never grow as valves are added.
proof fn lemma_left_prefix(d: Seq<Seq<Option<usize>>>, start: int, budget: int, q: Seq<usize>, k: int)
    requires
        0 <= k <= q.len(),
    ensures
        left(d, start, budget, q.subrange(0, k)) >= left(d, start, budget, q),
    decreases q.len(),
{
    if k < q.len() {
        let r = q.drop_last();
        assert(q.subrange(0, k) =~= r.subrange(0, k));
        lemma_left_prefix(d, start, budget, r, k);
    } else {
        assert(q.subrange(0, k) =~= q);
    }
}

/// Every prefix of a feasible order is feasible.
proof fn lemma_prefix_feasible(
    d: Seq<Seq<Option<usize>>>,
    flow: Seq<u64>,
    start: int,
    budget: int,
    q: Seq<usize>,
    k: int,
)
    requires
        0 <= k <= q.len(),
        feasible(d, flow, start, budget, q),
    ensures
        feasible(d, flow, start, budget, q.subrange(0, k)),
{
    let p = q.subrange(0, k);
    lemma_left_prefix(d, start, budget, q, k);
    assert forall|i: int| 0 <= i < p.len() implies (#[trigger] d[prev(start, p, i)][p[i] as int]) is Some by {
        assert(prev(start, p, i) == prev(start, q, i));
        assert(d[prev(start, q, i)][q[i] as int] is Some);
    }
}

/// A feasible order scores at least as much as each of its prefixes.
proof fn lemma_score_prefix(
    d: Seq<Seq<Option<usize>>>,
    flow: Seq<u64>,
    start: int,
    budget: int,
    q: Seq<usize>,
    k: int,
)
    requires
        0 <= k <= q.len(),
        feasible(d, flow, start, budget, q),
    ensures
        score(d, flow, start, budget, q.subrange(0, k)) <= score(d, flow, start, budget, q),
    decreases q.len(),
{
    if k < q.len() {
        let r = q.drop_last();
        assert(r =~= q.subrange(0, q.len() - 1));
        lemma_prefix_feasible(d, flow, start, budget, q, q.len() - 1);
        assert(q.subrange(0, k) =~= r.subrange(0, k));
        lemma_score_prefix(d, flow, start, budget, r, k);
        assert(left(d, start, budget, q) * flow[q.last() as int] >= 0) by (nonlinear_arith)
            requires
                left(d, start, budget, q) >= 0,
                flow[q.last() as int] >= 0,
        ;
    } else {
        assert(q.subrange(0, k) =~= q);
    }
}

/// Checks the time of an order: each valve can be reached from the one before
/// and the minutes do not run out.
pub fn possible(path: &Vec<usize>, dists: &Vec<Vec<Option<usize>>>, start: usize, minutes: u64) -> (r: bool)
    requires
        is_table(dview(dists), dists.len() as int),
        start < dists.len(),
        forall|i: int| 0 <= i < path.len() ==> path@[i] < dists.len(),
    ensures
        r == ((forall|i: int|
            0 <= i < path.len() ==> (#[trigger] dview(dists)[prev(start as int, path@, i)][path@[i] as int]) is Some)
            && left(dview(dists), start as int, minutes as int, path@) >= 0),
{
    let ghost d = dview(dists);
    let mut rem = minutes;
    let mut cur = start;
    let mut i: usize = 0;
    while i < path.len()
        invariant
            d == dview(dists),
            is_table(d, dists.len() as int),
            start < dists.len(),
            forall|j: int| 0 <= j < path.len() ==> path@[j] < dists.len(),
            i <= path.len(),
            cur as int == prev(start as int, path@, i as int),
            cur < dists.len(),
            rem as int == left(d, start as int, minutes as int, path@.subrange(0, i as int)),
            forall|j: int| 0 <= j < i ==> (#[trigger] d[prev(start as int, path@, j)][path@[j] as int]) is Some,
        decreases path.len() - i,
    {
        let next = path[i];
        let ghost p = path@.subrange(0, i as int);
        proof {
            assert(path@.subrange(0, i as int + 1) =~= p.push(next));
            lemma_push(d, Seq::empty(), start as int, minutes as int, p, next);
            assert(dists@[cur as int]@ == d[cur as int]);
        }
        match dists[cur][next] {
            None => {
                return false;
            },
            Some(x) => {
                if x as u64 >= rem {
                    proof {
                        lemma_left_prefix(d, start as int, minutes as int, path@, i as int + 1);
                    }
                    return false;
                }
                rem = rem - x as u64 - 1;
            },
        }
        cur = next;
        i += 1;
    }
    proof {
        assert(path@.subrange(0, i as int) =~= path@);
    }
    true
}

/// Whether `v` occurs in `path`.
fn holds(path: &Vec<usize>, v: usize) -> (r: bool)
    ensures
        r == path@.contains(v),
{
    let mut i: usize = 0;
    while i < path.len()
        invariant
            i <= path.len(),
            forall|j: int| 0 <= j < i ==> path@[j] != v,
        decreases path.len() - i,
    {
        if path[i] == v {
            proof {
                assert(path@[i as int] == v);
            }
            return true;
        }
        i += 1;
    }
    false
}

/// The feasible orders that add one more valve to the feasible order `path`,
/// in the order of the added valve.
pub fn extend(
    path: &Vec<usize>,
    dists: &Vec<Vec<Option<usize>>>,
    flows: &Vec<u64>,
    start: usize,
    minutes: u64,
) -> (r: Vec<Vec<usize>>)
    requires
        search_inputs(dview(dists), flows@, start as int, minutes as int),
        flows.len() == dists.len(),
        feasible(dview(dists), flows@, start as int, minutes as int, path@),
    ensures
        forall|k: int|
            0 <= k < r.len() ==> feasible(dview(dists), flows@, start as int, minutes as int, #[trigger] r@[k]@)
                && r@[k]@.len() == path.len() + 1 && extends(r@[k]@, path@),
        forall|v: usize|
            feasible(dview(dists), flows@, start as int, minutes as int, #[trigger] path@.push(v))
                ==> exists|k: int| 0 <= k < r.len() && r@[k]@ == path@.push(v),
        forall|a: int, b: int| 0 <= a < b < r.len() ==> #[trigger] r@[a]@ != #[trigger] r@[b]@,
{
    let ghost d = dview(dists);
    let n = flows.len();
    let mut out: Vec<Vec<usize>> = Vec::new();
    let mut v: usize = 0;
    while v < n
        invariant
            d == dview(dists),
            n == flows.len(),
            flows.len() == dists.len(),
            search_inputs(d, flows@, start as int, minutes as int),
            feasible(d, flows@, start as int, minutes as int, path@),
            v <= n,
            forall|k: int|
                0 <= k < out.len() ==> feasible(d, flows@, start as int, minutes as int, #[trigger] out@[k]@)
                    && out@[k]@.len() == path.len() + 1 && extends(out@[k]@, path@),
            forall|w: usize|
                w < v && feasible(d, flows@, start as int, minutes as int, #[trigger] path@.push(w))
                    ==> exists|k: int| 0 <= k < out.len() && out@[k]@ == path@.push(w),
            forall|k: int| 0 <= k < out.len() ==> (#[trigger] out@[k])@[path.len() as int] < v,
            forall|a: int, b: int|
                0 <= a < b < out.len() ==> (#[trigger] out@[a])@[path.len() as int] < (#[trigger] out@[b])@[path.len() as int],
        decreases n - v,
    {
        if flows[v] > 0 && !holds(path, v) {
            let mut next = path.clone();
            next.push(v);
            proof {
                assert(next@ =~= path@.push(v));
                assert(next@.subrange(0, path.len() as int) =~= path@);
            }
            if possible(&next, dists, start, minutes) {
                proof {
                    assert forall|i: int, j: int| 0 <= i < j < next.len() implies next@[i] != next@[j] by {
                        if j == path.len() {
                            assert(path@[i] == next@[i]);
                        }
                    }
                }
                let ghost before = out@;
                out.push(next);
                proof {
                    assert(out@[before.len() as int]@[path.len() as int] == v);
                    assert forall|k: int| 0 <= k < before.len() implies out@[k] == before[k] by {}
                    assert forall|w: usize|
                        w < v + 1 && feasible(d, flows@, start as int, minutes as int, #[trigger] path@.push(w))
                            implies exists|k: int| 0 <= k < out.len() && out@[k]@ == path@.push(w) by {
                        if w < v {
                            let k = choose|k: int| 0 <= k < before.len() && before[k]@ == path@.push(w);
                            assert(out@[k] == before[k]);
                        } else {
                            assert(out@[before.len() as int]@ == path@.push(w));
                        }
                    }
                }
            } else {
                proof {
                    assert(!feasible(d, flows@, start as int, minutes as int, path@.push(v)));
                }
            }
        } else {
            proof {
                if path@.contains(v) {
                    let i = choose|i: int| 0 <= i < path.len() && path@[i] == v;
                    assert(path@.push(v)[i] == path@.push(v)[path.len() as int]);
                }
                assert(!feasible(d, flows@, start as int, minutes as int, path@.push(v)));
            }
        }
        v += 1;
    }
    proof {
        assert forall|a: int, b: int| 0 <= a < b < out.len() implies #[trigger] out@[a]@ != #[trigger] out@[b]@ by {
            assert(out@[a]@[path.len() as int] < out@[b]@[path.len() as int]);
        }
    }
    out
}

/// Pressure released by the feasible order `path`.
pub fn path_score(
    path: &Vec<usize>,
    dists: &Vec<Vec<Option<usize>>>,
    flows: &Vec<u64>,
    start: usize,
    budget: u64,
) -> (r: u64)
    requires
        search_inputs(dview(dists), flows@, start as int, budget as int),
        flows.len() == dists.len(),
        feasible(dview(dists), flows@, start as int, budget as int, path@),
    ensures
        r == score(dview(dists), flows@, start as int, budget as int, path@),
        r <= budget * (budget * MAX_FLOW),
{
    let ghost d = dview(dists);
    let ghost bf = budget * MAX_FLOW;
    let mut mins = budget;
    let mut s: u64 = 0;
    let mut cur = start;
    let mut i: usize = 0;
    proof {
        assert(path@.subrange(0, 0) =~= Seq::<usize>::empty());
        assert(bf <= MAX_BUDGET * MAX_FLOW) by (nonlinear_arith)
            requires
                bf == budget * MAX_FLOW,
                budget <= MAX_BUDGET,
        ;
    }
    while i < path.len()
        invariant
            d == dview(dists),
            search_inputs(d, flows@, start as int, budget as int),
            flows.len() == dists.len(),
            feasible(d, flows@, start as int, budget as int, path@),
            bf == budget * MAX_FLOW,
            bf <= MAX_BUDGET * MAX_FLOW,
            i <= path.len(),
            cur as int == prev(start as int, path@, i as int),
            cur < dists.len(),
            mins as int == left(d, start as int, budget as int, path@.subrange(0, i as int)),
            s as int == score(d, flows@, start as int, budget as int, path@.subrange(0, i as int)),
            i <= budget - mins,
            s <= i * bf,
        decreases path.len() - i,
    {
        let next = path[i];
        let ghost p = path@.subrange(0, i as int);
        proof {
            assert(path@.subrange(0, i as int + 1) =~= p.push(next));
            lemma_push(d, flows@, start as int, budget as int, p, next);
            lemma_left_prefix(d, start as int, budget as int, path@, i as int + 1);
            lemma_left_prefix(d, start as int, budget as int, path@, i as int);
            assert(dists@[cur as int]@ == d[cur as int]);
            assert(d[prev(start as int, path@, i as int)][path@[i as int] as int] is Some);
        }
        let x = match dists[cur][next] {
            Some(x) => x,
            None => 0,
        };
        mins = mins - x as u64 - 1;
        let f = flows[next];
        proof {
            assert(mins * f <= bf) by (nonlinear_arith)
                requires
                    mins <= budget,
                    f <= MAX_FLOW,
                    bf == budget * MAX_FLOW,
            ;
            assert(s + mins * f <= (i + 1) * bf) by (nonlinear_arith)
                requires
                    s <= i * bf,
                    mins * f <= bf,
            ;
            assert((i + 1) * bf <= MAX_BUDGET * (MAX_BUDGET * MAX_FLOW)) by (nonlinear_arith)
                requires
                    i + 1 <= budget,
                    budget <= MAX_BUDGET,
                    bf <= MAX_BUDGET * MAX_FLOW,
            ;
        }
        s = s + mins * f;
        cur = next;
        i += 1;
    }
    proof {
        assert(path@.subrange(0, i as int) =~= path@);
        assert(s <= budget * bf) by (nonlinear_arith)
            requires
                s <= i * bf,
                i <= budget,
                0 <= bf,
        ;
    }
    s
}

proof fn lemma_extends_trans(a: Seq<usize>, b: Seq<usize>, c: Seq<usize>)
    requires
        extends(a, b),
        extends(b, c),
    ensures
        extends(a, c),
{
    assert(a.subrange(0, c.len() as int) =~= b.subrange(0, c.len() as int));
}

/// A feasible order that extends `path` by at least one valve extends one of
/// the orders that `extend` returns.
proof fn lemma_longer_extends_child(
    d: Seq<Seq<Option<usize>>>,
    flow: Seq<u64>,
    start: int,
    budget: int,
    path: Seq<usize>,
    q: Seq<usize>,
) -> (v: usize)
    requires
        feasible(d, flow, start, budget, q),
        extends(q, path),
        q.len() > path.len(),
    ensures
        feasible(d, flow, start, budget, path.push(v)),
        extends(q, path.push(v)),
{
    let v = q[path.len() as int];
    lemma_prefix_feasible(d, flow, start, budget, q, path.len() as int + 1);
    assert(q.subrange(0, path.len() as int + 1) =~= path.push(v));
    v
}

/// The largest score of a feasible order that extends the feasible order
/// `path`. Orders are explored valve by valve; an order with no feasible
/// extension is scored.
pub fn explore(
    path: &Vec<usize>,
    dists: &Vec<Vec<Option<usize>>>,
    flows: &Vec<u64>,
    start: usize,
    budget: u64,
) -> (r: u64)
    requires
        search_inputs(dview(dists), flows@, start as int, budget as int),
        flows.len() == dists.len(),
        feasible(dview(dists), flows@, start as int, budget as int, path@),
    ensures
        exists|q: Seq<usize>|
            #[trigger] feasible(dview(dists), flows@, start as int, budget as int, q) && extends(q, path@)
                && score(dview(dists), flows@, start as int, budget as int, q) == r,
        forall|q: Seq<usize>|
            #[trigger] feasible(dview(dists), flows@, start as int, budget as int, q) && extends(q, path@)
                ==> score(dview(dists), flows@, start as int, budget as int, q) <= r,
    decreases left(dview(dists), start as int, budget as int, path@),
{
    let ghost d = dview(dists);
    let ghost (st, bu) = (start as int, budget as int);
    let next = extend(path, dists, flows, start, budget);
    if next.len() == 0 {
        let r = path_score(path, dists, flows, start, budget);
        proof {
            assert(extends(path@, path@)) by {
                assert(path@.subrange(0, path.len() as int) =~= path@);
            }
            assert forall|q: Seq<usize>| #[trigger] feasible(d, flows@, st, bu, q) && extends(q, path@) implies score(
                d,
                flows@,
                st,
                bu,
                q,
            ) <= r by {
                if q.len() > path.len() {
                    let v = lemma_longer_extends_child(d, flows@, st, bu, path@, q);
                } else {
                    assert(q =~= path@);
                }
            }
        }
        return r;
    }
    proof {
        lemma_child_smaller(d, flows@, st, bu, path@, next@[0]@);
    }
    let mut best = explore(&next[0], dists, flows, start, budget);
    let mut k: usize = 1;
    proof {
        let q0 = choose|q: Seq<usize>| #[trigger] feasible(d, flows@, st, bu, q) && extends(q, next@[0]@)
            && score(d, flows@, st, bu, q) == best;
        lemma_extends_trans(q0, next@[0]@, path@);
    }
    while k < next.len()
        invariant
            d == dview(dists),
            st == start as int,
            bu == budget as int,
            search_inputs(d, flows@, st, bu),
            flows.len() == dists.len(),
            feasible(d, flows@, st, bu, path@),
            forall|j: int|
                0 <= j < next.len() ==> feasible(d, flows@, st, bu, #[trigger] next@[j]@)
                    && next@[j]@.len() == path.len() + 1 && extends(next@[j]@, path@),
            1 <= k <= next.len(),
            exists|q: Seq<usize>|
                #[trigger] feasible(d, flows@, st, bu, q) && extends(q, path@) && score(d, flows@, st, bu, q) == best,
            forall|j: int, q: Seq<usize>|
                0 <= j < k && #[trigger] feasible(d, flows@, st, bu, q) && extends(q, #[trigger] next@[j]@)
                    ==> score(d, flows@, st, bu, q) <= best,
        decreases next.len() - k,
    {
        proof {
            lemma_child_smaller(d, flows@, st, bu, path@, next@[k as int]@);
        }
        let r = explore(&next[k], dists, flows, start, budget);
        if r > best {
            proof {
                let q0 = choose|q: Seq<usize>| #[trigger] feasible(d, flows@, st, bu, q) && extends(q, next@[k as int]@)
                    && score(d, flows@, st, bu, q) == r;
                lemma_extends_trans(q0, next@[k as int]@, path@);
            }
            best = r;
        }
        k += 1;
    }
    proof {
        assert forall|q: Seq<usize>| #[trigger] feasible(d, flows@, st, bu, q) && extends(q, path@) implies score(
            d,
            flows@,
            st,
            bu,
            q,
        ) <= best by {
            if q.len() > path.len() {
                let v = lemma_longer_extends_child(d, flows@, st, bu, path@, q);
                let j = choose|j: int| 0 <= j < next.len() && next@[j]@ == path@.push(v);
                assert(extends(q, next@[j]@));
            } else {
                assert(q =~= path@);
                let c = next@[0]@;
                assert(extends(c, c)) by {
                    assert(c.subrange(0, c.len() as int) =~= c);
                }
                lemma_score_prefix(d, flows@, st, bu, c, path.len() as int);
                assert(c.subrange(0, path.len() as int) == path@);
            }
        }
    }
    best
}

/// A feasible order one valve longer than `path` has fewer minutes left.
proof fn lemma_child_smaller(
    d: Seq<Seq<Option<usize>>>,
    flow: Seq<u64>,
    start: int,
    budget: int,
    path: Seq<usize>,
    c: Seq<usize>,
)
    requires
        feasible(d, flow, start, budget, c),
        c.len() == path.len() + 1,
        extends(c, path),
    ensures
        0 <= left(d, start, budget, c) < left(d, start, budget, path),
{
    let v = c.last();
    assert(c =~= path.push(v));
    lemma_push(d, flow, start, budget, path, v);
    assert(d[prev(start, c, path.len() as int)][c[path.len() as int] as int] is Some);
}

/// Appends to `out` every feasible order that extends the feasible order
/// `path`, `path` itself first.
pub fn collect(
    path: &Vec<usize>,
    dists: &Vec<Vec<Option<usize>>>,
    flows: &Vec<u64>,
    start: usize,
    budget: u64,
    out: &mut Vec<Vec<usize>>,
)
    requires
        search_inputs(dview(dists), flows@, start as int, budget as int),
        flows.len() == dists.len(),
        feasible(dview(dists), flows@, start as int, budget as int, path@),
    ensures
        final(out).len() >= old(out).len(),
        forall|i: int| 0 <= i < old(out).len() ==> #[trigger] final(out)@[i] == old(out)@[i],
        forall|i: int|
            old(out).len() <= i < final(out).len() ==> feasible(
                dview(dists),
                flows@,
                start as int,
                budget as int,
                #[trigger] final(out)@[i]@,
            ) && extends(final(out)@[i]@, path@),
        forall|q: Seq<usize>|
            #[trigger] feasible(dview(dists), flows@, start as int, budget as int, q) && extends(q, path@)
                ==> exists|i: int| old(out).len() <= i < final(out).len() && final(out)@[i]@ == q,
    decreases left(dview(dists), start as int, budget as int, path@),
{
    let ghost d = dview(dists);
    let ghost (st, bu) = (start as int, budget as int);
    let ghost base = out@;
    let ghost at = out.len() as int;
    out.push(path.clone());
    proof {
        assert(extends(path@, path@)) by {
            assert(path@.subrange(0, path.len() as int) =~= path@);
        }
    }
    let next = extend(path, dists, flows, start, budget);
    let mut k: usize = 0;
    while k < next.len()
        invariant
            d == dview(dists),
            st == start as int,
            bu == budget as int,
            search_inputs(d, flows@, st, bu),
            flows.len() == dists.len(),
            feasible(d, flows@, st, bu, path@),
            forall|j: int|
                0 <= j < next.len() ==> feasible(d, flows@, st, bu, #[trigger] next@[j]@)
                    && next@[j]@.len() == path.len() + 1 && extends(next@[j]@, path@),
            k <= next.len(),
            at == base.len(),
            out.len() > at,
            forall|i: int| 0 <= i < at ==> #[trigger] out@[i] == base[i],
            out@[at]@ == path@,
            forall|i: int| at <= i < out.len() ==> feasible(d, flows@, st, bu, #[trigger] out@[i]@) && extends(out@[i]@, path@),
            forall|j: int, q: Seq<usize>|
                0 <= j < k && #[trigger] feasible(d, flows@, st, bu, q) && extends(q, #[trigger] next@[j]@)
                    ==> exists|i: int| at <= i < out.len() && out@[i]@ == q,
        decreases next.len() - k,
    {
        proof {
            lemma_child_smaller(d, flows@, st, bu, path@, next@[k as int]@);
        }
        let ghost mid = out@;
        collect(&next[k], dists, flows, start, budget, out);
        proof {
            assert forall|i: int| at <= i < out.len() implies feasible(d, flows@, st, bu, #[trigger] out@[i]@)
                && extends(out@[i]@, path@) by {
                if i >= mid.len() {
                    lemma_extends_trans(out@[i]@, next@[k as int]@, path@);
                } else {
                    assert(out@[i] == mid[i]);
                }
            }
            assert forall|j: int, q: Seq<usize>|
                0 <= j < k + 1 && #[trigger] feasible(d, flows@, st, bu, q) && extends(q, #[trigger] next@[j]@)
                    implies exists|i: int| at <= i < out.len() && out@[i]@ == q by {
                if j < k {
                    let i = choose|i: int| at <= i < mid.len() && mid[i]@ == q;
                    assert(out@[i] == mid[i]);
                }
            }
        }
        k += 1;
    }
    proof {
        assert forall|q: Seq<usize>| #[trigger] feasible(d, flows@, st, bu, q) && extends(q, path@) implies exists|i: int|
            at <= i < out.len() && out@[i]@ == q by {
            if q.len() > path.len() {
                let v = lemma_longer_extends_child(d, flows@, st, bu, path@, q);
                let j = choose|j: int| 0 <= j < next.len() && next@[j]@ == path@.push(v);
                assert(extends(q, next@[j]@));
            } else {
                assert(q =~= path@);
            }
        }
    }
}

/// Whether no valve occurs in both orders.
pub fn shares_none(p: &Vec<usize>, q: &Vec<usize>) -> (r: bool)
    ensures
        r == disjoint(p@, q@),
{
    let mut i: usize = 0;
    while i < p.len()
        invariant
            i <= p.len(),
            forall|a: int, b: int| 0 <= a < i && 0 <= b < q.len() ==> p@[a] != q@[b],
        decreases p.len() - i,
    {
        if holds(q, p[i]) {
            return false;
        }
        i += 1;
    }
    true
}

/// The largest combined score of two orders of `paths` that share no valve,
/// where `paths` holds every feasible order and `scores` their scores.
fn pair_max(
    paths: &Vec<Vec<usize>>,
    scores: &Vec<u64>,
    dists: &Vec<Vec<Option<usize>>>,
    flows: &Vec<u64>,
    start: usize,
    budget: u64,
) -> (r: u64)
    requires
        search_inputs(dview(dists), flows@, start as int, budget as int),
        scores.len() == paths.len(),
        forall|i: int|
            0 <= i < paths.len() ==> feasible(dview(dists), flows@, start as int, budget as int, #[trigger] paths@[i]@)
                && scores@[i] == score(dview(dists), flows@, start as int, budget as int, paths@[i]@)
                && scores@[i] <= MAX_BUDGET * (MAX_BUDGET * MAX_FLOW),
        forall|q: Seq<usize>|
            #[trigger] feasible(dview(dists), flows@, start as int, budget as int, q) ==> exists|i: int|
                0 <= i < paths.len() && paths@[i]@ == q,
    ensures
        is_best_pair(dview(dists), flows@, start as int, budget as int, r as int),
{
    let ghost d = dview(dists);
    let ghost (st, bu) = (start as int, budget as int);
    let ghost e = Seq::<usize>::empty();
    let mut best: u64 = 0;
    proof {
        assert(feasible(d, flows@, st, bu, e));
        assert(disjoint(e, e));
    }
    let mut i: usize = 0;
    while i < paths.len()
        invariant
            d == dview(dists),
            st == start as int,
            bu == budget as int,
            scores.len() == paths.len(),
            forall|a: int|
                0 <= a < paths.len() ==> feasible(d, flows@, st, bu, #[trigger] paths@[a]@)
                    && scores@[a] == score(d, flows@, st, bu, paths@[a]@)
                    && scores@[a] <= MAX_BUDGET * (MAX_BUDGET * MAX_FLOW),
            i <= paths.len(),
            exists|p: Seq<usize>, q: Seq<usize>|
                #[trigger] feasible(d, flows@, st, bu, p) && #[trigger] feasible(d, flows@, st, bu, q) && disjoint(p, q)
                    && score(d, flows@, st, bu, p) + score(d, flows@, st, bu, q) == best,
            forall|a: int, b: int|
                0 <= a < i && a <= b < paths.len() && disjoint(#[trigger] paths@[a]@, #[trigger] paths@[b]@)
                    ==> scores@[a] + scores@[b] <= best,
        decreases paths.len() - i,
    {
        let mut j: usize = i;
        while j < paths.len()
            invariant
                d == dview(dists),
                st == start as int,
                bu == budget as int,
                scores.len() == paths.len(),
                forall|a: int|
                    0 <= a < paths.len() ==> feasible(d, flows@, st, bu, #[trigger] paths@[a]@)
                        && scores@[a] == score(d, flows@, st, bu, paths@[a]@)
                        && scores@[a] <= MAX_BUDGET * (MAX_BUDGET * MAX_FLOW),
                i < paths.len(),
                i <= j <= paths.len(),
                exists|p: Seq<usize>, q: Seq<usize>|
                    #[trigger] feasible(d, flows@, st, bu, p) && #[trigger] feasible(d, flows@, st, bu, q) && disjoint(p, q)
                        && score(d, flows@, st, bu, p) + score(d, flows@, st, bu, q) == best,
                forall|a: int, b: int|
                    (0 <= a < i && a <= b < paths.len() || a == i && i <= b < j) && disjoint(
                        #[trigger] paths@[a]@,
                        #[trigger] paths@[b]@,
                    ) ==> scores@[a] + scores@[b] <= best,
            decreases paths.len() - j,
        {
            if shares_none(&paths[i], &paths[j]) {
                let total = scores[i] + scores[j];
                if total > best {
                    proof {
                        assert(feasible(d, flows@, st, bu, paths@[i as int]@));
                        assert(feasible(d, flows@, st, bu, paths@[j as int]@));
                    }
                    best = total;
                }
            }
            j += 1;
        }
        i += 1;
    }
    proof {
        assert forall|p: Seq<usize>, q: Seq<usize>|
            #[trigger] feasible(d, flows@, st, bu, p) && #[trigger] feasible(d, flows@, st, bu, q) && disjoint(p, q)
                implies score(d, flows@, st, bu, p) + score(d, flows@, st, bu, q) <= best by {
            let a = choose|a: int| 0 <= a < paths.len() && paths@[a]@ == p;
            let b = choose|b: int| 0 <= b < paths.len() && paths@[b]@ == q;
            if a <= b {
                assert(disjoint(paths@[a]@, paths@[b]@));
            } else {
                assert(disjoint(paths@[b]@, paths@[a]@));
            }
        }
    }
    best
}

/// Shortest hop counts between all valves of the tunnel lists `tunnels`,
/// `None` where there is no way; one breadth-first search from each valve.
pub fn dists_floyd_warshall(tunnels: &Vec<Vec<usize>>) -> (d: Vec<Vec<Option<usize>>>)
    requires
        well_formed(adj_view(tunnels)),
    ensures
        is_dist_table(adj_view(tunnels), dview(&d)),
{
    let n = tunnels.len();
    let mut d: Vec<Vec<Option<usize>>> = Vec::new();
    let mut a: usize = 0;
    while a < n
        invariant
            n == tunnels.len(),
            well_formed(adj_view(tunnels)),
            a <= n,
            d.len() == a,
            forall|u: int| 0 <= u < a ==> (#[trigger] d@[u]).len() == n && bfs_result(adj_step(adj_view(tunnels)), u, d@[u]@),
        decreases n - a,
    {
        let row = bfs(tunnels, a);
        d.push(row);
        a += 1;
    }
    proof {
        let g = adj_view(tunnels);
        let t = dview(&d);
        assert forall|u: int| 0 <= u < n implies #[trigger] t[u].len() == n by {
            assert(t[u] == d@[u]@);
        }
        assert forall|u: int, v: int| 0 <= u < g.len() && 0 <= v < g.len() implies match #[trigger] t[u][v] {
            Some(x) => is_dist(adj_step(g), u, v, x as nat),
            None => !reachable(adj_step(g), u, v),
        } by {
            assert(t[u] == d@[u]@);
            assert(bfs_result(adj_step(g), u, d@[u]@));
        }
    }
    d
}

/// The largest combined score of two feasible orders that share no valve:
/// every feasible order is collected, then each two are compared.
fn pair_search(
    dists: &Vec<Vec<Option<usize>>>,
    flows: &Vec<u64>,
    start: usize,
    budget: u64,
) -> (r: u64)
    requires
        search_inputs(dview(dists), flows@, start as int, budget as int),
        flows.len() == dists.len(),
    ensures
        is_best_pair(dview(dists), flows@, start as int, budget as int, r as int),
{
    let ghost d = dview(dists);
    let empty: Vec<usize> = Vec::new();
    let mut paths: Vec<Vec<usize>> = Vec::new();
    proof {
        assert(feasible(d, flows@, start as int, budget as int, empty@));
    }
    collect(&empty, dists, flows, start, budget, &mut paths);
    let mut scores: Vec<u64> = Vec::new();
    let mut i: usize = 0;
    while i < paths.len()
        invariant
            d == dview(dists),
            search_inputs(d, flows@, start as int, budget as int),
            flows.len() == dists.len(),
            forall|a: int| 0 <= a < paths.len() ==> feasible(d, flows@, start as int, budget as int, #[trigger] paths@[a]@),
            i <= paths.len(),
            scores.len() == i,
            forall|a: int|
                0 <= a < i ==> #[trigger] scores@[a] == score(d, flows@, start as int, budget as int, paths@[a]@)
                    && scores@[a] <= MAX_BUDGET * (MAX_BUDGET * MAX_FLOW),
        decreases paths.len() - i,
    {
        let s = path_score(&paths[i], dists, flows, start, budget);
        proof {
            assert(budget * (budget * MAX_FLOW) <= MAX_BUDGET * (MAX_BUDGET * MAX_FLOW)) by (nonlinear_arith)
                requires
                    budget <= MAX_BUDGET,
            ;
        }
        scores.push(s);
        i += 1;
    }
    proof {
        assert forall|q: Seq<usize>| #[trigger] feasible(d, flows@, start as int, budget as int, q) implies exists|a: int|
            0 <= a < paths.len() && paths@[a]@ == q by {
            assert(q.subrange(0, 0) =~= empty@);
        }
    }
    pair_max(&paths, &scores, dists, flows, start, budget)
}

/// The empty order is feasible and releases nothing.
pub proof fn lemma_empty_order(d: Seq<Seq<Option<usize>>>, flow: Seq<u64>, start: int, budget: int)
    requires
        budget >= 0,
    ensures
        feasible(d, flow, start, budget, Seq::<usize>::empty()),
        score(d, flow, start, budget, Seq::<usize>::empty()) == 0,
{
}

proof fn lemma_more_budget(
    d: Seq<Seq<Option<usize>>>,
    flow: Seq<u64>,
    start: int,
    b1: int,
    b2: int,
    p: Seq<usize>,
)
    requires
        b1 <= b2,
    ensures
        left(d, start, b2, p) == left(d, start, b1, p) + (b2 - b1),
        feasible(d, flow, start, b1, p) ==> score(d, flow, start, b1, p) <= score(d, flow, start, b2, p),
    decreases p.len(),
{
    if p.len() > 0 {
        let r = p.drop_last();
        lemma_more_budget(d, flow, start, b1, b2, r);
        if feasible(d, flow, start, b1, p) {
            assert(r =~= p.subrange(0, p.len() - 1));
            lemma_prefix_feasible(d, flow, start, b1, p, p.len() - 1);
            let f = flow[p.last() as int] as int;
            let l1 = left(d, start, b1, p);
            let l2 = left(d, start, b2, p);
            assert(l1 * f <= l2 * f) by (nonlinear_arith)
                requires
                    l1 <= l2,
                    0 <= f,
            ;
        }
    }
}

/// A larger budget never lowers the best score.
pub proof fn lemma_best_monotone(
    d: Seq<Seq<Option<usize>>>,
    flow: Seq<u64>,
    start: int,
    b1: int,
    b2: int,
    r1: int,
    r2: int,
)
    requires
        b1 <= b2,
        is_best(d, flow, start, b1, r1),
        is_best(d, flow, start, b2, r2),
    ensures
        r1 <= r2,
{
    let p = choose|p: Seq<usize>| #[trigger] feasible(d, flow, start, b1, p) && score(d, flow, start, b1, p) == r1;
    lemma_more_budget(d, flow, start, b1, b2, p);
    assert(feasible(d, flow, start, b2, p));
}

/// Two agents together do at least as well as one agent alone, since the
/// other may open nothing.
pub proof fn lemma_pair_at_least_single(
    d: Seq<Seq<Option<usize>>>,
    flow: Seq<u64>,
    start: int,
    budget: int,
    r1: int,
    r2: int,
)
    requires
        is_best(d, flow, start, budget, r1),
        is_best_pair(d, flow, start, budget, r2),
    ensures
        r1 <= r2,
{
    let p = choose|p: Seq<usize>| #[trigger] feasible(d, flow, start, budget, p) && score(d, flow, start, budget, p) == r1;
    let e = Seq::<usize>::empty();
    lemma_left_prefix(d, start, budget, p, 0);
    assert(p.subrange(0, 0) =~= e);
    assert(feasible(d, flow, start, budget, e));
    assert(disjoint(p, e));
}

/// A cave of valves: valve `i` is called `names[i]`, has flow rate
/// `flows[i]`, and tunnels lead from it to the valves `tunnels[i]`.
pub struct Cave {
    pub names: Vec<(char, char)>,
    pub flows: Vec<u64>,
    pub tunnels: Vec<Vec<usize>>,
}

/// `i` is the first valve called `name`.
pub open spec fn is_first_name(names: Seq<(char, char)>, name: (char, char), i: int) -> bool {
    &&& 0 <= i < names.len()
    &&& names[i] == name
    &&& forall|j: int| 0 <= j < i ==> names[j] != name
}

impl Cave {
    pub open spec fn wf(&self) -> bool {
        &&& self.flows.len() == self.names.len()
        &&& self.tunnels.len() == self.names.len()
        &&& well_formed(adj_view(&self.tunnels))
    }

    /// Every flow rate is at most `MAX_FLOW`, which keeps scores within `u64`.
    pub open spec fn flows_small(&self) -> bool {
        forall|v: int| 0 <= v < self.flows.len() ==> #[trigger] self.flows@[v] <= MAX_FLOW
    }

    /// The first valve called `name`.
    pub fn index_of(&self, name: (char, char)) -> (r: Option<usize>)
        ensures
            match r {
                Some(i) => is_first_name(self.names@, name, i as int),
                None => !self.names@.contains(name),
            },
    {
        first_index(&self.names, name)
    }
}

/// The first position of `name` in `names`.
fn first_index(names: &Vec<(char, char)>, name: (char, char)) -> (r: Option<usize>)
    ensures
        match r {
            Some(i) => is_first_name(names@, name, i as int),
            None => !names@.contains(name),
        },
{
    let mut i: usize = 0;
    while i < names.len()
        invariant
            i <= names.len(),
            forall|j: int| 0 <= j < i ==> names@[j] != name,
        decreases names.len() - i,
    {
        let (a, b) = names[i];
        if a == name.0 && b == name.1 {
            return Some(i);
        }
        i += 1;
    }
    None
}

/// The first position in `names` of each name of `row`; `None` where one is
/// missing.
fn resolve(names: &Vec<(char, char)>, row: &Vec<(char, char)>) -> (r: Option<Vec<usize>>)
    ensures
        match r {
            Some(out) => out.len() == row.len() && forall|y: int|
                0 <= y < row.len() ==> is_first_name(names@, row@[y], #[trigger] out@[y] as int),
            None => exists|y: int| 0 <= y < row.len() && !names@.contains(#[trigger] row@[y]),
        },
{
    let mut out: Vec<usize> = Vec::new();
    let mut b: usize = 0;
    while b < row.len()
        invariant
            b <= row.len(),
            out.len() == b,
            forall|y: int| 0 <= y < b ==> is_first_name(names@, row@[y], #[trigger] out@[y] as int),
        decreases row.len() - b,
    {
        match first_index(names, row[b]) {
            Some(k) => {
                out.push(k);
            },
            None => {
                return None;
            },
        }
        b += 1;
    }
    Some(out)
}

/// `l` describes a valve with a flow rate that fits in `u64`.
pub open spec fn line_ok(l: Seq<char>) -> bool {
    exists|n: (char, char), f: nat, t: Seq<(char, char)>| #[trigger] valve_line(l, n, f, t) && f <= u64::MAX
}

/// Some line of `ls` describes the valve `name`.
pub open spec fn names_valve(ls: Seq<Seq<char>>, name: (char, char)) -> bool {
    exists|k: int, f: nat, t: Seq<(char, char)>| 0 <= k < ls.len() && #[trigger] valve_line(ls[k], name, f, t)
}

/// Every line describes a valve with a flow rate that fits in `u64`, and
/// every tunnel leads to a valve that some line describes.
pub open spec fn parsable(ls: Seq<Seq<char>>) -> bool {
    &&& forall|i: int| 0 <= i < ls.len() ==> #[trigger] line_ok(ls[i])
    &&& forall|i: int, n: (char, char), f: nat, t: Seq<(char, char)>, j: int|
        #![trigger valve_line(ls[i], n, f, t), t[j]]
        0 <= i < ls.len() && valve_line(ls[i], n, f, t) && 0 <= j < t.len() ==> names_valve(ls, t[j])
}

/// `l` describes the valve `name` with flow rate `flow`, whose tunnels lead to
/// the first valves of `names` that carry the names listed in `l`.
pub open spec fn line_read(l: Seq<char>, name: (char, char), flow: nat, tunnels: Seq<usize>, names: Seq<(char, char)>) -> bool {
    exists|t: Seq<(char, char)>|
        #[trigger] valve_line(l, name, flow, t) && tunnels.len() == t.len() && forall|j: int|
            0 <= j < t.len() ==> is_first_name(names, t[j], #[trigger] tunnels[j] as int)
}

/// Valve `i` of `c` is the one line `i` of `ls` describes.
pub open spec fn parsed_from(ls: Seq<Seq<char>>, c: &Cave) -> bool {
    &&& c.names.len() == ls.len()
    &&& forall|i: int|
        0 <= i < ls.len() ==> #[trigger] line_read(ls[i], c.names@[i], c.flows@[i] as nat, c.tunnels@[i]@, c.names@)
}

/// The cave that the lines of `input` describe, `None` where they do not
/// describe one.
pub fn parse(input: &str) -> (r: Option<Cave>)
    ensures
        match r {
            Some(c) => c.wf() && parsable(lines_of(input@)) && parsed_from(lines_of(input@), &c),
            None => !parsable(lines_of(input@)),
        },
{
    let lines = char_lines(input);
    let ghost ls = lines_of(input@);
    let mut names: Vec<(char, char)> = Vec::new();
    let mut flows: Vec<u64> = Vec::new();
    let mut links: Vec<Vec<(char, char)>> = Vec::new();
    let mut i: usize = 0;
    while i < lines.len()
        invariant
            ls == lines_of(input@),
            lines.len() == ls.len(),
            forall|x: int| 0 <= x < lines.len() ==> #[trigger] lines@[x]@ == ls[x],
            i <= lines.len(),
            names.len() == i,
            flows.len() == i,
            links.len() == i,
            forall|x: int|
                0 <= x < i ==> #[trigger] valve_line(ls[x], names@[x], flows@[x] as nat, links@[x]@)
                    && flows@[x] <= u64::MAX,
        decreases lines.len() - i,
    {
        proof {
            assert(lines@[i as int]@ == ls[i as int]);
        }
        match parse_line(&lines[i], u64::MAX) {
            Some((n, f, t)) => {
                names.push(n);
                flows.push(f);
                links.push(t);
                proof {
                    assert(valve_line(ls[i as int], names@[i as int], flows@[i as int] as nat, links@[i as int]@));
                }
            },
            None => {
                proof {
                    assert(!parsable(ls)) by {
                        if parsable(ls) {
                            assert(line_ok(ls[i as int]));
                        }
                    }
                }
                return None;
            },
        }
        i += 1;
    }
    let mut tunnels: Vec<Vec<usize>> = Vec::new();
    let mut a: usize = 0;
    while a < links.len()
        invariant
            ls == lines_of(input@),
            names.len() == ls.len(),
            flows.len() == ls.len(),
            links.len() == ls.len(),
            forall|x: int|
                0 <= x < ls.len() ==> #[trigger] valve_line(ls[x], names@[x], flows@[x] as nat, links@[x]@)
                    && flows@[x] <= u64::MAX,
            a <= links.len(),
            tunnels.len() == a,
            forall|x: int| 0 <= x < a ==> (#[trigger] tunnels@[x]).len() == links@[x].len(),
            forall|x: int, y: int|
                0 <= x < a && 0 <= y < links@[x].len() ==> is_first_name(names@, links@[x]@[y], #[trigger] tunnels@[x]@[y] as int),
        decreases links.len() - a,
    {
        let found = resolve(&names, &links[a]);
        let out = match found {
            Some(out) => out,
            None => {
                proof {
                    assert(!parsable(ls)) by {
                        let t = links@[a as int]@;
                        let y = choose|y: int| 0 <= y < t.len() && !names@.contains(#[trigger] t[y]);
                        assert(valve_line(ls[a as int], names@[a as int], flows@[a as int] as nat, t));
                        if parsable(ls) {
                            assert(names_valve(ls, t[y]));
                            let (k, f2, t2) = choose|k: int, f2: nat, t2: Seq<(char, char)>|
                                0 <= k < ls.len() && #[trigger] valve_line(ls[k], t[y], f2, t2);
                            assert(valve_line(ls[k], names@[k], flows@[k] as nat, links@[k]@));
                            lemma_line_unique(ls[k], t[y], f2, t2, names@[k], flows@[k] as nat, links@[k]@);
                            assert(names@[k] == t[y]);
                        }
                    }
                }
                return None;
            },
        };
        tunnels.push(out);
        a += 1;
    }
    let c = Cave { names, flows, tunnels };
    proof {
        let g = adj_view(&c.tunnels);
        assert forall|u: int, x: int| 0 <= u < g.len() && 0 <= x < g[u].len() implies (#[trigger] g[u][x] as int) < g.len() by {
            assert(g[u] == c.tunnels@[u]@);
            assert(is_first_name(c.names@, links@[u]@[x], c.tunnels@[u]@[x] as int));
        }
        assert forall|x: int| 0 <= x < ls.len() implies #[trigger] line_read(ls[x], c.names@[x], c.flows@[x] as nat, c.tunnels@[x]@, c.names@) by {
            assert(valve_line(ls[x], c.names@[x], c.flows@[x] as nat, links@[x]@));
        }
        assert forall|x: int| 0 <= x < ls.len() implies #[trigger] line_ok(ls[x]) by {
            assert(valve_line(ls[x], c.names@[x], c.flows@[x] as nat, links@[x]@));
        }
        assert forall|x: int, n: (char, char), f: nat, t: Seq<(char, char)>, j: int|
            #![trigger valve_line(ls[x], n, f, t), t[j]]
            0 <= x < ls.len() && valve_line(ls[x], n, f, t) && 0 <= j < t.len() implies names_valve(ls, t[j]) by {
            assert(valve_line(ls[x], c.names@[x], c.flows@[x] as nat, links@[x]@));
            lemma_line_unique(ls[x], n, f, t, c.names@[x], c.flows@[x] as nat, links@[x]@);
            let k = c.tunnels@[x]@[j] as int;
            assert(is_first_name(c.names@, links@[x]@[j], k));
            assert(valve_line(ls[k], c.names@[k], c.flows@[k] as nat, links@[k]@));
        }
        assert(c.wf());
        assert(parsable(ls));
        assert(parsed_from(ls, &c));
    }
    Some(c)
}

/// `r` is the best score of one agent that starts at the first valve `AA`
/// of `c` with `budget` minutes.
pub open spec fn single_agent_spec(c: &Cave, budget: int, r: int) -> bool {
    exists|d: Seq<Seq<Option<usize>>>, s: int|
        is_dist_table(adj_view(&c.tunnels), d) && is_first_name(c.names@, ('A', 'A'), s) && #[trigger] is_best(
            d,
            c.flows@,
            s,
            budget,
            r,
        )
}

/// `r` is the best combined score of two agents that start at the first
/// valve `AA` of `c` with `budget` minutes each.
pub open spec fn two_agent_spec(c: &Cave, budget: int, r: int) -> bool {
    exists|d: Seq<Seq<Option<usize>>>, s: int|
        is_dist_table(adj_view(&c.tunnels), d) && is_first_name(c.names@, ('A', 'A'), s) && #[trigger] is_best_pair(
            d,
            c.flows@,
            s,
            budget,
            r,
        )
}

/// The most pressure one agent can release from valve `AA` in `budget` minutes.
pub fn best_score(c: &Cave, budget: u64) -> (r: u64)
    requires
        c.wf(),
        c.flows_small(),
        c.names@.contains(('A', 'A')),
        budget <= MAX_BUDGET,
    ensures
        single_agent_spec(c, budget as int, r as int),
{
    let start = match c.index_of(('A', 'A')) {
        Some(i) => i,
        None => 0,
    };
    let dists = dists_floyd_warshall(&c.tunnels);
    let empty: Vec<usize> = Vec::new();
    proof {
        assert(feasible(dview(&dists), c.flows@, start as int, budget as int, empty@));
    }
    let r = explore(&empty, &dists, &c.flows, start, budget);
    proof {
        let d = dview(&dists);
        assert forall|q: Seq<usize>| #[trigger] feasible(d, c.flows@, start as int, budget as int, q) implies extends(
            q,
            empty@,
        ) by {
            assert(q.subrange(0, 0) =~= empty@);
        }
        assert(is_best(d, c.flows@, start as int, budget as int, r as int));
    }
    r
}

/// The most pressure two agents opening different valves can release from
/// valve `AA` in `budget` minutes each.
pub fn best_pair_score(c: &Cave, budget: u64) -> (r: u64)
    requires
        c.wf(),
        c.flows_small(),
        c.names@.contains(('A', 'A')),
        budget <= MAX_BUDGET,
    ensures
        two_agent_spec(c, budget as int, r as int),
{
    let start = match c.index_of(('A', 'A')) {
        Some(i) => i,
        None => 0,
    };
    let dists = dists_floyd_warshall(&c.tunnels);
    let r = pair_search(&dists, &c.flows, start, budget);
    proof {
        assert(is_best_pair(dview(&dists), c.flows@, start as int, budget as int, r as int));
    }
    r
}

/// The most pressure one agent can release in 30 minutes.
pub fn part_one(c: &Cave) -> (r: u64)
    requires
        c.wf(),
        c.flows_small(),
        c.names@.contains(('A', 'A')),
    ensures
        single_agent_spec(c, 30, r as int),
{
    best_score(c, 30)
}

/// The most pressure two agents can release in 26 minutes.
pub fn part_two(c: &Cave) -> (r: u64)
    requires
        c.wf(),
        c.flows_small(),
        c.names@.contains(('A', 'A')),
    ensures
        two_agent_spec(c, 26, r as int),
{
    best_pair_score(c, 26)
}

/// A graph has one table of fewest tunnels.
proof fn lemma_table_unique(g: Seq<Seq<usize>>, d1: Seq<Seq<Option<usize>>>, d2: Seq<Seq<Option<usize>>>)
    requires
        is_dist_table(g, d1),
        is_dist_table(g, d2),
    ensures
        d1 == d2,
{
    let step = adj_step(g);
    assert forall|a: int| 0 <= a < g.len() implies #[trigger] d1[a] =~= d2[a] by {
        assert forall|b: int| 0 <= b < g.len() implies d1[a][b] == d2[a][b] by {
            match (d1[a][b], d2[a][b]) {
                (Some(x), Some(y)) => {
                    if x < y {
                        assert(reach(step, a, b, x as nat));
                    }
                    if y < x {
                        assert(reach(step, a, b, y as nat));
                    }
                },
                (Some(x), None) => {
                    assert(reach(step, a, b, x as nat));
                    assert(reachable(step, a, b));
                },
                (None, Some(y)) => {
                    assert(reach(step, a, b, y as nat));
                    assert(reachable(step, a, b));
                },
                (None, None) => {},
            }
        }
    }
    assert(d1 =~= d2);
}

/// A larger budget never lowers the most pressure that one agent releases
/// from valve `AA` of the cave `c`.
pub proof fn lemma_best_score_monotone(c: &Cave, b1: int, b2: int, r1: int, r2: int)
    requires
        b1 <= b2,
        single_agent_spec(c, b1, r1),
        single_agent_spec(c, b2, r2),
    ensures
        r1 <= r2,
{
    let (d1, s1) = choose|d: Seq<Seq<Option<usize>>>, s: int|
        is_dist_table(adj_view(&c.tunnels), d) && is_first_name(c.names@, ('A', 'A'), s) && #[trigger] is_best(
            d,
            c.flows@,
            s,
            b1,
            r1,
        );
    let (d2, s2) = choose|d: Seq<Seq<Option<usize>>>, s: int|
        is_dist_table(adj_view(&c.tunnels), d) && is_first_name(c.names@, ('A', 'A'), s) && #[trigger] is_best(
            d,
            c.flows@,
            s,
            b2,
            r2,
        );
    lemma_table_unique(adj_view(&c.tunnels), d1, d2);
    if s1 < s2 {
        assert(c.names@[s1] != ('A', 'A'));
    }
    if s2 < s1 {
        assert(c.names@[s2] != ('A', 'A'));
    }
    lemma_best_monotone(d1, c.flows@, s1, b1, b2, r1, r2);
}

} // verus!
