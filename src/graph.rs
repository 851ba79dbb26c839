use vstd::prelude::*;

verus! {

/// Each element of `p` goes to the next by one step of `step`.
pub open spec fn is_walk(step: spec_fn(int, int) -> bool, p: Seq<int>) -> bool {
    forall|i: int| 0 <= i < p.len() - 1 ==> #[trigger] step(p[i], p[i + 1])
}

/// `v` is reached from `s` by exactly `k` steps of the relation `step`.
pub open spec fn reach(step: spec_fn(int, int) -> bool, s: int, v: int, k: nat) -> bool {
    exists|p: Seq<int>|
        #[trigger] is_walk(step, p) && p.len() == k + 1 && p[0] == s && p[k as int] == v
}

pub proof fn lemma_reach_start(step: spec_fn(int, int) -> bool, s: int)
    ensures
        reach(step, s, s, 0),
{
    assert(is_walk(step, seq![s]));
}

pub proof fn lemma_reach_extend(step: spec_fn(int, int) -> bool, s: int, u: int, v: int, k: nat)
    requires
        reach(step, s, u, k),
        step(u, v),
    ensures
        reach(step, s, v, k + 1),
{
    let p = choose|p: Seq<int>|
        #[trigger] is_walk(step, p) && p.len() == k + 1 && p[0] == s && p[k as int] == u;
    let q = p.push(v);
    assert forall|i: int| 0 <= i < q.len() - 1 implies #[trigger] step(q[i], q[i + 1]) by {
        if i < k {
            assert(step(p[i], p[i + 1]));
        }
    }
    assert(is_walk(step, q));
}

pub proof fn lemma_reach_last(step: spec_fn(int, int) -> bool, s: int, v: int, k: nat) -> (u: int)
    requires
        reach(step, s, v, k + 1),
    ensures
        reach(step, s, u, k),
        step(u, v),
{
    let p = choose|p: Seq<int>|
        #[trigger] is_walk(step, p) && p.len() == k + 2 && p[0] == s && p[k as int + 1] == v;
    let q = p.drop_last();
    assert forall|i: int| 0 <= i < q.len() - 1 implies #[trigger] step(q[i], q[i + 1]) by {
        assert(step(p[i], p[i + 1]));
    }
    assert(is_walk(step, q));
    assert(step(p[k as int], p[k as int + 1]));
    p[k as int]
}

/// `d` is the fewest steps in which `v` can be reached from `s`.
pub open spec fn is_dist(step: spec_fn(int, int) -> bool, s: int, v: int, d: nat) -> bool {
    &&& reach(step, s, v, d)
    &&& forall|j: nat| j < d ==> !#[trigger] reach(step, s, v, j)
}

/// `v` can be reached from `s` in some number of steps.
pub open spec fn reachable(step: spec_fn(int, int) -> bool, s: int, v: int) -> bool {
    exists|k: nat| #[trigger] reach(step, s, v, k)
}

/// The adjacency lists as a sequence of sequences.
pub open spec fn adj_view(adj: &Vec<Vec<usize>>) -> Seq<Seq<usize>> {
    adj@.map_values(|r: Vec<usize>| r@)
}

/// Every listed neighbour is a vertex of the graph.
pub open spec fn well_formed(g: Seq<Seq<usize>>) -> bool {
    forall|u: int, i: int| 0 <= u < g.len() && 0 <= i < g[u].len() ==> (#[trigger] g[u][i] as int) < g.len()
}

/// The step relation of adjacency lists: from `u` to each vertex listed for `u`.
pub open spec fn adj_step(g: Seq<Seq<usize>>) -> spec_fn(int, int) -> bool {
    |u: int, v: int| 0 <= u < g.len() && 0 <= v < g.len() && g[u].contains(v as usize)
}

pub open spec fn count_none(d: Seq<Option<usize>>) -> nat
    decreases d.len(),
{
    if d.len() == 0 {
        0
    } else {
        count_none(d.drop_last()) + if d.last() is None { 1nat } else { 0nat }
    }
}

proof fn lemma_count_none_update(d: Seq<Option<usize>>, i: int, x: usize)
    requires
        0 <= i < d.len(),
        d[i] is None,
    ensures
        count_none(d.update(i, Some(x))) + 1 == count_none(d),
    decreases d.len(),
{
    if i == d.len() - 1 {
        assert(d.update(i, Some(x)).drop_last() =~= d.drop_last());
    } else {
        lemma_count_none_update(d.drop_last(), i, x);
        assert(d.update(i, Some(x)).drop_last() =~= d.drop_last().update(i, Some(x)));
    }
}

proof fn lemma_count_none_bound(d: Seq<Option<usize>>, i: int)
    requires
        0 <= i < d.len(),
        d[i] is Some,
    ensures
        count_none(d) < d.len(),
    decreases d.len(),
{
    if i < d.len() - 1 {
        lemma_count_none_bound(d.drop_last(), i);
    } else {
        lemma_count_none_le(d.drop_last());
    }
}

proof fn lemma_count_none_le(d: Seq<Option<usize>>)
    ensures
        count_none(d) <= d.len(),
    decreases d.len(),
{
    if d.len() > 0 {
        lemma_count_none_le(d.drop_last());
    }
}

/// Where the vertices that carry a distance are closed under `step`, every
/// vertex reached from the source carries one.
proof fn lemma_closed_reach(
    step: spec_fn(int, int) -> bool,
    s: int,
    dist: Seq<Option<usize>>,
    v: int,
    j: nat,
)
    requires
        0 <= s < dist.len(),
        dist[s] is Some,
        forall|a: int, b: int| #[trigger] step(a, b) ==> 0 <= a < dist.len() && 0 <= b < dist.len(),
        forall|a: int, b: int|
            0 <= a < dist.len() && dist[a] is Some && #[trigger] step(a, b) ==> dist[b] is Some,
        reach(step, s, v, j),
    ensures
        0 <= v < dist.len(),
        dist[v] is Some,
    decreases j,
{
    if j > 0 {
        let u = lemma_reach_last(step, s, v, (j - 1) as nat);
        lemma_closed_reach(step, s, dist, u, (j - 1) as nat);
    }
}

/// Fewest steps from `src` to every vertex of the adjacency lists `adj`,
/// `None` for a vertex that cannot be reached. Vertices are explored layer by
/// layer: round `k` extends the vertices at distance `k` by one step.
pub fn bfs(adj: &Vec<Vec<usize>>, src: usize) -> (dist: Vec<Option<usize>>)
    requires
        well_formed(adj_view(adj)),
        src < adj.len(),
    ensures
        dist.len() == adj.len(),
        bfs_result(adj_step(adj_view(adj)), src as int, dist@),
{
    let n = adj.len();
    let ghost g = adj_view(adj);
    let ghost step = adj_step(g);
    let mut dist: Vec<Option<usize>> = Vec::new();
    let mut i: usize = 0;
    while i < n
        invariant
            i <= n,
            dist.len() == i,
            forall|v: int| 0 <= v < i ==> #[trigger] dist@[v] == if v == src { Some(0usize) } else { None },
        decreases n - i,
    {
        if i == src {
            dist.push(Some(0));
        } else {
            dist.push(None);
        }
        i += 1;
    }
    proof {
        lemma_count_none_bound(dist@, src as int);
        lemma_reach_start(step, src as int);
    }
    let mut k: usize = 0;
    loop
        invariant
            n == adj.len(),
            dist.len() == n,
            k + count_none(dist@) < n,
            g == adj_view(adj),
            step == adj_step(g),
            well_formed(g),
            src < n,
            dist@[src as int] is Some,
            forall|v: int|
                0 <= v < n ==> match #[trigger] dist@[v] {
                    Some(d) => d <= k && is_dist(step, src as int, v, d as nat),
                    None => forall|j: nat| j <= k ==> !#[trigger] reach(step, src as int, v, j),
                },
        decreases count_none(dist@),
    {
        let ghost before = dist@;
        let mut progress = false;
        let mut u: usize = 0;
        while u < n
            invariant
                n == adj.len(),
                dist.len() == n,
                k + count_none(before) < n,
                g == adj_view(adj),
                step == adj_step(g),
                well_formed(g),
                src < n,
                u <= n,
                count_none(dist@) <= count_none(before),
                progress ==> count_none(dist@) < count_none(before),
                !progress ==> dist@ == before,
                forall|v: int|
                    0 <= v < n ==> match #[trigger] before[v] {
                        Some(d) => d <= k && is_dist(step, src as int, v, d as nat),
                        None => forall|j: nat| j <= k ==> !#[trigger] reach(step, src as int, v, j),
                    },
                forall|v: int|
                    0 <= v < n ==> match #[trigger] dist@[v] {
                        Some(d) => (before[v] == Some(d) || (before[v] is None && d == k + 1))
                            && is_dist(step, src as int, v, d as nat),
                        None => before[v] is None && forall|w: int|
                            0 <= w < u && before[w] == Some(k) ==> !#[trigger] step(w, v),
                    },
            decreases n - u,
        {
            let at_k = match dist[u] {
                Some(d) => d == k,
                None => false,
            };
            if at_k {
                let row = &adj[u];
                proof {
                    assert(before[u as int] == Some(k));
                    assert(g[u as int] == row@);
                }
                let mut j: usize = 0;
                while j < row.len()
                    invariant
                        n == adj.len(),
                        dist.len() == n,
                        k + count_none(before) < n,
                        g == adj_view(adj),
                        step == adj_step(g),
                        well_formed(g),
                        src < n,
                        u < n,
                        j <= row.len(),
                        row@ == g[u as int],
                        before[u as int] == Some(k),
                        count_none(dist@) <= count_none(before),
                        progress ==> count_none(dist@) < count_none(before),
                        !progress ==> dist@ == before,
                        forall|v: int|
                            0 <= v < n ==> match #[trigger] before[v] {
                                Some(d) => d <= k && is_dist(step, src as int, v, d as nat),
                                None => forall|jj: nat| jj <= k ==> !#[trigger] reach(step, src as int, v, jj),
                            },
                        forall|v: int|
                            0 <= v < n ==> match #[trigger] dist@[v] {
                                Some(d) => (before[v] == Some(d) || (before[v] is None && d == k + 1))
                                    && is_dist(step, src as int, v, d as nat),
                                None => before[v] is None && (forall|w: int|
                                    0 <= w < u && before[w] == Some(k) ==> !#[trigger] step(w, v))
                                    && forall|i: int| 0 <= i < j ==> row@[i] != v,
                            },
                    decreases row.len() - j,
                {
                    let w = row[j];
                    proof {
                        assert(g[u as int][j as int] == w);
                    }
                    let unset = match dist[w] {
                        Some(_) => false,
                        None => true,
                    };
                    if unset {
                        proof {
                            assert(g[u as int].contains(w));
                            assert(step(u as int, w as int));
                            assert(reach(step, src as int, u as int, k as nat));
                            lemma_reach_extend(step, src as int, u as int, w as int, k as nat);
                            assert forall|jj: nat| jj < k + 1 implies !#[trigger] reach(step, src as int, w as int, jj) by {
                                assert(before[w as int] is None);
                            }
                            lemma_count_none_update(dist@, w as int, (k + 1) as usize);
                        }
                        dist.set(w, Some(k + 1));
                        progress = true;
                    }
                    j += 1;
                }
                proof {
                    assert forall|v: int| 0 <= v < n && #[trigger] dist@[v] is None implies !step(u as int, v) by {
                        if step(u as int, v) {
                            let i = choose|i: int| 0 <= i < g[u as int].len() && g[u as int][i] == v as usize;
                        }
                    }
                }
            }
            u += 1;
        }
        if !progress {
            proof {
                assert forall|a: int, b: int| #[trigger] step(a, b) implies 0 <= a < dist.len() && 0 <= b < dist.len() by {}
                assert forall|a: int, b: int|
                    0 <= a < dist.len() && dist@[a] is Some && #[trigger] step(a, b) implies dist@[b] is Some by {
                    let d = dist@[a]->Some_0;
                    if dist@[b] is None {
                        assert(reach(step, src as int, a, d as nat));
                        lemma_reach_extend(step, src as int, a, b, d as nat);
                    }
                }
                assert forall|v: int| 0 <= v < n && #[trigger] dist@[v] is None implies !reachable(step, src as int, v) by {
                    if reachable(step, src as int, v) {
                        let jv = choose|jv: nat| #[trigger] reach(step, src as int, v, jv);
                        lemma_closed_reach(step, src as int, dist@, v, jv);
                    }
                }
            }
            return dist;
        }
        proof {
            assert forall|v: int| 0 <= v < n && #[trigger] dist@[v] is None implies
                forall|j: nat| j <= k + 1 ==> !#[trigger] reach(step, src as int, v, j) by {
                assert forall|j: nat| j <= k + 1 implies !#[trigger] reach(step, src as int, v, j) by {
                    if j == k + 1 && reach(step, src as int, v, j) {
                        let w = lemma_reach_last(step, src as int, v, k as nat);
                        assert(before[w] is Some);
                        let d = before[w]->Some_0;
                        if d < k {
                            lemma_reach_extend(step, src as int, w, v, d as nat);
                        }
                    }
                }
            }
        }
        k += 1;
    }
}

/// `d` is the fewest steps from `s` to any vertex where `tgt` holds.
pub open spec fn target_dist(
    step: spec_fn(int, int) -> bool,
    s: int,
    tgt: spec_fn(int) -> bool,
    d: nat,
) -> bool {
    &&& exists|t: int| tgt(t) && #[trigger] reach(step, s, t, d)
    &&& forall|t: int, j: nat| tgt(t) && j < d ==> !#[trigger] reach(step, s, t, j)
}

/// `r` is the fewest steps from `s` to a vertex where `tgt` holds, `None`
/// where no such vertex can be reached.
pub open spec fn nearest_result(
    step: spec_fn(int, int) -> bool,
    s: int,
    tgt: spec_fn(int) -> bool,
    r: Option<usize>,
) -> bool {
    match r {
        Some(d) => target_dist(step, s, tgt, d as nat),
        None => forall|t: int, j: nat| tgt(t) ==> !#[trigger] reach(step, s, t, j),
    }
}

/// `d` is the fewest steps from any vertex where `src` holds to any vertex
/// where `tgt` holds.
pub open spec fn multi_dist(
    step: spec_fn(int, int) -> bool,
    src: spec_fn(int) -> bool,
    tgt: spec_fn(int) -> bool,
    d: nat,
) -> bool {
    &&& exists|s: int, t: int| src(s) && tgt(t) && #[trigger] reach(step, s, t, d)
    &&& forall|s: int, t: int, j: nat| src(s) && tgt(t) && j < d ==> !#[trigger] reach(step, s, t, j)
}

/// `r` is the fewest steps from a source to a target, `None` where no target
/// can be reached from any source.
pub open spec fn multi_result(
    step: spec_fn(int, int) -> bool,
    src: spec_fn(int) -> bool,
    tgt: spec_fn(int) -> bool,
    r: Option<usize>,
) -> bool {
    match r {
        Some(d) => multi_dist(step, src, tgt, d as nat),
        None => forall|s: int, t: int, j: nat| src(s) && tgt(t) ==> !#[trigger] reach(step, s, t, j),
    }
}

/// What `bfs` computes for the source `s`.
pub open spec fn bfs_result(step: spec_fn(int, int) -> bool, s: int, dist: Seq<Option<usize>>) -> bool {
    &&& forall|a: int, b: int| #[trigger] step(a, b) ==> 0 <= a < dist.len() && 0 <= b < dist.len()
    &&& 0 <= s < dist.len()
    &&& forall|v: int|
        0 <= v < dist.len() ==> match #[trigger] dist[v] {
            Some(d) => is_dist(step, s, v, d as nat),
            None => !reachable(step, s, v),
        }
}

/// The smaller of two optional distances, where `None` stands for unreachable.
pub open spec fn min_opt(a: Option<usize>, b: Option<usize>) -> Option<usize> {
    match (a, b) {
        (Some(x), Some(y)) => Some(if x <= y { x } else { y }),
        (Some(x), None) => Some(x),
        (None, _) => b,
    }
}

pub fn combine(a: Option<usize>, b: Option<usize>) -> (r: Option<usize>)
    ensures
        r == min_opt(a, b),
{
    match (a, b) {
        (Some(x), Some(y)) => Some(if x <= y { x } else { y }),
        (Some(x), None) => Some(x),
        (None, _) => b,
    }
}

/// Adding one source to a multi-source result takes the smaller distance.
pub proof fn lemma_multi_add(
    step: spec_fn(int, int) -> bool,
    src: spec_fn(int) -> bool,
    tgt: spec_fn(int) -> bool,
    best: Option<usize>,
    s: int,
    r: Option<usize>,
)
    requires
        multi_result(step, src, tgt, best),
        nearest_result(step, s, tgt, r),
    ensures
        multi_result(step, |x: int| src(x) || x == s, tgt, min_opt(best, r)),
{
    let src2 = |x: int| src(x) || x == s;
    match (best, r) {
        (Some(x), Some(y)) => {
            if x <= y {
                let (a, b) = choose|a: int, b: int| src(a) && tgt(b) && #[trigger] reach(step, a, b, x as nat);
                assert(src2(a) && tgt(b) && reach(step, a, b, x as nat));
            } else {
                let b = choose|b: int| tgt(b) && #[trigger] reach(step, s, b, y as nat);
                assert(src2(s) && tgt(b) && reach(step, s, b, y as nat));
            }
        },
        (Some(x), None) => {
            let (a, b) = choose|a: int, b: int| src(a) && tgt(b) && #[trigger] reach(step, a, b, x as nat);
            assert(src2(a) && tgt(b) && reach(step, a, b, x as nat));
        },
        (None, Some(y)) => {
            let b = choose|b: int| tgt(b) && #[trigger] reach(step, s, b, y as nat);
            assert(src2(s) && tgt(b) && reach(step, s, b, y as nat));
        },
        (None, None) => {},
    }
}

/// Distance to a set of targets, read from the result of `bfs`.
pub fn nearest(dist: &Vec<Option<usize>>, targets: &Vec<bool>) -> (r: Option<usize>)
    requires
        targets.len() == dist.len(),
    ensures
        forall|step: spec_fn(int, int) -> bool, s: int|
            bfs_result(step, s, dist@) ==> nearest_result(
                step,
                s,
                |t: int| 0 <= t < targets.len() && targets@[t],
                r,
            ),
{
    let ghost tgt = |t: int| 0 <= t < targets.len() && targets@[t];
    let mut best: Option<usize> = None;
    let mut i: usize = 0;
    while i < dist.len()
        invariant
            targets.len() == dist.len(),
            i <= dist.len(),
            match best {
                Some(m) => (exists|t: int| 0 <= t < i && targets@[t] && dist@[t] == Some(m))
                    && forall|t: int| 0 <= t < i && targets@[t] && (#[trigger] dist@[t]) is Some ==> m <= dist@[t]->Some_0,
                None => forall|t: int| 0 <= t < i && targets@[t] ==> (#[trigger] dist@[t]) is None,
            },
        decreases dist.len() - i,
    {
        if targets[i] {
            best = combine(best, dist[i]);
        }
        i += 1;
    }
    proof {
        assert forall|step: spec_fn(int, int) -> bool, s: int|
            bfs_result(step, s, dist@) implies nearest_result(step, s, tgt, best) by {
            match best {
                Some(m) => {
                    let t0 = choose|t: int| 0 <= t < dist.len() && targets@[t] && dist@[t] == Some(m);
                    assert(is_dist(step, s, t0, m as nat));
                    assert(tgt(t0) && reach(step, s, t0, m as nat));
                    assert forall|t: int, j: nat| tgt(t) && j < m implies !#[trigger] reach(step, s, t, j) by {
                        if reach(step, s, t, j) {
                            assert(reachable(step, s, t));
                            assert(dist@[t] is Some);
                            let dt = dist@[t]->Some_0;
                            assert(is_dist(step, s, t, dt as nat));
                        }
                    }
                },
                None => {
                    assert forall|t: int, j: nat| tgt(t) implies !#[trigger] reach(step, s, t, j) by {
                        if reach(step, s, t, j) {
                            assert(reachable(step, s, t));
                            assert(dist@[t] is None);
                        }
                    }
                },
            }
        }
    }
    best
}

/// The relation `back` is `step` with its arguments swapped.
pub open spec fn is_flip(step: spec_fn(int, int) -> bool, back: spec_fn(int, int) -> bool) -> bool {
    forall|a: int, b: int| #[trigger] back(a, b) == step(b, a)
}

/// A walk read backwards is a walk of the reversed relation.
pub proof fn lemma_reach_flip(
    step: spec_fn(int, int) -> bool,
    back: spec_fn(int, int) -> bool,
    a: int,
    b: int,
    k: nat,
)
    requires
        is_flip(step, back),
        reach(step, a, b, k),
    ensures
        reach(back, b, a, k),
{
    let p = choose|p: Seq<int>| #[trigger] is_walk(step, p) && p.len() == k + 1 && p[0] == a && p[k as int] == b;
    let q = Seq::new(k + 1, |i: int| p[k - i]);
    assert forall|i: int| 0 <= i < q.len() - 1 implies #[trigger] back(q[i], q[i + 1]) by {
        assert(step(p[k - i - 1], p[(k - i - 1) + 1]));
    }
    assert(is_walk(back, q));
}

/// The distance to a set of targets is determined by the relation.
pub proof fn lemma_nearest_unique(
    step: spec_fn(int, int) -> bool,
    s: int,
    tgt: spec_fn(int) -> bool,
    r1: Option<usize>,
    r2: Option<usize>,
)
    requires
        nearest_result(step, s, tgt, r1),
        nearest_result(step, s, tgt, r2),
    ensures
        r1 == r2,
{
    match (r1, r2) {
        (Some(a), Some(b)) => {
            let t1 = choose|t: int| tgt(t) && #[trigger] reach(step, s, t, a as nat);
            let t2 = choose|t: int| tgt(t) && #[trigger] reach(step, s, t, b as nat);
        },
        (Some(a), None) => {
            let t1 = choose|t: int| tgt(t) && #[trigger] reach(step, s, t, a as nat);
        },
        (None, Some(b)) => {
            let t2 = choose|t: int| tgt(t) && #[trigger] reach(step, s, t, b as nat);
        },
        (None, None) => {},
    }
}

} // verus!
