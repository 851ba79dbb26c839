use vstd::prelude::*;

use crate::text::{digits_value, is_digit, lemma_digits_prefix, lemma_digits_push, stands_at};

verus! {

pub open spec fn is_upper(c: char) -> bool {
    'A' <= c && c <= 'Z'
}

pub open spec fn word_valve() -> Seq<char> {
    seq!['V', 'a', 'l', 'v', 'e', ' ']
}

pub open spec fn word_rate() -> Seq<char> {
    seq![' ', 'h', 'a', 's', ' ', 'f', 'l', 'o', 'w', ' ', 'r', 'a', 't', 'e', '=']
}

pub open spec fn word_many() -> Seq<char> {
    seq![
        ';', ' ', 't', 'u', 'n', 'n', 'e', 'l', 's', ' ', 'l', 'e', 'a', 'd', ' ', 't', 'o', ' ',
        'v', 'a', 'l', 'v', 'e', 's', ' ',
    ]
}

pub open spec fn word_one() -> Seq<char> {
    seq![
        ';', ' ', 't', 'u', 'n', 'n', 'e', 'l', ' ', 'l', 'e', 'a', 'd', 's', ' ', 't', 'o', ' ',
        'v', 'a', 'l', 'v', 'e', ' ',
    ]
}

/// `s` is the valve names `t`, each two capital letters, joined by `", "`.
pub open spec fn name_list(s: Seq<char>, t: Seq<(char, char)>) -> bool {
    &&& t.len() >= 1
    &&& s.len() == 4 * t.len() - 2
    &&& forall|i: int|
        0 <= i < t.len() ==> s[4 * i] == (#[trigger] t[i]).0 && s[4 * i + 1] == t[i].1 && is_upper(t[i].0)
            && is_upper(t[i].1)
    &&& forall|i: int| 0 <= i < t.len() - 1 ==> #[trigger] separated(s, i)
}

/// Position `4 * i + 2` of `s` holds `", "`.
pub open spec fn separated(s: Seq<char>, i: int) -> bool {
    s[4 * i + 2] == ',' && s[4 * i + 3] == ' '
}

/// `s` tells where the tunnels lead: `"; tunnels lead to valves "` or
/// `"; tunnel leads to valve "`, then the names `t`.
pub open spec fn tail_list(s: Seq<char>, t: Seq<(char, char)>) -> bool {
    ||| (s.len() >= 25 && s.subrange(0, 25) == word_many() && name_list(s.subrange(25, s.len() as int), t))
    ||| (s.len() >= 24 && s.subrange(0, 24) == word_one() && name_list(s.subrange(24, s.len() as int), t))
}

/// `l` reads `Valve <name> has flow rate=<flow>; ...` with the `k` digits of
/// the flow rate starting at position 23.
pub open spec fn line_split(l: Seq<char>, k: int, name: (char, char), flow: nat, t: Seq<(char, char)>) -> bool {
    &&& k >= 1
    &&& l.len() >= 23 + k
    &&& l.subrange(0, 6) == word_valve()
    &&& l[6] == name.0 && l[7] == name.1 && is_upper(name.0) && is_upper(name.1)
    &&& l.subrange(8, 23) == word_rate()
    &&& forall|i: int| 23 <= i < 23 + k ==> is_digit(#[trigger] l[i])
    &&& digits_value(l.subrange(23, 23 + k)) == flow
    &&& tail_list(l.subrange(23 + k, l.len() as int), t)
}

/// `l` describes the valve `name` with flow rate `flow` and tunnels to `t`.
pub open spec fn valve_line(l: Seq<char>, name: (char, char), flow: nat, t: Seq<(char, char)>) -> bool {
    exists|k: int| #[trigger] line_split(l, k, name, flow, t)
}

proof fn lemma_name_list_unique(s: Seq<char>, t1: Seq<(char, char)>, t2: Seq<(char, char)>)
    requires
        name_list(s, t1),
        name_list(s, t2),
    ensures
        t1 == t2,
{
    assert forall|i: int| 0 <= i < t1.len() implies t1[i] == t2[i] by {
        assert(s[4 * i] == t1[i].0 && s[4 * i] == t2[i].0);
    }
    assert(t1 =~= t2);
}

proof fn lemma_split_unique(
    l: Seq<char>,
    k1: int,
    n1: (char, char),
    f1: nat,
    t1: Seq<(char, char)>,
    k2: int,
    n2: (char, char),
    f2: nat,
    t2: Seq<(char, char)>,
)
    requires
        line_split(l, k1, n1, f1, t1),
        line_split(l, k2, n2, f2, t2),
    ensures
        k1 == k2,
        n1 == n2,
        f1 == f2,
        t1 == t2,
{
    if k1 < k2 {
        assert(l.subrange(23 + k1, l.len() as int)[0] == ';');
        assert(is_digit(l[23 + k1]));
    }
    if k2 < k1 {
        assert(l.subrange(23 + k2, l.len() as int)[0] == ';');
        assert(is_digit(l[23 + k2]));
    }
    let s = l.subrange(23 + k1, l.len() as int);
    if s.len() >= 25 && s.subrange(0, 25) == word_many() {
        if s.len() >= 24 && s.subrange(0, 24) == word_one() {
            assert(s[8] == 's' && s[8] == ' ');
        }
        lemma_name_list_unique(s.subrange(25, s.len() as int), t1, t2);
    } else {
        if s.len() >= 25 && s.subrange(0, 25) == word_many() {
            assert(s[8] == 's' && s[8] == ' ');
        }
        lemma_name_list_unique(s.subrange(24, s.len() as int), t1, t2);
    }
}

/// A line describes at most one valve.
pub proof fn lemma_line_unique(
    l: Seq<char>,
    n1: (char, char),
    f1: nat,
    t1: Seq<(char, char)>,
    n2: (char, char),
    f2: nat,
    t2: Seq<(char, char)>,
)
    requires
        valve_line(l, n1, f1, t1),
        valve_line(l, n2, f2, t2),
    ensures
        n1 == n2,
        f1 == f2,
        t1 == t2,
{
    let k1 = choose|k: int| #[trigger] line_split(l, k, n1, f1, t1);
    let k2 = choose|k: int| #[trigger] line_split(l, k, n2, f2, t2);
    lemma_split_unique(l, k1, n1, f1, t1, k2, n2, f2, t2);
}

fn upper(c: char) -> (r: bool)
    ensures
        r == is_upper(c),
{
    'A' <= c && c <= 'Z'
}

/// The valve names from position `j` of `l` to its end.
fn parse_names(l: &Vec<char>, j: usize) -> (r: Option<Vec<(char, char)>>)
    requires
        j <= l.len(),
    ensures
        match r {
            Some(t) => name_list(l@.subrange(j as int, l.len() as int), t@),
            None => forall|t: Seq<(char, char)>| !name_list(l@.subrange(j as int, l.len() as int), t),
        },
{
    let ghost s = l@.subrange(j as int, l.len() as int);
    let len = l.len() - j;
    if len < 2 || len % 4 != 2 {
        return None;
    }
    let m = len / 4 + 1;
    let mut out: Vec<(char, char)> = Vec::new();
    let mut i: usize = 0;
    while i < m
        invariant
            s == l@.subrange(j as int, l.len() as int),
            j + len == l.len(),
            len == s.len(),
            len == 4 * m - 2,
            i <= m,
            out.len() == i,
            forall|a: int|
                0 <= a < i ==> s[4 * a] == (#[trigger] out@[a]).0 && s[4 * a + 1] == out@[a].1 && is_upper(out@[a].0)
                    && is_upper(out@[a].1),
            forall|a: int| 0 <= a < i && a < m - 1 ==> #[trigger] separated(s, a),
        decreases m - i,
    {
        let p = j + 4 * i;
        let a = l[p];
        let b = l[p + 1];
        proof {
            assert(s[4 * i as int] == a && s[4 * i as int + 1] == b);
        }
        if !upper(a) || !upper(b) {
            proof {
                assert forall|t: Seq<(char, char)>| !name_list(s, t) by {
                    if name_list(s, t) {
                        assert(t.len() == m);
                        assert(s[4 * i as int] == t[i as int].0);
                    }
                }
            }
            return None;
        }
        if i + 1 < m {
            proof {
                assert(s[4 * i as int + 2] == l@[p + 2] && s[4 * i as int + 3] == l@[p + 3]);
            }
            if l[p + 2] != ',' || l[p + 3] != ' ' {
                proof {
                    assert forall|t: Seq<(char, char)>| !name_list(s, t) by {
                        if name_list(s, t) {
                            assert(t.len() == m);
                            assert(separated(s, i as int));
                        }
                    }
                }
                return None;
            }
            assert(separated(s, i as int));
        }
        out.push((a, b));
        i += 1;
    }
    proof {
        assert forall|x: int| 0 <= x < out.len() - 1 implies #[trigger] separated(s, x) by {
            assert(x < i && x < m - 1);
        }
        assert(name_list(s, out@));
    }
    Some(out)
}

/// Reads one line `Valve <name> has flow rate=<flow>; ...`. `None` where the
/// line is not of that form or the flow rate exceeds `max_flow`.
pub fn parse_line(l: &Vec<char>, max_flow: u64) -> (r: Option<((char, char), u64, Vec<(char, char)>)>)
    ensures
        match r {
            Some((n, f, t)) => valve_line(l@, n, f as nat, t@) && f <= max_flow,
            None => forall|n: (char, char), f: nat, t: Seq<(char, char)>|
                valve_line(l@, n, f, t) ==> f > max_flow,
        },
{
    let ghost ls = l@;
    if l.len() < 24 {
        proof {
            assert forall|n: (char, char), f: nat, t: Seq<(char, char)>| valve_line(ls, n, f, t) implies f > max_flow by {
                let k = choose|k: int| #[trigger] line_split(ls, k, n, f, t);
                assert(ls.subrange(23 + k, ls.len() as int).len() >= 24);
            }
        }
        return None;
    }
    let w_valve = vec!['V', 'a', 'l', 'v', 'e', ' '];
    let w_rate = vec![' ', 'h', 'a', 's', ' ', 'f', 'l', 'o', 'w', ' ', 'r', 'a', 't', 'e', '='];
    let w_many = vec![
        ';', ' ', 't', 'u', 'n', 'n', 'e', 'l', 's', ' ', 'l', 'e', 'a', 'd', ' ', 't', 'o', ' ',
        'v', 'a', 'l', 'v', 'e', 's', ' ',
    ];
    let w_one = vec![
        ';', ' ', 't', 'u', 'n', 'n', 'e', 'l', ' ', 'l', 'e', 'a', 'd', 's', ' ', 't', 'o', ' ',
        'v', 'a', 'l', 'v', 'e', ' ',
    ];
    proof {
        assert(w_valve@ =~= word_valve());
        assert(w_rate@ =~= word_rate());
        assert(w_many@ =~= word_many());
        assert(w_one@ =~= word_one());
    }
    let a = l[6];
    let b = l[7];
    if !stands_at(l, 0, &w_valve) || !upper(a) || !upper(b) || !stands_at(l, 8, &w_rate) {
        return None;
    }
    let mut i: usize = 23;
    let mut v: u64 = 0;
    while i < l.len() && '0' <= l[i] && l[i] <= '9'
        invariant
            ls == l@,
            23 <= i <= l.len(),
            forall|x: int| 23 <= x < i ==> is_digit(#[trigger] ls[x]),
            v as nat == digits_value(ls.subrange(23, i as int)),
            v <= max_flow,
        decreases l.len() - i,
    {
        let d = l[i];
        proof {
            assert(ls.subrange(23, i as int + 1) =~= ls.subrange(23, i as int).push(d));
            lemma_digits_push(ls.subrange(23, i as int), d);
        }
        let dv = (d as u32 - '0' as u32) as u64;
        let next = match v.checked_mul(10) {
            Some(t) => t.checked_add(dv),
            None => None,
        };
        let over = match next {
            Some(x) => x > max_flow,
            None => true,
        };
        if over {
            proof {
                assert forall|n: (char, char), f: nat, t: Seq<(char, char)>| valve_line(ls, n, f, t) implies f > max_flow by {
                    let k = choose|k: int| #[trigger] line_split(ls, k, n, f, t);
                    if 23 + k <= i {
                        assert(ls.subrange(23 + k, ls.len() as int)[0] == ';');
                        assert(is_digit(ls[23 + k]));
                    }
                    lemma_digits_prefix(ls.subrange(23, 23 + k), i + 1 - 23);
                    assert(ls.subrange(23, 23 + k).subrange(0, i + 1 - 23) =~= ls.subrange(23, i as int + 1));
                }
            }
            return None;
        }
        v = match next {
            Some(x) => x,
            None => v,
        };
        i += 1;
    }
    // position `i` ends the digits of the flow rate
    proof {
        assert forall|n: (char, char), f: nat, t: Seq<(char, char)>, k: int| #[trigger] line_split(ls, k, n, f, t) implies k == i - 23 by {
            if 23 + k < i {
                assert(ls.subrange(23 + k, ls.len() as int)[0] == ';');
                assert(is_digit(ls[23 + k]));
            }
            if 23 + k > i {
                assert(is_digit(ls[i as int]));
            }
        }
    }
    if i == 23 {
        return None;
    }
    let j = if stands_at(l, i, &w_many) {
        i + 25
    } else if stands_at(l, i, &w_one) {
        i + 24
    } else {
        proof {
            assert forall|n: (char, char), f: nat, t: Seq<(char, char)>| valve_line(ls, n, f, t) implies f > max_flow by {
                let k = choose|k: int| #[trigger] line_split(ls, k, n, f, t);
                let s = ls.subrange(23 + k, ls.len() as int);
                if s.len() >= 25 && s.subrange(0, 25) == word_many() {
                    assert(ls.subrange(i as int, i + 25) =~= s.subrange(0, 25));
                }
                if s.len() >= 24 && s.subrange(0, 24) == word_one() {
                    assert(ls.subrange(i as int, i + 24) =~= s.subrange(0, 24));
                }
            }
        }
        return None;
    };
    proof {
        let s = ls.subrange(i as int, ls.len() as int);
        assert(s.subrange(j - i, s.len() as int) =~= ls.subrange(j as int, ls.len() as int));
        if j == i + 25 {
            assert(s.subrange(0, 25) =~= ls.subrange(i as int, i + 25));
        } else {
            assert(s.subrange(0, 24) =~= ls.subrange(i as int, i + 24));
            if s.len() >= 25 && s.subrange(0, 25) == word_many() {
                assert(ls.subrange(i as int, i + 25) =~= s.subrange(0, 25));
            }
        }
    }
    match parse_names(l, j) {
        Some(t) => {
            proof {
                assert(line_split(ls, i - 23, (a, b), v as nat, t@));
            }
            Some(((a, b), v, t))
        },
        None => {
            proof {
                assert forall|n: (char, char), f: nat, t: Seq<(char, char)>| valve_line(ls, n, f, t) implies f > max_flow by {
                    let k = choose|k: int| #[trigger] line_split(ls, k, n, f, t);
                    let s = ls.subrange(i as int, ls.len() as int);
                    if s.len() >= 25 && s.subrange(0, 25) == word_many() && j == i + 24 {
                        assert(ls.subrange(i as int, i + 25) =~= s.subrange(0, 25));
                    }
                    if s.len() >= 24 && s.subrange(0, 24) == word_one() && j == i + 25 {
                        assert(s[8] == 's' && s[8] == ' ');
                    }
                }
            }
            None
        },
    }
}

} // verus!
