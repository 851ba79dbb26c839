use vstd::prelude::*;

use crate::text::{
    blocks_view, char_blocks, digits_value, groups_of, is_digit, lemma_digits_prefix, lemma_digits_push, lines_of,
    rows_view,
};

verus! {

/// A packet: a list of packets or a number.
#[derive(Debug, PartialEq, Eq)]
pub enum RecList {
    List(Vec<RecList>),
    Num(u64),
}

pub enum Packet {
    List(Seq<Packet>),
    Num(nat),
}

impl RecList {
    pub open spec fn view(&self) -> Packet
        decreases self,
    {
        match self {
            RecList::List(v) => Packet::List(
                Seq::new(v.len() as nat, |i: int| if 0 <= i < v.len() { v[i].view() } else { Packet::Num(0) }),
            ),
            RecList::Num(n) => Packet::Num(*n as nat),
        }
    }
}

/// A measure of a packet: 1 for a number, 3 more than its items for a list.
pub open spec fn weight(p: Packet) -> nat
    decreases p, 0nat,
{
    match p {
        Packet::Num(_) => 1,
        Packet::List(l) => 3 + weights(l, l.len()),
    }
}

/// The weights of the first `n` packets of `l`.
pub open spec fn weights(l: Seq<Packet>, n: nat) -> nat
    decreases l, n,
{
    if n == 0 || n > l.len() {
        0
    } else {
        weights(l, (n - 1) as nat) + weight(l[n - 1])
    }
}

proof fn lemma_weights_first(l: Seq<Packet>, n: nat)
    requires
        0 < n <= l.len(),
    ensures
        weights(l, n) == weight(l[0]) + weights(l.drop_first(), (n - 1) as nat),
    decreases n,
{
    let d = l.drop_first();
    if n > 1 {
        lemma_weights_first(l, (n - 1) as nat);
        assert(d[n - 2] == l[n - 1]);
        assert(weights(l, n) == weights(l, (n - 1) as nat) + weight(l[n - 1]));
        assert(weights(d, (n - 1) as nat) == weights(d, (n - 2) as nat) + weight(d[n - 2]));
    } else {
        assert(weights(l, 1) == weights(l, 0) + weight(l[0]));
        assert(weights(d, 0) == 0);
    }
}

/// The measure that the comparison decreases: the weights of both packets,
/// and 4 more where one of them is a number and the other a list.
pub open spec fn mu(a: Packet, b: Packet) -> nat {
    weight(a) + weight(b) + if (a is Num) != (b is Num) { 4nat } else { 0nat }
}

/// Compares two packets: numbers by value; lists item by item, the shorter
/// list first where one is a prefix of the other; a number against a list
/// as the list holding only that number. -1, 0 or 1.
pub open spec fn pcmp(a: Packet, b: Packet) -> int
    decreases mu(a, b),
    via lemma_pcmp_decreases
{
    match a {
        Packet::Num(x) => match b {
            Packet::Num(y) => if x < y {
                -1
            } else if x > y {
                1
            } else {
                0
            },
            Packet::List(r) => pcmp(Packet::List(seq![Packet::Num(x)]), Packet::List(r)),
        },
        Packet::List(l) => match b {
            Packet::Num(y) => pcmp(Packet::List(l), Packet::List(seq![Packet::Num(y)])),
            Packet::List(r) => if l.len() == 0 && r.len() == 0 {
                0
            } else if l.len() == 0 {
                -1
            } else if r.len() == 0 {
                1
            } else {
                let c = pcmp(l[0], r[0]);
                if c != 0 {
                    c
                } else {
                    pcmp(Packet::List(l.drop_first()), Packet::List(r.drop_first()))
                }
            },
        },
    }
}

#[via_fn]
proof fn lemma_pcmp_decreases(a: Packet, b: Packet) {
    match a {
        Packet::Num(x) => match b {
            Packet::Num(_) => {},
            Packet::List(r) => {
                lemma_weights_first(seq![Packet::Num(x)], 1);
            },
        },
        Packet::List(l) => match b {
            Packet::Num(y) => {
                lemma_weights_first(seq![Packet::Num(y)], 1);
            },
            Packet::List(r) => {
                if l.len() > 0 && r.len() > 0 {
                    lemma_weights_first(l, l.len());
                    lemma_weights_first(r, r.len());

                }
            },
        },
    }
}

proof fn lemma_weights_elem(l: Seq<Packet>, n: nat, i: int)
    requires
        0 <= i < n <= l.len(),
    ensures
        weight(l[i]) <= weights(l, n),
    decreases n,
{
    if i < n - 1 {
        lemma_weights_elem(l, (n - 1) as nat, i);
    }
}

proof fn lemma_single_weight(x: nat)
    ensures
        weight(Packet::List(seq![Packet::Num(x)])) == 4,
{
    let l = seq![Packet::Num(x)];
    assert(weights(l, 1) == weights(l, 0) + weight(l[0]));
}

impl RecList {
    /// `self` before `other` (-1), equal to it (0) or after it (1).
    pub fn compare(&self, other: &RecList) -> (r: i8)
        ensures
            r == pcmp(self@, other@),
        decreases mu(self@, other@),
    {
        match self {
            RecList::Num(x) => match other {
                RecList::Num(y) => if *x < *y {
                    -1
                } else if *x > *y {
                    1
                } else {
                    0
                },
                RecList::List(_) => {
                    let w = RecList::List(vec![RecList::Num(*x)]);
                    proof {
                        assert(w@ == Packet::List(seq![Packet::Num(*x as nat)])) by {
                            if let Packet::List(wl) = w@ {
                                assert(wl =~= seq![Packet::Num(*x as nat)]);
                            }
                        }
                        lemma_single_weight(*x as nat);
                    }
                    w.compare(other)
                },
            },
            RecList::List(l) => match other {
                RecList::Num(y) => {
                    let w = RecList::List(vec![RecList::Num(*y)]);
                    proof {
                        assert(w@ == Packet::List(seq![Packet::Num(*y as nat)])) by {
                            if let Packet::List(wl) = w@ {
                                assert(wl =~= seq![Packet::Num(*y as nat)]);
                            }
                        }
                        lemma_single_weight(*y as nat);
                    }
                    self.compare(&w)
                },
                RecList::List(r) => {
                    let ghost big_l = match self@ {
                        Packet::List(s) => s,
                        Packet::Num(_) => Seq::empty(),
                    };
                    let ghost big_r = match other@ {
                        Packet::List(s) => s,
                        Packet::Num(_) => Seq::empty(),
                    };
                    proof {
                        assert(big_l.subrange(0, big_l.len() as int) =~= big_l);
                        assert(big_r.subrange(0, big_r.len() as int) =~= big_r);
                    }
                    let mut i: usize = 0;
                    while i < l.len() && i < r.len()
                        invariant
                            self@ == Packet::List(big_l),
                            other@ == Packet::List(big_r),
                            big_l.len() == l.len(),
                            big_r.len() == r.len(),
                            forall|k: int| 0 <= k < l.len() ==> big_l[k] == (#[trigger] l@[k])@,
                            forall|k: int| 0 <= k < r.len() ==> big_r[k] == (#[trigger] r@[k])@,
                            i <= l.len(),
                            i <= r.len(),
                            pcmp(self@, other@) == pcmp(
                                Packet::List(big_l.subrange(i as int, big_l.len() as int)),
                                Packet::List(big_r.subrange(i as int, big_r.len() as int)),
                            ),
                        decreases l.len() - i,
                    {
                        proof {
                            lemma_weights_elem(big_l, big_l.len(), i as int);
                            lemma_weights_elem(big_r, big_r.len(), i as int);
                            let sl = big_l.subrange(i as int, big_l.len() as int);
                            let sr = big_r.subrange(i as int, big_r.len() as int);
                            assert(sl[0] == big_l[i as int]);
                            assert(sr[0] == big_r[i as int]);
                            assert(sl.drop_first() =~= big_l.subrange(i as int + 1, big_l.len() as int));
                            assert(sr.drop_first() =~= big_r.subrange(i as int + 1, big_r.len() as int));
                        }
                        let c = l[i].compare(&r[i]);
                        if c != 0 {
                            return c;
                        }
                        i += 1;
                    }
                    if l.len() < r.len() {
                        -1
                    } else if l.len() > r.len() {
                        1
                    } else {
                        proof {
                            assert(big_l.subrange(i as int, big_l.len() as int) =~= Seq::<Packet>::empty());
                        }
                        0
                    }
                },
            },
        }
    }
}

/// Largest number that the parser accepts in a packet.
pub const MAX_NUM: u64 = 0xffff_ffff;

pub open spec fn digit_char(d: nat) -> char {
    ((d % 10) + '0' as u32) as char
}

/// The decimal digits of `n`, without leading zeros.
pub open spec fn decimal(n: nat) -> Seq<char>
    decreases n,
{
    if n < 10 {
        seq![digit_char(n)]
    } else {
        decimal(n / 10).push(digit_char(n % 10))
    }
}

/// The text of a packet: a number in decimal, a list in brackets with its
/// items separated by commas.
pub open spec fn render(p: Packet) -> Seq<char>
    decreases p, 0nat,
{
    match p {
        Packet::Num(n) => decimal(n),
        Packet::List(l) => seq!['['] + render_items(l, l.len()) + seq![']'],
    }
}

/// The text of the first `n` items of `l`, separated by commas.
pub open spec fn render_items(l: Seq<Packet>, n: nat) -> Seq<char>
    decreases l, n,
{
    if n == 0 || n > l.len() {
        Seq::empty()
    } else if n == 1 {
        render(l[0])
    } else {
        render_items(l, (n - 1) as nat) + seq![','] + render(l[n - 1])
    }
}

proof fn lemma_render_items_prefix(l: Seq<Packet>, m: Seq<Packet>, n: nat)
    requires
        n <= l.len(),
        n <= m.len(),
        forall|i: int| 0 <= i < n ==> l[i] == m[i],
    ensures
        render_items(l, n) == render_items(m, n),
    decreases n,
{
    if n > 1 {
        lemma_render_items_prefix(l, m, (n - 1) as nat);
    }
}

/// The digits `d`, without a leading zero, write `n` in decimal.
proof fn lemma_decimal(d: Seq<char>)
    requires
        d.len() >= 1,
        forall|i: int| 0 <= i < d.len() ==> is_digit(#[trigger] d[i]),
        d.len() > 1 ==> d[0] != '0',
    ensures
        decimal(digits_value(d)) == d,
        d.len() > 1 ==> digits_value(d) >= 10,
    decreases d.len(),
{
    let c = d.last();
    let v = (c as u32 - '0' as u32) as nat;
    assert(digit_char(v) == c);
    if d.len() == 1 {
        assert(d.drop_last() =~= Seq::<char>::empty());
        assert(digits_value(d.drop_last()) == 0);
        assert(digits_value(d) == v);
        assert(decimal(v) =~= d);
    } else {
        let e = d.drop_last();
        assert(e[0] == d[0]);
        lemma_decimal(e);
        let w = digits_value(e);
        assert(w >= 1) by {
            if e.len() == 1 {
                assert(e[0] != '0');
            }
        }
        assert(digits_value(d) == w * 10 + v);
        assert((w * 10 + v) / 10 == w && (w * 10 + v) % 10 == v) by (nonlinear_arith)
            requires
                v < 10,
        ;
        assert(decimal(digits_value(d)) =~= e.push(c));
        assert(e.push(c) =~= d);
    }
}

/// Every number in the packet is at most `MAX_NUM`.
pub open spec fn small(p: Packet) -> bool
    decreases p, 0nat,
{
    match p {
        Packet::Num(n) => n <= MAX_NUM,
        Packet::List(l) => smalls(l, l.len()),
    }
}

/// The first `n` items of `l` are small.
pub open spec fn smalls(l: Seq<Packet>, n: nat) -> bool
    decreases l, n,
{
    if n == 0 || n > l.len() {
        true
    } else {
        smalls(l, (n - 1) as nat) && small(l[n - 1])
    }
}

/// Position `e` of `s` is its end, a comma or a closing bracket.
pub open spec fn delim(s: Seq<char>, e: int) -> bool {
    e == s.len() || s[e] == ',' || s[e] == ']'
}

/// The text of `p` stands in `s` from `pos` on, followed by a delimiter.
pub open spec fn stands(s: Seq<char>, pos: int, p: Packet) -> bool {
    &&& 0 <= pos
    &&& pos + render(p).len() <= s.len()
    &&& s.subrange(pos, pos + render(p).len()) == render(p)
    &&& delim(s, pos + render(p).len())
}

proof fn lemma_smalls(l: Seq<Packet>, n: nat, k: int)
    requires
        smalls(l, n),
        0 <= k < n <= l.len(),
    ensures
        small(l[k]),
    decreases n,
{
    if k < n - 1 {
        lemma_smalls(l, (n - 1) as nat, k);
    }
}

proof fn lemma_decimal_digits(n: nat)
    ensures
        decimal(n).len() >= 1,
        forall|i: int| 0 <= i < decimal(n).len() ==> is_digit(#[trigger] decimal(n)[i]),
        digits_value(decimal(n)) == n,
        decimal(n).len() > 1 ==> decimal(n)[0] != '0',
    decreases n,
{
    if n >= 10 {
        lemma_decimal_digits(n / 10);
        let d = decimal(n / 10);
        assert(decimal(n) == d.push(digit_char(n % 10)));
        assert(decimal(n).drop_last() =~= d);
        assert(n / 10 * 10 + n % 10 == n) by (nonlinear_arith);
        assert(forall|i: int| 0 <= i < d.len() ==> decimal(n)[i] == d[i]);
        if d.len() == 1 {
            assert(n / 10 >= 1);
            assert(d[0] != '0') by {
                if d[0] == '0' {
                    assert(d.drop_last() =~= Seq::<char>::empty());
                    assert(digits_value(d.drop_last()) == 0);
                }
            }
        }
        assert(decimal(n)[0] == d[0]);
    } else {
        assert(decimal(n).drop_last() =~= Seq::<char>::empty());
        assert(digits_value(Seq::<char>::empty()) == 0);
    }
}

/// The text of the first `j` items is where the text of the first `m` items
/// starts, followed by a comma where `j < m`.
proof fn lemma_items_prefix(l: Seq<Packet>, j: nat, m: nat)
    requires
        1 <= j <= m <= l.len(),
    ensures
        render_items(l, j).len() <= render_items(l, m).len(),
        render_items(l, m).subrange(0, render_items(l, j).len() as int) == render_items(l, j),
        j < m ==> render_items(l, j).len() < render_items(l, m).len() && render_items(l, m)[render_items(l, j).len() as int] == ',',
    decreases m,
{
    if j == m {
        assert(render_items(l, m).subrange(0, render_items(l, j).len() as int) =~= render_items(l, j));
    } else {
        lemma_items_prefix(l, j, (m - 1) as nat);
        let a = render_items(l, (m - 1) as nat);
        assert(render_items(l, m) == a + seq![','] + render(l[m - 1]));
        assert(render_items(l, m).subrange(0, render_items(l, j).len() as int) =~= a.subrange(0, render_items(l, j).len() as int));
        if j == m - 1 {
            assert(render_items(l, m)[a.len() as int] == ',');
        } else {
            assert(render_items(l, m)[render_items(l, j).len() as int] == a[render_items(l, j).len() as int]);
        }
    }
}

/// Where item `k` of the list `l` starts in the text of the list.
pub open spec fn off(l: Seq<Packet>, k: nat) -> int {
    if k == 0 {
        1
    } else {
        1 + render_items(l, k).len() as int + 1
    }
}

/// Item `k` of a list stands in the list's text at `off(l, k)`, followed by a
/// comma, or by the closing bracket where it is the last.
proof fn lemma_item_at(l: Seq<Packet>, k: nat)
    requires
        k < l.len(),
    ensures
        ({
            let t = render(Packet::List(l));
            let o = off(l, k);
            let e = o + render(l[k as int]).len();
            &&& e < t.len()
            &&& t.subrange(o, e) == render(l[k as int])
            &&& (k + 1 < l.len() ==> t[e] == ',' && off(l, (k + 1) as nat) == e + 1)
            &&& (k + 1 == l.len() ==> t[e] == ']' && e + 1 == t.len())
        }),
{
    let t = render(Packet::List(l));
    let m = l.len();
    let all = render_items(l, m);
    assert(t == seq!['['] + all + seq![']']);
    let a = render_items(l, (k + 1) as nat);
    lemma_items_prefix(l, (k + 1) as nat, m);
    if k == 0 {
        assert(a == render(l[0]));
    } else {
        assert(a == render_items(l, k) + seq![','] + render(l[k as int]));
    }
    let o = off(l, k);
    let e = o + render(l[k as int]).len();
    assert(e == 1 + a.len());
    assert(t.subrange(o, e) =~= a.subrange(o - 1, a.len() as int));
    assert(a.subrange(o - 1, a.len() as int) =~= render(l[k as int]));
    if k + 1 < m {
        assert(t[e] == all[a.len() as int]);
    } else {
        assert(all == a);
    }
}

pub open spec fn list_view(v: Seq<RecList>) -> Seq<Packet> {
    Seq::new(v.len(), |i: int| v[i]@)
}

proof fn lemma_list_view(v: Vec<RecList>)
    ensures
        RecList::List(v)@ == Packet::List(list_view(v@)),
{
    let p = RecList::List(v)@;
    if let Packet::List(q) = p {
        assert(q =~= list_view(v@));
    }
}

proof fn lemma_render_first(p: Packet)
    ensures
        render(p).len() >= 1,
        p is List ==> render(p)[0] == '[',
        p is Num ==> is_digit(render(p)[0]),
{
    match p {
        Packet::Num(n) => {
            lemma_decimal_digits(n);
        },
        Packet::List(l) => {},
    }
}

/// A packet of which no text stands at `pos`.
pub open spec fn no_packet_at(s: Seq<char>, pos: int) -> bool {
    forall|p: Packet| small(p) ==> !#[trigger] stands(s, pos, p)
}

/// Reads a packet from position `pos` of `s`; the packet and the position
/// after it. Where the text of a packet whose numbers are at most `MAX_NUM`
/// stands there, followed by a delimiter, that packet is read.
fn parse_at(s: &Vec<char>, pos: usize) -> (r: Option<(RecList, usize)>)
    ensures
        match r {
            Some((p, e)) => pos < e <= s.len() && s@.subrange(pos as int, e as int) == render(p@),
            None => no_packet_at(s@, pos as int),
        },
        forall|p: Packet|
            small(p) && #[trigger] stands(s@, pos as int, p) ==> r is Some && r->Some_0.0@ == p && r->Some_0.1 == pos
                + render(p).len(),
    decreases s.len() - pos,
{
    let ghost ss = s@;
    if pos >= s.len() {
        proof {
            assert forall|p: Packet| small(p) implies !#[trigger] stands(ss, pos as int, p) by {
                lemma_render_first(p);
            }
        }
        return None;
    }
    if s[pos] == '[' {
        proof {
            assert forall|p: Packet| small(p) && #[trigger] stands(ss, pos as int, p) implies p is List by {
                lemma_render_first(p);
                assert(ss[pos as int] == render(p)[0]);
            }
        }
        if pos + 1 < s.len() && s[pos + 1] == ']' {
            let v: Vec<RecList> = Vec::new();
            proof {
                lemma_list_view(v);
                assert(list_view(v@) =~= Seq::<Packet>::empty());
                assert(s@.subrange(pos as int, pos + 2) =~= seq!['['] + render_items(Seq::<Packet>::empty(), 0) + seq![']']);
                assert forall|p: Packet| small(p) && #[trigger] stands(ss, pos as int, p) implies p == Packet::List(
                    Seq::<Packet>::empty(),
                ) by {
                    let l = p->List_0;
                    if l.len() > 0 {
                        lemma_item_at(l, 0);
                        lemma_render_first(l[0]);
                        let t = render(p);
                        assert(t.subrange(1, 1 + render(l[0]).len() as int) == render(l[0]));
                        assert(t[1] == render(l[0])[0]);
                        assert(ss[pos + 1] == t[1]);
                    } else {
                        assert(l =~= Seq::<Packet>::empty());
                    }
                }
            }
            return Some((RecList::List(v), pos + 2));
        }
        proof {
            assert forall|p: Packet| small(p) && #[trigger] stands(ss, pos as int, p) implies p->List_0.len() > 0 by {
                let l = p->List_0;
                if l.len() == 0 {
                    assert(render(p) == seq!['['] + render_items(l, 0) + seq![']']);
                    assert(render(p) =~= seq!['[', ']']);
                    assert(ss[pos + 1] == render(p)[1]);
                }
            }
        }
        let mut items: Vec<RecList> = Vec::new();
        let mut i: usize = pos + 1;
        proof {
            assert(s@.subrange(pos as int, i as int) =~= seq!['['] + render_items(list_view(items@), 0));
        }
        loop
            invariant
                ss == s@,
                pos < i <= s.len(),
                ss[pos as int] == '[',
                s@.subrange(pos as int, i as int) == seq!['['] + render_items(list_view(items@), items.len() as nat) + if items.len() > 0 {
                    seq![',']
                } else {
                    Seq::<char>::empty()
                },
                forall|p: Packet|
                    small(p) && #[trigger] stands(ss, pos as int, p) ==> p is List && items.len() < p->List_0.len() && (forall|j: int|
                        0 <= j < items.len() ==> list_view(items@)[j] == p->List_0[j]) && i == pos + off(p->List_0, items.len() as nat),
            decreases s.len() - i,
        {
            let k = items.len();
            proof {
                assert forall|p: Packet| small(p) && #[trigger] stands(ss, pos as int, p) implies stands(ss, i as int, p->List_0[k as int])
                    && small(p->List_0[k as int]) by {
                    let l = p->List_0;
                    lemma_item_at(l, k as nat);
                    lemma_smalls(l, l.len(), k as int);
                    let t = render(p);
                    let o = off(l, k as nat);
                    let e = o + render(l[k as int]).len();
                    assert(ss.subrange(pos as int, pos + t.len()) == t);
                    assert(ss.subrange(i as int, i + render(l[k as int]).len()) =~= t.subrange(o, e));
                    assert(ss[pos + e] == t[e]);
                }
            }
            let (p, e) = match parse_at(s, i) {
                Some(x) => x,
                None => {
                    proof {
                        assert forall|q: Packet| small(q) implies !#[trigger] stands(ss, pos as int, q) by {
                            if stands(ss, pos as int, q) {
                                assert(stands(ss, i as int, q->List_0[k as int]));
                            }
                        }
                    }
                    return None;
                },
            };
            let ghost before = list_view(items@);
            items.push(p);
            let ghost after = list_view(items@);
            proof {
                assert(after =~= before.push(p@));
                lemma_render_items_prefix(after, before, k as nat);
                if k == 0 {
                    assert(render_items(after, 1) == render(after[0]));
                } else {
                    assert(render_items(after, (k + 1) as nat) == render_items(after, k as nat) + seq![','] + render(after[k as int]));
                }
                assert(s@.subrange(pos as int, e as int) =~= s@.subrange(pos as int, i as int) + s@.subrange(i as int, e as int));
                assert(s@.subrange(pos as int, e as int) =~= seq!['['] + render_items(after, (k + 1) as nat));
                assert forall|q: Packet| small(q) && #[trigger] stands(ss, pos as int, q) implies p@ == q->List_0[k as int] && e == i
                    + render(q->List_0[k as int]).len() && (forall|j: int| 0 <= j <= k ==> after[j] == q->List_0[j]) by {
                    assert(stands(ss, i as int, q->List_0[k as int]));
                    assert forall|j: int| 0 <= j <= k implies after[j] == q->List_0[j] by {
                        if j < k {
                            assert(after[j] == before[j]);
                        }
                    }
                }
                assert forall|q: Packet| small(q) && #[trigger] stands(ss, pos as int, q) implies e < s.len() && (ss[e as int] == ','
                    <==> k + 1 < q->List_0.len()) && (ss[e as int] == ']' <==> k + 1 == q->List_0.len()) && (k + 1 < q->List_0.len()
                    ==> pos + off(q->List_0, (k + 1) as nat) == e + 1) && (k + 1 == q->List_0.len() ==> e + 1 == pos + render(q).len()) by {
                    let l = q->List_0;
                    lemma_item_at(l, k as nat);
                    let t = render(q);
                    let o = off(l, k as nat);
                    let er = o + render(l[k as int]).len();
                    assert(stands(ss, i as int, l[k as int]));
                    assert(i == pos + o);
                    assert(e == pos + er);
                    assert(ss.subrange(pos as int, pos + t.len()) == t);
                    assert(ss[pos + er] == ss.subrange(pos as int, pos + t.len())[er]);
                    assert(ss[pos + er] == t[er]);
                }
            }
            if e >= s.len() {
                return None;
            }
            if s[e] == ']' {
                let l = RecList::List(items);
                proof {
                    lemma_list_view(items);
                    assert(s@.subrange(pos as int, e + 1) =~= s@.subrange(pos as int, e as int).push(']'));
                    assert(render(l@) == seq!['['] + render_items(after, after.len()) + seq![']']);
                    assert(s@.subrange(pos as int, e + 1) =~= render(l@));
                    assert forall|q: Packet| small(q) && #[trigger] stands(ss, pos as int, q) implies l@ == q by {
                        assert(after =~= q->List_0);
                    }
                }
                return Some((l, e + 1));
            }
            if s[e] != ',' {
                return None;
            }
            proof {
                assert(s@.subrange(pos as int, e + 1) =~= s@.subrange(pos as int, e as int).push(','));
                assert(s@.subrange(pos as int, e + 1) =~= seq!['['] + render_items(after, (k + 1) as nat) + seq![',']);
            }
            i = e + 1;
        }
    } else {
        proof {
            assert forall|p: Packet| small(p) && #[trigger] stands(ss, pos as int, p) implies p is Num by {
                lemma_render_first(p);
                assert(ss[pos as int] == render(p)[0]);
            }
        }
        let mut e: usize = pos;
        let mut v: u64 = 0;
        while e < s.len() && '0' <= s[e] && s[e] <= '9'
            invariant
                ss == s@,
                pos <= e <= s.len(),
                forall|x: int| pos <= x < e ==> is_digit(#[trigger] s@[x]),
                v == digits_value(s@.subrange(pos as int, e as int)),
                v <= MAX_NUM,
                forall|p: Packet|
                    small(p) && #[trigger] stands(ss, pos as int, p) ==> p is Num && e <= pos + render(p).len(),
            decreases s.len() - e,
        {
            let d = s[e];
            proof {
                assert(s@.subrange(pos as int, e + 1) =~= s@.subrange(pos as int, e as int).push(d));
                lemma_digits_push(s@.subrange(pos as int, e as int), d);
                assert forall|p: Packet| small(p) && #[trigger] stands(ss, pos as int, p) implies e < pos + render(p).len()
                    && digits_value(s@.subrange(pos as int, e + 1)) <= MAX_NUM by {
                    let dec = render(p);
                    lemma_decimal_digits(p->Num_0);
                    if e == pos + dec.len() {
                        assert(delim(ss, e as int));
                    }
                    lemma_digits_prefix(dec, e + 1 - pos);
                    assert(dec.subrange(0, e + 1 - pos) =~= ss.subrange(pos as int, e + 1));
                }
            }
            let nv = v * 10 + (d as u32 - '0' as u32) as u64;
            if nv > MAX_NUM {
                return None;
            }
            v = nv;
            e += 1;
        }
        proof {
            assert forall|p: Packet| small(p) && #[trigger] stands(ss, pos as int, p) implies e == pos + render(p).len() by {
                let dec = render(p);
                lemma_decimal_digits(p->Num_0);
                if e < pos + dec.len() {
                    assert(ss[e as int] == dec[e - pos]);
                }
            }
        }
        if e == pos || (e - pos > 1 && s[pos] == '0') {
            proof {
                assert forall|p: Packet| small(p) implies !#[trigger] stands(ss, pos as int, p) by {
                    if stands(ss, pos as int, p) {
                        let dec = render(p);
                        lemma_decimal_digits(p->Num_0);
                        assert(ss[pos as int] == dec[0]);
                    }
                }
            }
            return None;
        }
        proof {
            let d = s@.subrange(pos as int, e as int);
            assert(d[0] == s@[pos as int]);
            lemma_decimal(d);
            assert forall|p: Packet| small(p) && #[trigger] stands(ss, pos as int, p) implies RecList::Num(v)@ == p by {
                lemma_decimal_digits(p->Num_0);
                assert(d == render(p));
            }
        }
        Some((RecList::Num(v), e))
    }
}

/// `l` is the text of a packet whose numbers are at most `MAX_NUM`.
pub open spec fn is_packet_text(l: Seq<char>) -> bool {
    exists|p: Packet| small(p) && #[trigger] render(p) == l
}

impl RecList {
    /// The order of two packets as an `Ordering`.
    pub fn partial_cmp(&self, other: &RecList) -> (r: Option<std::cmp::Ordering>)
        ensures
            r == Some(
                if pcmp(self@, other@) < 0 {
                    std::cmp::Ordering::Less
                } else if pcmp(self@, other@) > 0 {
                    std::cmp::Ordering::Greater
                } else {
                    std::cmp::Ordering::Equal
                },
            ),
    {
        let c = self.compare(other);
        if c < 0 {
            Some(std::cmp::Ordering::Less)
        } else if c > 0 {
            Some(std::cmp::Ordering::Greater)
        } else {
            Some(std::cmp::Ordering::Equal)
        }
    }

    /// The packet that the line `l` is the text of; `None` where it is the
    /// text of none with numbers of at most `MAX_NUM`.
    pub fn from_str(l: &Vec<char>) -> (r: Option<RecList>)
        ensures
            match r {
                Some(p) => render(p@) == l@,
                None => !is_packet_text(l@),
            },
    {
        let ghost ls = l@;
        let res = parse_at(l, 0);
        proof {
            assert forall|p: Packet| small(p) && #[trigger] render(p) == ls implies stands(ls, 0, p) by {
                assert(ls.subrange(0, ls.len() as int) =~= ls);
            }
        }
        match res {
            Some((p, e)) => if e == l.len() {
                proof {
                    assert(l@.subrange(0, e as int) =~= l@);
                }
                Some(p)
            } else {
                None
            },
            None => None,
        }
    }
}

/// The pairs of packets: two lines each, pairs separated by an empty line.
pub fn parse(input: &str) -> (r: Option<Vec<(RecList, RecList)>>)
    ensures
        match r {
            Some(v) => v.len() == groups_of(lines_of(input@)).len() && forall|i: int|
                0 <= i < v.len() ==> {
                    let g = #[trigger] groups_of(lines_of(input@))[i];
                    g.len() == 2 && render(v@[i].0@) == g[0] && render(v@[i].1@) == g[1]
                },
            None => exists|i: int|
                0 <= i < groups_of(lines_of(input@)).len() && {
                    let g = #[trigger] groups_of(lines_of(input@))[i];
                    g.len() != 2 || !is_packet_text(g[0]) || !is_packet_text(g[1])
                },
        },
{
    let blocks = char_blocks(input);
    let ghost gs = groups_of(lines_of(input@));
    let mut out: Vec<(RecList, RecList)> = Vec::new();
    let mut i: usize = 0;
    while i < blocks.len()
        invariant
            gs == groups_of(lines_of(input@)),
            blocks_view(&blocks) == gs,
            i <= blocks.len(),
            out.len() == i,
            forall|j: int|
                0 <= j < i ==> {
                    let g = #[trigger] gs[j];
                    g.len() == 2 && render(out@[j].0@) == g[0] && render(out@[j].1@) == g[1]
                },
        decreases blocks.len() - i,
    {
        let b = &blocks[i];
        proof {
            assert(rows_view(b) == gs[i as int]);
        }
        if b.len() != 2 {
            return None;
        }
        proof {
            assert(b@[0]@ == gs[i as int][0] && b@[1]@ == gs[i as int][1]);
        }
        match (RecList::from_str(&b[0]), RecList::from_str(&b[1])) {
            (Some(x), Some(y)) => out.push((x, y)),
            _ => {
                return None;
            },
        }
        i += 1;
    }
    Some(out)
}

/// Sum of the numbers (from 1) of the pairs among the first `n` that are in
/// the right order.
pub open spec fn ordered_sum(v: Seq<(RecList, RecList)>, n: int) -> int
    decreases n,
{
    if n <= 0 {
        0
    } else {
        ordered_sum(v, n - 1) + if pcmp(v[n - 1].0@, v[n - 1].1@) <= 0 { n } else { 0 }
    }
}

/// The sum of the numbers of the pairs whose first packet does not come
/// after the second.
pub fn part_one(input: &Vec<(RecList, RecList)>) -> (r: u64)
    requires
        input.len() <= 0xffff_ffff,
    ensures
        r == ordered_sum(input@, input.len() as int),
{
    let mut sum: u64 = 0;
    let mut i: usize = 0;
    while i < input.len()
        invariant
            input.len() <= 0xffff_ffff,
            i <= input.len(),
            sum == ordered_sum(input@, i as int),
            sum <= i * (i + 1) / 2,
        decreases input.len() - i,
    {
        let (a, b) = (&input[i].0, &input[i].1);
        proof {
            assert(i * (i + 1) / 2 + (i + 1) == (i + 1) * (i + 2) / 2) by (nonlinear_arith);
            assert((i + 1) * (i + 2) / 2 <= 0x1_0000_0000 * 0x1_0000_0001 / 2) by (nonlinear_arith)
                requires
                    i + 1 <= 0x1_0000_0000,
            ;
        }
        if a.compare(b) <= 0 {
            sum = sum + (i as u64 + 1);
        }
        i += 1;
    }
    sum
}

/// Packets among the first `n` pairs (both of each) that come before `x`.
pub open spec fn count_before(v: Seq<(RecList, RecList)>, n: int, x: Packet) -> int
    decreases n,
{
    if n <= 0 {
        0
    } else {
        count_before(v, n - 1, x) + (if pcmp(v[n - 1].0@, x) < 0 { 1int } else { 0int }) + (if pcmp(v[n - 1].1@, x) < 0 {
            1int
        } else {
            0int
        })
    }
}

pub open spec fn divider(n: nat) -> Packet {
    Packet::List(seq![Packet::List(seq![Packet::Num(n)])])
}

fn make_divider(n: u64) -> (r: RecList)
    ensures
        r@ == divider(n as nat),
{
    let mut v1: Vec<RecList> = Vec::new();
    v1.push(RecList::Num(n));
    proof {
        lemma_list_view(v1);
        assert(list_view(v1@) =~= seq![Packet::Num(n as nat)]);
    }
    let inner = RecList::List(v1);
    let mut v2: Vec<RecList> = Vec::new();
    v2.push(inner);
    proof {
        lemma_list_view(v2);
        assert(list_view(v2@) =~= seq![Packet::List(seq![Packet::Num(n as nat)])]);
    }
    RecList::List(v2)
}

/// The product of the places (from 1) that the dividers `[[2]]` and `[[6]]`
/// take among all packets in order: one more than the number of packets,
/// the other divider included, that come before each.
pub fn part_two(input: &Vec<(RecList, RecList)>) -> (r: u64)
    requires
        input.len() <= 0x4000_0000,
    ensures
        ({
            let n = input.len() as int;
            let i1 = 1 + count_before(input@, n, divider(2)) + if pcmp(divider(6), divider(2)) < 0 { 1int } else { 0int };
            let i2 = 1 + count_before(input@, n, divider(6)) + if pcmp(divider(2), divider(6)) < 0 { 1int } else { 0int };
            r == i1 * i2
        }),
{
    let div1 = make_divider(2);
    let div2 = make_divider(6);
    let mut c1: u64 = 0;
    let mut c2: u64 = 0;
    let mut i: usize = 0;
    while i < input.len()
        invariant
            input.len() <= 0x4000_0000,
            div1@ == divider(2),
            div2@ == divider(6),
            i <= input.len(),
            c1 == count_before(input@, i as int, divider(2)),
            c2 == count_before(input@, i as int, divider(6)),
            c1 <= 2 * i,
            c2 <= 2 * i,
        decreases input.len() - i,
    {
        let (a, b) = (&input[i].0, &input[i].1);
        if a.compare(&div1) < 0 {
            c1 += 1;
        }
        if b.compare(&div1) < 0 {
            c1 += 1;
        }
        if a.compare(&div2) < 0 {
            c2 += 1;
        }
        if b.compare(&div2) < 0 {
            c2 += 1;
        }
        i += 1;
    }
    let i1 = 1 + c1 + if div2.compare(&div1) < 0 { 1 } else { 0 };
    let i2 = 1 + c2 + if div1.compare(&div2) < 0 { 1 } else { 0 };
    proof {
        assert(i1 * i2 <= 0x8000_0002 * 0x8000_0002) by (nonlinear_arith)
            requires
                i1 <= 0x8000_0002,
                i2 <= 0x8000_0002,
        ;
    }
    i1 * i2
}

} // verus!
