use vstd::prelude::*;

verus! {

/// Splits `s` at every occurrence of `sep`, keeping empty pieces.
pub open spec fn split_on(s: Seq<char>, sep: char) -> Seq<Seq<char>>
    decreases s.len(),
{
    if s.len() == 0 {
        seq![Seq::<char>::empty()]
    } else {
        let prev = split_on(s.drop_last(), sep);
        if s.last() == sep {
            prev.push(Seq::<char>::empty())
        } else {
            prev.update(prev.len() - 1, prev.last().push(s.last()))
        }
    }
}

/// The lines of `s`: the pieces between newlines, without a final empty piece.
pub open spec fn lines_of(s: Seq<char>) -> Seq<Seq<char>> {
    let p = split_on(s, '\n');
    if p.last().len() == 0 {
        p.drop_last()
    } else {
        p
    }
}

pub proof fn lemma_split_nonempty(s: Seq<char>, sep: char)
    ensures
        split_on(s, sep).len() >= 1,
    decreases s.len(),
{
    if s.len() > 0 {
        lemma_split_nonempty(s.drop_last(), sep);
    }
}

/// The rows of characters as a sequence of sequences.
pub open spec fn rows_view(v: &Vec<Vec<char>>) -> Seq<Seq<char>> {
    v@.map_values(|r: Vec<char>| r@)
}

/// Splits `s` into its lines, each as a vector of characters.
pub fn char_lines(s: &str) -> (r: Vec<Vec<char>>)
    ensures
        rows_view(&r) == lines_of(s@),
{
    let n = s.unicode_len();
    let mut out: Vec<Vec<char>> = Vec::new();
    let mut cur: Vec<char> = Vec::new();
    let mut i: usize = 0;
    while i < n
        invariant
            n == s@.len(),
            i <= n,
            rows_view(&out).push(cur@) == split_on(s@.subrange(0, i as int), '\n'),
        decreases n - i,
    {
        let c = s.get_char(i);
        proof {
            let t = s@.subrange(0, i as int + 1);
            assert(t.drop_last() =~= s@.subrange(0, i as int));
            lemma_split_nonempty(t.drop_last(), '\n');
        }
        if c == '\n' {
            out.push(cur);
            cur = Vec::new();
            proof {
                assert(rows_view(&out).push(cur@) =~= split_on(s@.subrange(0, i as int), '\n').push(
                    Seq::<char>::empty(),
                ));
            }
        } else {
            let ghost old_out = rows_view(&out);
            cur.push(c);
            proof {
                assert(rows_view(&out).push(cur@) =~= old_out.push(cur@.drop_last()).update(
                    old_out.len() as int,
                    cur@,
                ));
            }
        }
        i += 1;
    }
    proof {
        assert(s@.subrange(0, n as int) =~= s@);
    }
    let ghost full = rows_view(&out).push(cur@);
    if cur.len() == 0 {
        proof {
            assert(rows_view(&out) =~= full.drop_last());
        }
    } else {
        out.push(cur);
        proof {
            assert(rows_view(&out) =~= full);
        }
    }
    out
}

pub open spec fn is_digit(c: char) -> bool {
    '0' <= c && c <= '9'
}

/// The number written by the decimal digits `s`.
pub open spec fn digits_value(s: Seq<char>) -> nat
    decreases s.len(),
{
    if s.len() == 0 {
        0
    } else {
        digits_value(s.drop_last()) * 10 + (s.last() as u32 - '0' as u32) as nat
    }
}

pub proof fn lemma_digits_push(s: Seq<char>, c: char)
    ensures
        digits_value(s.push(c)) == digits_value(s) * 10 + (c as u32 - '0' as u32) as nat,
{
    assert(s.push(c).drop_last() =~= s);
}

pub proof fn lemma_digits_prefix(s: Seq<char>, j: int)
    requires
        0 <= j <= s.len(),
    ensures
        digits_value(s.subrange(0, j)) <= digits_value(s),
    decreases s.len(),
{
    if j < s.len() {
        assert(s.subrange(0, j) =~= s.drop_last().subrange(0, j));
        lemma_digits_prefix(s.drop_last(), j);
    } else {
        assert(s.subrange(0, j) =~= s);
    }
}

/// All of `s` is decimal digits, at least one.
pub open spec fn is_number(s: Seq<char>) -> bool {
    s.len() > 0 && forall|i: int| 0 <= i < s.len() ==> is_digit(#[trigger] s[i])
}

/// The number that the line `l` writes, `None` where `l` is not a number or
/// the number exceeds `max`.
pub fn parse_decimal(l: &Vec<char>, max: u64) -> (r: Option<u64>)
    requires
        max <= 0xffff_ffff,
    ensures
        match r {
            Some(v) => is_number(l@) && v == digits_value(l@) && v <= max,
            None => !(is_number(l@) && digits_value(l@) <= max),
        },
{
    if l.len() == 0 {
        return None;
    }
    let mut v: u64 = 0;
    let mut i: usize = 0;
    while i < l.len()
        invariant
            i <= l.len(),
            forall|x: int| 0 <= x < i ==> is_digit(#[trigger] l@[x]),
            v == digits_value(l@.subrange(0, i as int)),
            v <= max,
            max <= 0xffff_ffff,
        decreases l.len() - i,
    {
        let d = l[i];
        if !('0' <= d && d <= '9') {
            return None;
        }
        proof {
            assert(l@.subrange(0, i as int + 1) =~= l@.subrange(0, i as int).push(d));
            lemma_digits_push(l@.subrange(0, i as int), d);
        }
        let nv = v * 10 + (d as u32 - '0' as u32) as u64;
        if nv > max {
            proof {
                lemma_digits_prefix(l@, i as int + 1);
            }
            return None;
        }
        v = nv;
        i += 1;
    }
    proof {
        assert(l@.subrange(0, i as int) =~= l@);
    }
    Some(v)
}

/// `s` cut at its first `c`: the part before and the part after, `None`
/// where `s` holds no `c`.
pub open spec fn split_first(s: Seq<char>, c: char) -> Option<(Seq<char>, Seq<char>)>
    decreases s.len(),
{
    if s.len() == 0 {
        None
    } else if s[0] == c {
        Some((Seq::<char>::empty(), s.drop_first()))
    } else {
        match split_first(s.drop_first(), c) {
            Some((a, b)) => Some((seq![s[0]] + a, b)),
            None => None,
        }
    }
}

proof fn lemma_split_first(s: Seq<char>, c: char, p: int)
    requires
        0 <= p <= s.len(),
        forall|i: int| 0 <= i < p ==> s[i] != c,
    ensures
        p < s.len() && s[p] == c ==> split_first(s, c) == Some((s.subrange(0, p), s.subrange(p + 1, s.len() as int))),
        p == s.len() ==> split_first(s, c) is None,
    decreases p,
{
    if p > 0 {
        let t = s.drop_first();
        lemma_split_first(t, c, p - 1);
        if p < s.len() && s[p] == c {
            assert(seq![s[0]] + t.subrange(0, p - 1) =~= s.subrange(0, p));
            assert(t.subrange(p, t.len() as int) =~= s.subrange(p + 1, s.len() as int));
        }
    } else if p < s.len() {
        assert(s.subrange(0, 0) =~= Seq::<char>::empty());
        assert(s.subrange(1, s.len() as int) =~= s.drop_first());
    }
}

pub fn copy_range(l: &Vec<char>, from: usize, to: usize) -> (r: Vec<char>)
    requires
        from <= to <= l.len(),
    ensures
        r@ == l@.subrange(from as int, to as int),
{
    let mut r: Vec<char> = Vec::new();
    let mut i: usize = from;
    while i < to
        invariant
            from <= i <= to <= l.len(),
            r@ == l@.subrange(from as int, i as int),
        decreases to - i,
    {
        r.push(l[i]);
        proof {
            assert(r@ =~= l@.subrange(from as int, i as int + 1));
        }
        i += 1;
    }
    r
}

/// Cuts `l` at its first `c`.
pub fn split_once(l: &Vec<char>, c: char) -> (r: Option<(Vec<char>, Vec<char>)>)
    ensures
        match r {
            Some((a, b)) => split_first(l@, c) == Some((a@, b@)),
            None => split_first(l@, c) is None,
        },
{
    let mut p: usize = 0;
    while p < l.len()
        invariant
            p <= l.len(),
            forall|i: int| 0 <= i < p ==> l@[i] != c,
        decreases l.len() - p,
    {
        if l[p] == c {
            proof {
                lemma_split_first(l@, c, p as int);
            }
            let a = copy_range(l, 0, p);
            let b = copy_range(l, p + 1, l.len());
            return Some((a, b));
        }
        p += 1;
    }
    proof {
        lemma_split_first(l@, c, p as int);
    }
    None
}

/// Relies on `String::push`, which appends one character to the string.
#[verifier::external_body]
pub(crate) fn push_char(s: &mut String, c: char)
    ensures
        final(s)@ == old(s)@.push(c),
{
    s.push(c);
}

/// The characters `from..to` of `l` as a string.
pub fn string_of(l: &Vec<char>, from: usize, to: usize) -> (r: String)
    requires
        from <= to <= l.len(),
    ensures
        r@ == l@.subrange(from as int, to as int),
{
    let mut r = String::new();
    let mut i: usize = from;
    while i < to
        invariant
            from <= i <= to <= l.len(),
            r@ == l@.subrange(from as int, i as int),
        decreases to - i,
    {
        push_char(&mut r, l[i]);
        proof {
            assert(r@ =~= l@.subrange(from as int, i as int + 1));
        }
        i += 1;
    }
    r
}

/// Whether `c` occurs in `s`.
pub fn has_char(s: &str, c: char) -> (r: bool)
    ensures
        r == s@.contains(c),
{
    let n = s.unicode_len();
    let mut i: usize = 0;
    while i < n
        invariant
            n == s@.len(),
            i <= n,
            forall|j: int| 0 <= j < i ==> s@[j] != c,
        decreases n - i,
    {
        if s.get_char(i) == c {
            proof {
                assert(s@[i as int] == c);
            }
            return true;
        }
        i += 1;
    }
    false
}

/// Whether `pat` stands in `l` from position `i` on.
pub fn stands_at(l: &Vec<char>, i: usize, pat: &Vec<char>) -> (r: bool)
    requires
        i <= l.len(),
    ensures
        r == (i + pat.len() <= l.len() && l@.subrange(i as int, i + pat.len()) == pat@),
{
    if pat.len() > l.len() - i {
        return false;
    }
    let mut j: usize = 0;
    while j < pat.len()
        invariant
            i + pat.len() <= l.len(),
            j <= pat.len(),
            forall|a: int| 0 <= a < j ==> l@[i + a] == pat@[a],
        decreases pat.len() - j,
    {
        if l[i + j] != pat[j] {
            proof {
                assert(l@.subrange(i as int, i + pat.len())[j as int] != pat@[j as int]);
            }
            return false;
        }
        j += 1;
    }
    proof {
        assert(l@.subrange(i as int, i + pat.len()) =~= pat@);
    }
    true
}

/// Whether `a` and `b` hold the same characters.
pub fn same_chars(a: &Vec<char>, b: &Vec<char>) -> (r: bool)
    ensures
        r == (a@ == b@),
{
    if a.len() != b.len() {
        return false;
    }
    let mut i: usize = 0;
    while i < a.len()
        invariant
            a.len() == b.len(),
            i <= a.len(),
            forall|j: int| 0 <= j < i ==> a@[j] == b@[j],
        decreases a.len() - i,
    {
        if a[i] != b[i] {
            return false;
        }
        i += 1;
    }
    proof {
        assert(a@ =~= b@);
    }
    true
}

/// Splits `l` at every `sep`, keeping empty pieces.
pub fn split_chars(l: &Vec<char>, sep: char) -> (r: Vec<Vec<char>>)
    ensures
        rows_view(&r) == split_on(l@, sep),
{
    let mut out: Vec<Vec<char>> = Vec::new();
    let mut cur: Vec<char> = Vec::new();
    let mut i: usize = 0;
    while i < l.len()
        invariant
            i <= l.len(),
            rows_view(&out).push(cur@) == split_on(l@.subrange(0, i as int), sep),
        decreases l.len() - i,
    {
        let c = l[i];
        proof {
            let t = l@.subrange(0, i as int + 1);
            assert(t.drop_last() =~= l@.subrange(0, i as int));
            lemma_split_nonempty(t.drop_last(), sep);
        }
        if c == sep {
            out.push(cur);
            cur = Vec::new();
            proof {
                assert(rows_view(&out).push(cur@) =~= split_on(l@.subrange(0, i as int), sep).push(Seq::<char>::empty()));
            }
        } else {
            let ghost old_out = rows_view(&out);
            cur.push(c);
            proof {
                assert(rows_view(&out).push(cur@) =~= old_out.push(cur@.drop_last()).update(old_out.len() as int, cur@));
            }
        }
        i += 1;
    }
    proof {
        assert(l@.subrange(0, i as int) =~= l@);
    }
    out.push(cur);
    out
}

/// The lines `ls` in groups separated by empty lines.
pub open spec fn groups_of(ls: Seq<Seq<char>>) -> Seq<Seq<Seq<char>>>
    decreases ls.len(),
{
    if ls.len() == 0 {
        seq![Seq::<Seq<char>>::empty()]
    } else {
        let p = groups_of(ls.drop_last());
        if ls.last().len() == 0 {
            p.push(Seq::<Seq<char>>::empty())
        } else {
            p.update(p.len() - 1, p.last().push(ls.last()))
        }
    }
}

pub proof fn lemma_groups_nonempty(ls: Seq<Seq<char>>)
    ensures
        groups_of(ls).len() >= 1,
    decreases ls.len(),
{
    if ls.len() > 0 {
        lemma_groups_nonempty(ls.drop_last());
    }
}

pub open spec fn blocks_view(v: &Vec<Vec<Vec<char>>>) -> Seq<Seq<Seq<char>>> {
    v@.map_values(|b: Vec<Vec<char>>| rows_view(&b))
}

/// The lines of `s` in blocks separated by empty lines.
pub fn char_blocks(s: &str) -> (r: Vec<Vec<Vec<char>>>)
    ensures
        blocks_view(&r) == groups_of(lines_of(s@)),
{
    let lines = char_lines(s);
    let ghost ls = lines_of(s@);
    let mut out: Vec<Vec<Vec<char>>> = Vec::new();
    let mut cur: Vec<Vec<char>> = Vec::new();
    let mut i: usize = 0;
    proof {
        assert(ls.subrange(0, 0) =~= Seq::<Seq<char>>::empty());
        assert(rows_view(&cur) =~= Seq::<Seq<char>>::empty());
        assert(blocks_view(&out).push(rows_view(&cur)) =~= seq![Seq::<Seq<char>>::empty()]);
    }
    while i < lines.len()
        invariant
            ls == lines_of(s@),
            rows_view(&lines) == ls,
            i <= lines.len(),
            blocks_view(&out).push(rows_view(&cur)) == groups_of(ls.subrange(0, i as int)),
        decreases lines.len() - i,
    {
        let ghost pre = ls.subrange(0, i as int);
        let ghost next = ls.subrange(0, i as int + 1);
        let ghost before = blocks_view(&out).push(rows_view(&cur));
        proof {
            assert(lines@[i as int]@ == ls[i as int]);
            assert(next.drop_last() =~= pre);
            lemma_groups_nonempty(pre);
        }
        if lines[i].len() == 0 {
            out.push(cur);
            cur = Vec::new();
            proof {
                assert(rows_view(&cur) =~= Seq::<Seq<char>>::empty());
                assert(blocks_view(&out).push(rows_view(&cur)) =~= before.push(Seq::empty()));
            }
        } else {
            let l = copy_range(&lines[i], 0, lines[i].len());
            proof {
                assert(l@ =~= ls[i as int]);
            }
            let ghost cur_before = rows_view(&cur);
            cur.push(l);
            proof {
                assert(rows_view(&cur) =~= cur_before.push(ls[i as int]));
                assert(blocks_view(&out).push(rows_view(&cur)) =~= before.update(before.len() - 1, before.last().push(
                    ls[i as int],
                )));
            }
        }
        i += 1;
    }
    proof {
        assert(ls.subrange(0, i as int) =~= ls);
    }
    let ghost fin = blocks_view(&out).push(rows_view(&cur));
    out.push(cur);
    proof {
        assert(blocks_view(&out) =~= fin);
    }
    out
}

/// `l` starts with `p`.
pub open spec fn starts(l: Seq<char>, p: Seq<char>) -> bool {
    p.len() <= l.len() && l.subrange(0, p.len() as int) == p
}

/// What follows the prefix `p` in `l`, `None` where `l` does not start with it.
pub fn after_prefix(l: &Vec<char>, p: &Vec<char>) -> (r: Option<Vec<char>>)
    ensures
        match r {
            Some(rest) => starts(l@, p@) && rest@ == l@.subrange(p@.len() as int, l@.len() as int),
            None => !starts(l@, p@),
        },
{
    if stands_at(l, 0, p) {
        Some(copy_range(l, p.len(), l.len()))
    } else {
        None
    }
}

/// The characters of `s`.
pub fn chars_of(s: &str) -> (r: Vec<char>)
    ensures
        r@ == s@,
{
    let n = s.unicode_len();
    let mut r: Vec<char> = Vec::new();
    let mut i: usize = 0;
    while i < n
        invariant
            n == s@.len(),
            i <= n,
            r@ == s@.subrange(0, i as int),
        decreases n - i,
    {
        r.push(s.get_char(i));
        proof {
            assert(r@ =~= s@.subrange(0, i as int + 1));
        }
        i += 1;
    }
    proof {
        assert(r@ =~= s@);
    }
    r
}

} // verus!
