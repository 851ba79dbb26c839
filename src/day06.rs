use vstd::prelude::*;

verus! {

/// No character occurs twice in `s`.
pub open spec fn all_distinct(s: Seq<char>) -> bool {
    forall|i: int, j: int| 0 <= i < j < s.len() ==> s[i] != s[j]
}

/// Whether some character occurs twice in `s`.
pub fn has_duplicate(s: &str) -> (r: bool)
    ensures
        r == !all_distinct(s@),
{
    let n = s.unicode_len();
    let mut i: usize = 0;
    while i < n
        invariant
            n == s@.len(),
            i <= n,
            forall|a: int, b: int| 0 <= a < i && a < b < n ==> s@[a] != s@[b],
        decreases n - i,
    {
        let c = s.get_char(i);
        let mut j: usize = i + 1;
        while j < n
            invariant
                n == s@.len(),
                i < n,
                c == s@[i as int],
                i + 1 <= j <= n,
                forall|b: int| i < b < j ==> s@[i as int] != s@[b],
            decreases n - j,
        {
            if c == s.get_char(j) {
                return true;
            }
            j += 1;
        }
        i += 1;
    }
    false
}

/// `i` ends a window of `len` distinct characters of `s`.
pub open spec fn marker_at(s: Seq<char>, len: int, i: int) -> bool {
    len <= i <= s.len() && all_distinct(s.subrange(i - len, i))
}

/// The first position before the end of `input` that ends `len` distinct
/// characters, `None` where there is none.
pub fn part(input: &str, len: usize) -> (r: Option<usize>)
    ensures
        match r {
            Some(i) => len <= i < input@.len() && marker_at(input@, len as int, i as int) && forall|k: int|
                len <= k < i ==> !marker_at(input@, len as int, k),
            None => forall|k: int| len <= k < input@.len() ==> !marker_at(input@, len as int, k),
        },
{
    let n = input.unicode_len();
    let mut i: usize = len;
    while i < n
        invariant
            n == input@.len(),
            len <= i,
            forall|k: int| len <= k < i && k < n ==> !marker_at(input@, len as int, k),
        decreases n - i,
    {
        let window = input.substring_char(i - len, i);
        if !has_duplicate(window) {
            return Some(i);
        }
        i += 1;
    }
    None
}

} // verus!
