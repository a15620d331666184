//! Character-level helpers shared by the parser and the router.
use vstd::prelude::*;
use vstd::std_specs::iter::IteratorSpec;

verus! {

/// Relies on `String::push`: appends one character to the string.
#[verifier::external_body]
pub(crate) fn push_char(s: &mut String, c: char)
    ensures
        final(s)@ == old(s)@.push(c),
{
    s.push(c)
}

/// The characters of `s`, in order.
pub fn chars_of(s: &str) -> (r: Vec<char>)
    ensures
        r@ == s@,
{
    let mut r: Vec<char> = Vec::new();
    for c in it: s.chars()
        invariant
            r@ == it.seq().take(it.index() as int),
            it.seq() == s@,
    {
        r.push(c);
    }
    r
}

/// Whether `m` occurs in `s` starting at index `i`.
pub open spec fn occurs_at(s: Seq<char>, m: Seq<char>, i: int) -> bool {
    0 <= i && i + m.len() <= s.len() && s.subrange(i, i + m.len()) == m
}

/// The first index at or after `i` at which `m` occurs in `s`, if any.
pub open spec fn find_from(s: Seq<char>, m: Seq<char>, i: int) -> Option<int>
    decreases s.len() + 1 - i,
{
    if i < 0 || i + m.len() > s.len() {
        None
    } else if occurs_at(s, m, i) {
        Some(i)
    } else {
        find_from(s, m, i + 1)
    }
}

/// Whether `m` occurs anywhere in `s`.
pub open spec fn contains(s: Seq<char>, m: Seq<char>) -> bool {
    find_from(s, m, 0) is Some
}

/// Whether the characters of `m` stand in `s` from index `k` on.
fn occurs_at_exec(s: &Vec<char>, m: &Vec<char>, k: usize) -> (r: bool)
    requires
        k + m@.len() <= s@.len(),
    ensures
        r == occurs_at(s@, m@, k as int),
{
    let mut j: usize = 0;
    while j < m.len()
        invariant
            k + m.len() <= s.len(),
            j <= m.len(),
            s@.subrange(k as int, k + j) == m@.take(j as int),
        decreases m.len() - j,
    {
        if s[k + j] != m[j] {
            assert(s@.subrange(k as int, k + m@.len())[j as int] != m@[j as int]);
            return false;
        }
        assert(s@.subrange(k as int, k + j + 1) =~= s@.subrange(k as int, k + j).push(s@[k + j]));
        assert(m@.take(j + 1) =~= m@.take(j as int).push(m@[j as int]));
        j = j + 1;
    }
    assert(m@.take(j as int) == m@);
    true
}

/// The first index at which `m` occurs in `s`.
pub fn find(s: &Vec<char>, m: &Vec<char>) -> (r: Option<usize>)
    ensures
        r matches Some(k) ==> find_from(s@, m@, 0) == Some(k as int) && occurs_at(s@, m@, k as int),
        r is None ==> find_from(s@, m@, 0) is None,
{
    if m.len() > s.len() {
        return None;
    }
    let last: usize = s.len() - m.len();
    let mut k: usize = 0;
    loop
        invariant
            last == s@.len() - m@.len(),
            k <= last,
            find_from(s@, m@, 0) == find_from(s@, m@, k as int),
        decreases last - k,
    {
        if occurs_at_exec(s, m, k) {
            return Some(k);
        }
        if k == last {
            assert(find_from(s@, m@, k + 1) is None);
            return None;
        }
        k = k + 1;
    }
}

/// A string holding `v[lo..hi]`.
pub fn string_of_range(v: &Vec<char>, lo: usize, hi: usize) -> (r: String)
    requires
        lo <= hi <= v@.len(),
    ensures
        r@ == v@.subrange(lo as int, hi as int),
{
    let mut r = String::new();
    let mut i: usize = lo;
    while i < hi
        invariant
            lo <= i <= hi <= v@.len(),
            r@ == v@.subrange(lo as int, i as int),
        decreases hi - i,
    {
        push_char(&mut r, v[i]);
        assert(v@.subrange(lo as int, i + 1) =~= v@.subrange(lo as int, i as int).push(v@[i as int]));
        i = i + 1;
    }
    r
}

/// Appends the characters of `v` to `s`.
pub fn append_chars(s: &mut String, v: &Vec<char>)
    ensures
        final(s)@ == old(s)@ + v@,
{
    let ghost start = s@;
    let mut i: usize = 0;
    while i < v.len()
        invariant
            i <= v@.len(),
            s@ == start + v@.take(i as int),
        decreases v.len() - i,
    {
        push_char(s, v[i]);
        assert(v@.take(i + 1) =~= v@.take(i as int).push(v@[i as int]));
        i = i + 1;
    }
    assert(v@.take(i as int) == v@);
}

} // verus!
