//! Reading a run of characters: where whitespace stops, where a character first appears,
//! where a smaller run first turns up inside a larger one.
//!
//! A run is a range `[a, b)` of indices into one sequence of characters, so taking text
//! apart never copies it.

use vstd::prelude::*;
use crate::text::push_char;

verus! {

/// What `char::is_whitespace` says: the Unicode `White_Space` property.
pub open spec fn white(c: char) -> bool {
    let u = c as u32;
    ||| 0x09 <= u <= 0x0D
    ||| u == 0x20
    ||| u == 0x85
    ||| u == 0xA0
    ||| u == 0x1680
    ||| 0x2000 <= u <= 0x200A
    ||| u == 0x2028
    ||| u == 0x2029
    ||| u == 0x202F
    ||| u == 0x205F
    ||| u == 0x3000
}

pub fn is_white(c: char) -> (r: bool)
    ensures
        r == white(c),
{
    let u = c as u32;
    (0x09 <= u && u <= 0x0D) || u == 0x20 || u == 0x85 || u == 0xA0 || u == 0x1680 || (0x2000
        <= u && u <= 0x200A) || u == 0x2028 || u == 0x2029 || u == 0x202F || u == 0x205F || u
        == 0x3000
}

/// Where `[a, b)` starts once leading whitespace is left off.
pub open spec fn skip_white(s: Seq<char>, a: int, b: int) -> int
    decreases b - a,
{
    if a < b && white(s[a]) {
        skip_white(s, a + 1, b)
    } else {
        a
    }
}

/// Where `[a, b)` ends once trailing whitespace is left off.
pub open spec fn drop_white(s: Seq<char>, a: int, b: int) -> int
    decreases b - a,
{
    if a < b && white(s[b - 1]) {
        drop_white(s, a, b - 1)
    } else {
        b
    }
}

/// Where `[a, b)` starts once every leading `c` is left off.
pub open spec fn skip_char(s: Seq<char>, a: int, b: int, c: char) -> int
    decreases b - a,
{
    if a < b && s[a] == c {
        skip_char(s, a + 1, b, c)
    } else {
        a
    }
}

/// Where `[a, b)` ends once every trailing `c` is left off.
pub open spec fn drop_char(s: Seq<char>, a: int, b: int, c: char) -> int
    decreases b - a,
{
    if a < b && s[b - 1] == c {
        drop_char(s, a, b - 1, c)
    } else {
        b
    }
}

/// The first place in `[a, b)` that holds `c`, or `b` when none does.
pub open spec fn first_at(s: Seq<char>, a: int, b: int, c: char) -> int
    decreases b - a,
{
    if a >= b {
        b
    } else if s[a] == c {
        a
    } else {
        first_at(s, a + 1, b, c)
    }
}

/// The first place in `[a, b)` where `needle` begins and ends inside it, or `-1`.
pub open spec fn find(s: Seq<char>, a: int, b: int, needle: Seq<char>) -> int
    decreases b - a,
{
    if a < 0 || a + needle.len() > b || b > s.len() {
        -1
    } else if needle.len() == 0 || s.subrange(a, a + needle.len()) == needle {
        a
    } else {
        find(s, a + 1, b, needle)
    }
}

pub proof fn lemma_first_at(s: Seq<char>, a: int, b: int, c: char)
    requires
        a <= b,
    ensures
        a <= first_at(s, a, b, c) <= b,
    decreases b - a,
{
    if a < b && s[a] != c {
        lemma_first_at(s, a + 1, b, c);
    }
}

pub fn skip_white_from(v: &Vec<char>, a: usize, b: usize) -> (r: usize)
    requires
        a <= b <= v.len(),
    ensures
        r == skip_white(v@, a as int, b as int),
        a <= r <= b,
{
    let mut i = a;
    while i < b && is_white(v[i])
        invariant
            a <= i <= b <= v.len(),
            skip_white(v@, a as int, b as int) == skip_white(v@, i as int, b as int),
        decreases b - i,
    {
        i = i + 1;
    }
    i
}

pub fn drop_white_from(v: &Vec<char>, a: usize, b: usize) -> (r: usize)
    requires
        a <= b <= v.len(),
    ensures
        r == drop_white(v@, a as int, b as int),
        a <= r <= b,
{
    let mut j = b;
    while j > a && is_white(v[j - 1])
        invariant
            a <= j <= b <= v.len(),
            drop_white(v@, a as int, b as int) == drop_white(v@, a as int, j as int),
        decreases j - a,
    {
        j = j - 1;
    }
    j
}

/// `[a, b)` with whitespace left off both ends, which is what `str::trim` leaves.
pub fn trim(v: &Vec<char>, a: usize, b: usize) -> (r: (usize, usize))
    requires
        a <= b <= v.len(),
    ensures
        r.0 == skip_white(v@, a as int, b as int),
        r.1 == drop_white(v@, r.0 as int, b as int),
        a <= r.0 <= r.1 <= b,
{
    let start = skip_white_from(v, a, b);
    let end = drop_white_from(v, start, b);
    (start, end)
}

pub fn skip_char_from(v: &Vec<char>, a: usize, b: usize, c: char) -> (r: usize)
    requires
        a <= b <= v.len(),
    ensures
        r == skip_char(v@, a as int, b as int, c),
        a <= r <= b,
{
    let mut i = a;
    while i < b && v[i] == c
        invariant
            a <= i <= b <= v.len(),
            skip_char(v@, a as int, b as int, c) == skip_char(v@, i as int, b as int, c),
        decreases b - i,
    {
        i = i + 1;
    }
    i
}

pub fn drop_char_from(v: &Vec<char>, a: usize, b: usize, c: char) -> (r: usize)
    requires
        a <= b <= v.len(),
    ensures
        r == drop_char(v@, a as int, b as int, c),
        a <= r <= b,
{
    let mut j = b;
    while j > a && v[j - 1] == c
        invariant
            a <= j <= b <= v.len(),
            drop_char(v@, a as int, b as int, c) == drop_char(v@, a as int, j as int, c),
        decreases j - a,
    {
        j = j - 1;
    }
    j
}

pub fn first_from(v: &Vec<char>, a: usize, b: usize, c: char) -> (r: usize)
    requires
        a <= b <= v.len(),
    ensures
        r == first_at(v@, a as int, b as int, c),
        a <= r <= b,
{
    let mut i = a;
    while i < b && v[i] != c
        invariant
            a <= i <= b <= v.len(),
            first_at(v@, a as int, b as int, c) == first_at(v@, i as int, b as int, c),
        decreases b - i,
    {
        i = i + 1;
    }
    i
}

/// Whether `v[i..]` begins with `v[na..nb]`.
fn matches_at(v: &Vec<char>, i: usize, na: usize, nb: usize) -> (r: bool)
    requires
        na <= nb <= v.len(),
        i + (nb - na) <= v.len(),
    ensures
        r == (v@.subrange(i as int, i + (nb - na)) == v@.subrange(na as int, nb as int)),
{
    let n = nb - na;
    let ghost here = v@.subrange(i as int, i + n);
    let ghost there = v@.subrange(na as int, nb as int);
    let mut k: usize = 0;
    while k < n
        invariant
            k <= n == nb - na,
            i + n <= v.len(),
            nb <= v.len(),
            here == v@.subrange(i as int, i + n),
            there == v@.subrange(na as int, nb as int),
            forall|j: int| 0 <= j < k ==> here[j] == there[j],
        decreases n - k,
    {
        if v[i + k] != v[na + k] {
            assert(here[k as int] != there[k as int]);
            return false;
        }
        k = k + 1;
    }
    assert(v@.subrange(i as int, i + n) =~= v@.subrange(na as int, nb as int));
    true
}

/// Where `v[na..nb]` first turns up inside `[a, b)`.
pub fn find_from(v: &Vec<char>, a: usize, b: usize, na: usize, nb: usize) -> (r: Option<usize>)
    requires
        a <= b <= v.len(),
        na <= nb <= v.len(),
    ensures
        match r {
            Some(i) => i == find(v@, a as int, b as int, v@.subrange(na as int, nb as int)),
            None => find(v@, a as int, b as int, v@.subrange(na as int, nb as int)) == -1,
        },
        r matches Some(i) ==> a <= i && i + (nb - na) <= b,
{
    let ghost needle = v@.subrange(na as int, nb as int);
    let n = nb - na;
    if n > b - a {
        return None;
    }
    if n == 0 {
        return Some(a);
    }
    let mut i = a;
    while i <= b - n
        invariant
            a <= i <= b,
            n == nb - na,
            1 <= n <= b - a,
            b <= v.len(),
            na <= nb <= v.len(),
            needle == v@.subrange(na as int, nb as int),
            needle.len() == n,
            find(v@, a as int, b as int, needle) == find(v@, i as int, b as int, needle),
        decreases b - i,
    {
        if matches_at(v, i, na, nb) {
            return Some(i);
        }
        i = i + 1;
    }
    None
}

/// Whether `v[a..b]` holds exactly the characters of `word`.
pub fn holds(v: &Vec<char>, a: usize, b: usize, word: &str) -> (r: bool)
    requires
        a <= b <= v.len(),
    ensures
        r == (v@.subrange(a as int, b as int) == word@),
{
    let w = crate::text::chars_of(word);
    if w.len() != b - a {
        return false;
    }
    let ghost here = v@.subrange(a as int, b as int);
    let mut k: usize = 0;
    while k < w.len()
        invariant
            k <= w.len() == b - a,
            b <= v.len(),
            w@ == word@,
            here == v@.subrange(a as int, b as int),
            forall|j: int| 0 <= j < k ==> here[j] == w@[j],
        decreases w.len() - k,
    {
        if v[a + k] != w[k] {
            assert(v@.subrange(a as int, b as int)[k as int] != w@[k as int]);
            return false;
        }
        k = k + 1;
    }
    assert(v@.subrange(a as int, b as int) =~= w@);
    true
}

/// The characters `v[a..b]`, as a `String` of their own.
pub fn string_of(v: &Vec<char>, a: usize, b: usize) -> (s: String)
    requires
        a <= b <= v.len(),
    ensures
        s@ == v@.subrange(a as int, b as int),
{
    let mut s = String::new();
    let mut k = a;
    while k < b
        invariant
            a <= k <= b <= v.len(),
            s@ == v@.subrange(a as int, k as int),
        decreases b - k,
    {
        push_char(&mut s, v[k]);
        assert(v@.subrange(a as int, k + 1) =~= v@.subrange(a as int, k as int).push(v@[k as int]));
        k = k + 1;
    }
    s
}

} // verus!
