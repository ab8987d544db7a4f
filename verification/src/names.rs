//! What is written between marks, and names that are nearly right.
//!
//! A name in Quench is written between marks, `'like this'`, and so is a piece of text,
//! `*like this*`. What the reader wants is what is between them, with the mark's own
//! escape undone. And when a name matches nothing, one that is a single slip away from it
//! is worth offering.

use vstd::prelude::*;
use vstd::utf8::*;
use crate::text::{bytes_of, chars_of, push_char, same_str, sub_str};

verus! {

broadcast use vstd::utf8::group_utf8_lib, vstd::string::group_string_axioms;

/// What a backslash escape inside marks means: `\*`, `\\` and `\'` stand for the mark they
/// follow, and any other backslash is kept as it was written.
pub open spec fn unescaped(s: Seq<char>) -> Seq<char>
    decreases s.len(),
{
    if s.len() == 0 {
        Seq::empty()
    } else if s[0] == '\\' {
        if s.len() == 1 {
            seq!['\\']
        } else if s[1] == '*' || s[1] == '\\' || s[1] == '\'' {
            seq![s[1]] + unescaped(s.skip(2))
        } else {
            seq!['\\', s[1]] + unescaped(s.skip(2))
        }
    } else {
        seq![s[0]] + unescaped(s.skip(1))
    }
}

/// What is between a pair of marks, with the mark's own escape undone.
///
/// The first and the last character are the marks, and a mark is one byte; anything
/// shorter than two bytes holds nothing.
pub fn unmarked(written: &str) -> (out: String)
    requires
        bytes_of(written).len() >= 2 ==> {
            &&& is_char_boundary(bytes_of(written), 1)
            &&& is_char_boundary(bytes_of(written), bytes_of(written).len() - 1)
        },
    ensures
        bytes_of(written).len() < 2 ==> out@ == Seq::<char>::empty(),
        bytes_of(written).len() >= 2 ==> out@ == unescaped(
            decode_utf8(bytes_of(written).subrange(1, bytes_of(written).len() - 1)),
        ),
{
    let n = written.as_bytes().len();
    if n < 2 {
        return String::new();
    }
    let inside = sub_str(written, 1, n - 1);
    let chars = chars_of(inside);
    let ghost all = chars@;
    let mut out = String::new();
    let mut i: usize = 0;
    assert(all.skip(0) =~= all);
    while i < chars.len()
        invariant
            i <= chars@.len(),
            all == chars@,
            out@ + unescaped(all.skip(i as int)) == unescaped(all),
        decreases chars.len() - i,
    {
        let c = chars[i];
        let ghost rest = all.skip(i as int);
        if c == '\\' {
            if i + 1 < chars.len() {
                let next = chars[i + 1];
                assert(rest.skip(2) =~= all.skip(i + 2));
                if next == '*' || next == '\\' || next == '\'' {
                    push_char(&mut out, next);
                    assert(unescaped(rest) == seq![next] + unescaped(all.skip(i + 2)));
                    assert(out@ + unescaped(all.skip(i + 2)) =~= (out@.drop_last() + seq![next])
                        + unescaped(all.skip(i + 2)));
                } else {
                    push_char(&mut out, '\\');
                    push_char(&mut out, next);
                    assert(unescaped(rest) == seq!['\\', next] + unescaped(all.skip(i + 2)));
                    assert(out@ + unescaped(all.skip(i + 2)) =~= (out@.drop_last().drop_last()
                        + seq!['\\', next]) + unescaped(all.skip(i + 2)));
                }
                i = i + 2;
            } else {
                push_char(&mut out, '\\');
                assert(rest.len() == 1);
                assert(all.skip(i + 1) =~= Seq::<char>::empty());
                assert(out@ + unescaped(all.skip(i + 1)) =~= out@);
                i = i + 1;
            }
        } else {
            push_char(&mut out, c);
            assert(rest.skip(1) =~= all.skip(i + 1));
            assert(unescaped(rest) == seq![c] + unescaped(all.skip(i + 1)));
            assert(out@ + unescaped(all.skip(i + 1)) =~= (out@.drop_last() + seq![c]) + unescaped(
                all.skip(i + 1),
            ));
            i = i + 1;
        }
    }
    assert(all.skip(i as int) =~= Seq::<char>::empty());
    assert(out@ =~= out@ + unescaped(all.skip(i as int)));
    out
}

/// What a two-character escape written in text stands for, if it stands for anything.
pub open spec fn escape_of(written: Seq<char>) -> Option<Seq<char>> {
    if written == "\\n"@ {
        Some("\n"@)
    } else if written == "\\t"@ {
        Some("\t"@)
    } else if written == "\\r"@ {
        Some("\r"@)
    } else if written == "\\\\"@ {
        Some("\\"@)
    } else {
        None
    }
}

/// What an escape written in text stands for: a new line, a tab, a carriage return or a
/// backslash.
pub fn escape(written: &str) -> (r: Option<&'static str>)
    ensures
        match (r, escape_of(written@)) {
            (Some(a), Some(b)) => a@ == b,
            (None, None) => true,
            _ => false,
        },
{
    if same_str(written, "\\n") {
        Some("\n")
    } else if same_str(written, "\\t") {
        Some("\t")
    } else if same_str(written, "\\r") {
        Some("\r")
    } else if same_str(written, "\\\\") {
        Some("\\")
    } else {
        None
    }
}

/// `long` with one character taken out at `k` is `short`.
pub open spec fn drops_one_at(long: Seq<char>, short: Seq<char>, k: int) -> bool {
    &&& 0 <= k < long.len()
    &&& long.len() == short.len() + 1
    &&& long.take(k) == short.take(k)
    &&& long.skip(k + 1) == short.skip(k)
}

/// `a` with the character at `k` changed is `b`.
pub open spec fn changes_one_at(a: Seq<char>, b: Seq<char>, k: int) -> bool {
    &&& 0 <= k < a.len()
    &&& a.len() == b.len()
    &&& a.take(k) == b.take(k)
    &&& a.skip(k + 1) == b.skip(k + 1)
}

/// Whether two names differ by at most one insertion, deletion or substitution.
pub open spec fn one_edit_apart(a: Seq<char>, b: Seq<char>) -> bool {
    if a.len() == b.len() {
        a == b || exists|k: int| changes_one_at(a, b, k)
    } else if a.len() == b.len() + 1 {
        exists|k: int| drops_one_at(a, b, k)
    } else if b.len() == a.len() + 1 {
        exists|k: int| drops_one_at(b, a, k)
    } else {
        false
    }
}

fn one_edit_chars(long: &Vec<char>, short: &Vec<char>) -> (r: bool)
    requires
        long@.len() == short@.len() || long@.len() == short@.len() + 1,
    ensures
        long@.len() == short@.len() ==> r == (long@ == short@ || exists|k: int|
            changes_one_at(long@, short@, k)),
        long@.len() == short@.len() + 1 ==> r == exists|k: int| drops_one_at(long@, short@, k),
{
    let ghost a = long@;
    let ghost b = short@;
    let same_length = long.len() == short.len();
    let mut skipped = false;
    let ghost mut p: int = 0;
    let mut i: usize = 0;
    let mut j: usize = 0;
    while i < long.len() && j < short.len()
        invariant
            a == long@,
            b == short@,
            same_length == (a.len() == b.len()),
            a.len() == b.len() || a.len() == b.len() + 1,
            i <= a.len(),
            j <= b.len(),
            !skipped ==> i == j && a.take(i as int) == b.take(j as int),
            skipped ==> {
                &&& 0 <= p < i
                &&& p < b.len()
                &&& a.take(p) == b.take(p)
                &&& a[p] != b[p]
                &&& same_length ==> i == j && a.subrange(p + 1, i as int) == b.subrange(p + 1, j as int)
                &&& !same_length ==> i == j + 1 && a.subrange(p + 1, i as int) == b.subrange(p, j as int)
            },
        decreases a.len() - i,
    {
        if long[i] == short[j] {
            proof {
                if skipped {
                    if same_length {
                        assert(a.subrange(p + 1, i + 1) =~= a.subrange(p + 1, i as int).push(a[i as int]));
                        assert(b.subrange(p + 1, j + 1) =~= b.subrange(p + 1, j as int).push(b[j as int]));
                    } else {
                        assert(a.subrange(p + 1, i + 1) =~= a.subrange(p + 1, i as int).push(a[i as int]));
                        assert(b.subrange(p, j + 1) =~= b.subrange(p, j as int).push(b[j as int]));
                    }
                } else {
                    assert(a.take(i + 1) =~= a.take(i as int).push(a[i as int]));
                    assert(b.take(j + 1) =~= b.take(j as int).push(b[j as int]));
                }
            }
            i = i + 1;
            j = j + 1;
        } else if skipped {
            proof {
                if same_length {
                    assert forall|k: int| !changes_one_at(a, b, k) by {
                        if changes_one_at(a, b, k) {
                            if k < p {
                                assert(a.skip(k + 1)[p - k - 1] == b.skip(k + 1)[p - k - 1]);
                            } else if k > p {
                                assert(a.take(k)[p] == b.take(k)[p]);
                            } else {
                                assert(a.skip(k + 1)[i - k - 1] == b.skip(k + 1)[i - k - 1]);
                            }
                        }
                    }
                    assert(a[p] != b[p]);
                    assert(a.take(a.len() as int) =~= a);
                    assert(b.take(b.len() as int) =~= b);
                } else {
                    assert forall|k: int| !drops_one_at(a, b, k) by {
                        if drops_one_at(a, b, k) {
                            if k > p {
                                assert(a.take(k)[p] == b.take(k)[p]);
                            } else {
                                assert(a.skip(k + 1)[j - k] == b.skip(k)[j - k]);
                            }
                        }
                    }
                }
            }
            return false;
        } else {
            proof {
                p = i as int;
            }
            skipped = true;
            i = i + 1;
            if same_length {
                j = j + 1;
            }
            proof {
                assert(a.subrange(p + 1, i as int) =~= Seq::<char>::empty());
                if same_length {
                    assert(b.subrange(p + 1, j as int) =~= Seq::<char>::empty());
                } else {
                    assert(b.subrange(p, j as int) =~= Seq::<char>::empty());
                }
            }
        }
    }
    proof {
        if same_length {
            if skipped {
                assert(a.skip(p + 1) =~= a.subrange(p + 1, i as int));
                assert(b.skip(p + 1) =~= b.subrange(p + 1, j as int));
                assert(changes_one_at(a, b, p));
            } else {
                assert(a =~= a.take(i as int));
                assert(b =~= b.take(j as int));
            }
        } else {
            if skipped {
                assert(j == b.len());
                assert(a.skip(p + 1) =~= a.subrange(p + 1, i as int));
                assert(b.skip(p) =~= b.subrange(p, j as int));
                assert(drops_one_at(a, b, p));
            } else {
                let k = b.len() as int;
                assert(j == b.len());
                assert(a.take(k) =~= a.take(i as int));
                assert(b.take(k) =~= b);
                assert(a.skip(k + 1) =~= Seq::<char>::empty());
                assert(b.skip(k) =~= Seq::<char>::empty());
                assert(drops_one_at(a, b, k));
            }
        }
    }
    true
}

/// Whether two names differ by at most one insertion, deletion or substitution.
pub fn within_one_edit(a: &str, b: &str) -> (r: bool)
    ensures
        r == one_edit_apart(a@, b@),
{
    let a = chars_of(a);
    let b = chars_of(b);
    if (a.len() > b.len() && a.len() - b.len() > 1) || (b.len() > a.len() && b.len() - a.len()
        > 1) {
        return false;
    }
    if a.len() >= b.len() {
        one_edit_chars(&a, &b)
    } else {
        let r = one_edit_chars(&b, &a);
        proof {
            if a@.len() == b@.len() {
                assert(false);
            }
        }
        r
    }
}

/// Being one edit apart does not depend on which name is first.
pub proof fn law_one_edit_apart_is_symmetric(a: Seq<char>, b: Seq<char>)
    ensures
        one_edit_apart(a, b) == one_edit_apart(b, a),
{
    if a.len() == b.len() && a != b {
        if exists|k: int| changes_one_at(a, b, k) {
            let k = choose|k: int| changes_one_at(a, b, k);
            assert(changes_one_at(b, a, k));
        }
        if exists|k: int| changes_one_at(b, a, k) {
            let k = choose|k: int| changes_one_at(b, a, k);
            assert(changes_one_at(a, b, k));
        }
    }
}

/// A name is always within one edit of itself.
pub proof fn law_a_name_is_near_itself(a: Seq<char>)
    ensures
        one_edit_apart(a, a),
{
}

} // verus!
