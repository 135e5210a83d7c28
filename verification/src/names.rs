//! Lexicographic order on names.
//!
//! Branch names are compared by their sequence of characters, code point by
//! code point; this is the order used to pick deterministic representatives
//! (the root branch of a graph, the first branch of a commit).

use vstd::prelude::*;
use vstd::string::StrSliceExecFns;

verus! {

/// Strict lexicographic order on character sequences, by code point.
pub open spec fn chars_lt(a: Seq<char>, b: Seq<char>) -> bool
    decreases a.len(),
{
    if b.len() == 0 {
        false
    } else if a.len() == 0 {
        true
    } else if (a[0] as u32) < (b[0] as u32) {
        true
    } else if (a[0] as u32) > (b[0] as u32) {
        false
    } else {
        chars_lt(a.drop_first(), b.drop_first())
    }
}

/// Strict lexicographic order test on strings.
pub fn str_lt(a: &str, b: &str) -> (r: bool)
    ensures
        r == chars_lt(a@, b@),
{
    let an = a.unicode_len();
    let bn = b.unicode_len();
    assert(a@.subrange(0, an as int) =~= a@);
    assert(b@.subrange(0, bn as int) =~= b@);
    let mut i: usize = 0;
    loop
        invariant
            i <= an,
            i <= bn,
            an == a@.len(),
            bn == b@.len(),
            chars_lt(a@, b@) == chars_lt(
                a@.subrange(i as int, an as int),
                b@.subrange(i as int, bn as int),
            ),
        decreases an - i,
    {
        let ghost at = a@.subrange(i as int, an as int);
        let ghost bt = b@.subrange(i as int, bn as int);
        if i >= bn {
            assert(bt.len() == 0);
            return false;
        }
        if i >= an {
            assert(at.len() == 0 && bt.len() > 0);
            return true;
        }
        let ca = a.get_char(i);
        let cb = b.get_char(i);
        assert(at[0] == a@[i as int] && bt[0] == b@[i as int]);
        if (ca as u32) < (cb as u32) {
            return true;
        }
        if (ca as u32) > (cb as u32) {
            return false;
        }
        assert(at.drop_first() =~= a@.subrange(i + 1, an as int));
        assert(bt.drop_first() =~= b@.subrange(i + 1, bn as int));
        i = i + 1;
    }
}

/// Equality test on strings through their views.
pub fn str_eq(a: &String, b: &String) -> (r: bool)
    ensures
        r == (a@ == b@),
{
    *a == *b
}

} // verus!
