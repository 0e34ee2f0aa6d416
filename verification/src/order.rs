//! Lexicographic ordering of string lists.
//!
//! Lists are compared element-wise as strings, in order: the first index at
//! which the elements differ decides the result, and if one list is a strict
//! prefix of the other the shorter list is smaller. This is deliberately not
//! byte-wise comparison of the packed buffers.

use core::cmp::Ordering;
use vstd::prelude::*;
use vstd::string::StrSliceExecFns;
use vstd::utf8::char_u32_cast;

verus! {

/// Strict lexicographic order on strings, by Unicode scalar value of the
/// characters.
pub open spec fn chars_lt(a: Seq<char>, b: Seq<char>) -> bool
    decreases a.len() + b.len(),
{
    if b.len() == 0 {
        false
    } else if a.len() == 0 {
        true
    } else if a[0] == b[0] {
        chars_lt(a.drop_first(), b.drop_first())
    } else {
        (a[0] as u32) < (b[0] as u32)
    }
}

/// Strict lexicographic order on lists of strings, element-wise by
/// `chars_lt`.
pub open spec fn list_lt(a: Seq<Seq<char>>, b: Seq<Seq<char>>) -> bool
    decreases a.len() + b.len(),
{
    if b.len() == 0 {
        false
    } else if a.len() == 0 {
        true
    } else if a[0] == b[0] {
        list_lt(a.drop_first(), b.drop_first())
    } else {
        chars_lt(a[0], b[0])
    }
}

/// `i` is the first index at which the two lists' elements differ, and the
/// first list's element there is the lexicographically smaller string.
pub open spec fn first_diff_lt(a: Seq<Seq<char>>, b: Seq<Seq<char>>, i: int) -> bool {
    &&& 0 <= i < a.len()
    &&& i < b.len()
    &&& (forall|j: int| 0 <= j < i ==> a[j] == b[j])
    &&& a[i] != b[i]
    &&& chars_lt(a[i], b[i])
}

/// The first list is a strict prefix of the second.
pub open spec fn strict_prefix(a: Seq<Seq<char>>, b: Seq<Seq<char>>) -> bool {
    a.len() < b.len() && a == b.take(a.len() as int)
}

/// A string whose characters match another's up to its length, and which is
/// strictly shorter, is lexicographically smaller.
pub proof fn lemma_chars_lt_prefix(a: Seq<char>, b: Seq<char>)
    requires
        a.len() < b.len(),
        forall|j: int| 0 <= j < a.len() ==> a[j] == b[j],
    ensures
        chars_lt(a, b),
    decreases a.len(),
{
    if a.len() > 0 {
        lemma_chars_lt_prefix(a.drop_first(), b.drop_first());
    }
}

/// If the characters agree before `i` and differ at `i` with the first
/// string's scalar smaller, the first string is lexicographically smaller.
pub proof fn lemma_chars_lt_from_diff(a: Seq<char>, b: Seq<char>, i: int)
    requires
        0 <= i < a.len(),
        i < b.len(),
        forall|j: int| 0 <= j < i ==> a[j] == b[j],
        (a[i] as u32) < (b[i] as u32),
    ensures
        chars_lt(a, b),
    decreases i,
{
    if i == 0 {
    } else {
        lemma_chars_lt_from_diff(a.drop_first(), b.drop_first(), i - 1);
    }
}

/// Exactly one of `chars_lt(a, b)`, `a == b`, `chars_lt(b, a)` holds.
pub proof fn lemma_chars_trichotomy(a: Seq<char>, b: Seq<char>)
    ensures
        chars_lt(a, b) || a == b || chars_lt(b, a),
        chars_lt(a, b) ==> a != b && !chars_lt(b, a),
        a == b ==> !chars_lt(a, b) && !chars_lt(b, a),
    decreases a.len() + b.len(),
{
    if a.len() == 0 && b.len() == 0 {
        assert(a =~= b);
    } else if a.len() == 0 || b.len() == 0 {
    } else if a[0] == b[0] {
        lemma_chars_trichotomy(a.drop_first(), b.drop_first());
        if a.drop_first() == b.drop_first() {
            assert forall|j: int| 0 <= j < a.len() implies a[j] == b[j] by {
                if j > 0 {
                    assert(a[j] == a.drop_first()[j - 1]);
                    assert(b[j] == b.drop_first()[j - 1]);
                }
            }
            assert(a =~= b);
        }
        if a == b {
            assert(a.drop_first() =~= b.drop_first());
        }
    } else {
        char_u32_cast(a[0], a[0] as u32);
        char_u32_cast(b[0], b[0] as u32);
        assert((a[0] as u32) != (b[0] as u32));
    }
}

/// A list whose elements match another's up to its length, and which is
/// strictly shorter, is lexicographically smaller.
pub proof fn lemma_list_lt_prefix(a: Seq<Seq<char>>, b: Seq<Seq<char>>)
    requires
        a.len() < b.len(),
        forall|j: int| 0 <= j < a.len() ==> a[j] == b[j],
    ensures
        list_lt(a, b),
    decreases a.len(),
{
    if a.len() > 0 {
        lemma_list_lt_prefix(a.drop_first(), b.drop_first());
    }
}

/// If the elements agree before `i` and differ at `i` with the first list's
/// element lexicographically smaller, the first list is smaller.
pub proof fn lemma_list_lt_from_diff(a: Seq<Seq<char>>, b: Seq<Seq<char>>, i: int)
    requires
        first_diff_lt(a, b, i),
    ensures
        list_lt(a, b),
    decreases i,
{
    if i == 0 {
    } else {
        lemma_list_lt_from_diff(a.drop_first(), b.drop_first(), i - 1);
    }
}

/// Exactly one of `list_lt(a, b)`, `a == b`, `list_lt(b, a)` holds.
pub proof fn lemma_list_trichotomy(a: Seq<Seq<char>>, b: Seq<Seq<char>>)
    ensures
        list_lt(a, b) || a == b || list_lt(b, a),
        list_lt(a, b) ==> a != b && !list_lt(b, a),
        a == b ==> !list_lt(a, b) && !list_lt(b, a),
    decreases a.len() + b.len(),
{
    if a.len() == 0 && b.len() == 0 {
        assert(a =~= b);
    } else if a.len() == 0 || b.len() == 0 {
    } else if a[0] == b[0] {
        lemma_list_trichotomy(a.drop_first(), b.drop_first());
        if a.drop_first() == b.drop_first() {
            assert forall|j: int| 0 <= j < a.len() implies a[j] == b[j] by {
                if j > 0 {
                    assert(a[j] == a.drop_first()[j - 1]);
                    assert(b[j] == b.drop_first()[j - 1]);
                }
            }
            assert(a =~= b);
        }
        if a == b {
            assert(a.drop_first() =~= b.drop_first());
        }
    } else {
        lemma_chars_trichotomy(a[0], b[0]);
    }
}

/// Compares two strings lexicographically by the Unicode scalar values of
/// their characters.
pub fn str_compare(a: &str, b: &str) -> (r: Ordering)
    ensures
        (r == Ordering::Less <==> chars_lt(a@, b@)),
        (r == Ordering::Equal <==> a@ == b@),
        (r == Ordering::Greater <==> chars_lt(b@, a@)),
{
    let an = a.unicode_len();
    let bn = b.unicode_len();
    let mut i: usize = 0;
    while i < an && i < bn
        invariant
            i <= an,
            i <= bn,
            an == a@.len(),
            bn == b@.len(),
            forall|j: int| 0 <= j < i ==> a@[j] == b@[j],
        decreases an - i,
    {
        let ca = a.get_char(i);
        let cb = b.get_char(i);
        if (ca as u32) < (cb as u32) {
            proof {
                lemma_chars_lt_from_diff(a@, b@, i as int);
                lemma_chars_trichotomy(a@, b@);
            }
            return Ordering::Less;
        }
        if (cb as u32) < (ca as u32) {
            proof {
                lemma_chars_lt_from_diff(b@, a@, i as int);
                lemma_chars_trichotomy(a@, b@);
            }
            return Ordering::Greater;
        }
        proof {
            char_u32_cast(ca, ca as u32);
            char_u32_cast(cb, cb as u32);
            assert(ca == cb);
        }
        i = i + 1;
    }
    if an < bn {
        proof {
            lemma_chars_lt_prefix(a@, b@);
            lemma_chars_trichotomy(a@, b@);
        }
        Ordering::Less
    } else if bn < an {
        proof {
            lemma_chars_lt_prefix(b@, a@);
            lemma_chars_trichotomy(a@, b@);
        }
        Ordering::Greater
    } else {
        proof {
            assert(a@ =~= b@);
            lemma_chars_trichotomy(a@, b@);
        }
        Ordering::Equal
    }
}

/// The ordering law: one list is lexicographically less than another
/// exactly when the first index at which their elements differ has the
/// first list's element lexicographically less, or the first list is a
/// strict prefix of the second.
pub proof fn lemma_list_lt_characterization(a: Seq<Seq<char>>, b: Seq<Seq<char>>)
    ensures
        list_lt(a, b) <==> ((exists|i: int| first_diff_lt(a, b, i)) || strict_prefix(a, b)),
    decreases a.len() + b.len(),
{
    if exists|i: int| first_diff_lt(a, b, i) {
        lemma_list_lt_from_diff(a, b, choose|i: int| first_diff_lt(a, b, i));
    }
    if strict_prefix(a, b) {
        assert(forall|j: int| 0 <= j < a.len() ==> a[j] == b.take(a.len() as int)[j]);
        lemma_list_lt_prefix(a, b);
    }
    if b.len() == 0 {
    } else if a.len() == 0 {
        assert(a =~= b.take(a.len() as int));
        assert(strict_prefix(a, b));
    } else if a[0] == b[0] {
        let ad = a.drop_first();
        let bd = b.drop_first();
        lemma_list_lt_characterization(ad, bd);
        if list_lt(a, b) {
            if exists|i: int| first_diff_lt(ad, bd, i) {
                let i = choose|i: int| first_diff_lt(ad, bd, i);
                assert forall|j: int| 0 <= j < i + 1 implies a[j] == b[j] by {
                    if j > 0 {
                        assert(a[j] == ad[j - 1]);
                        assert(b[j] == bd[j - 1]);
                    }
                }
                assert(a[i + 1] == ad[i]);
                assert(b[i + 1] == bd[i]);
                assert(first_diff_lt(a, b, i + 1));
            } else {
                assert(strict_prefix(ad, bd));
                assert forall|j: int| 0 <= j < a.len() implies a[j] == b.take(
                    a.len() as int,
                )[j] by {
                    if j > 0 {
                        assert(a[j] == ad[j - 1]);
                        assert(ad[j - 1] == bd.take(ad.len() as int)[j - 1]);
                        assert(bd[j - 1] == b[j]);
                    }
                }
                assert(a =~= b.take(a.len() as int));
                assert(strict_prefix(a, b));
            }
        }
        if exists|i: int| first_diff_lt(a, b, i) {
            let i = choose|i: int| first_diff_lt(a, b, i);
            assert(i != 0);
            assert(first_diff_lt(ad, bd, i - 1));
        }
        if strict_prefix(a, b) {
            assert(ad =~= bd.take(ad.len() as int));
            assert(strict_prefix(ad, bd));
        }
    } else {
        lemma_chars_trichotomy(a[0], b[0]);
        if chars_lt(a[0], b[0]) {
            assert(first_diff_lt(a, b, 0));
        } else {
            assert(!list_lt(a, b));
            assert forall|i: int| !first_diff_lt(a, b, i) by {
                if 0 < i {
                    assert(!(a[0] == b[0]));
                }
            }
            if strict_prefix(a, b) {
                assert(a[0] == b.take(a.len() as int)[0]);
            }
        }
    }
}

} // verus!
