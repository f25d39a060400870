//! Plain substring search, the matching rule of the store's text search.

use vstd::prelude::*;

verus! {

/// `needle` occurs as a contiguous run of characters inside `hay`.
pub open spec fn contains_seq(hay: Seq<char>, needle: Seq<char>) -> bool {
    exists|k: int|
        0 <= k && k + needle.len() <= hay.len() && #[trigger] hay.subrange(
            k,
            k + needle.len() as int,
        ) == needle
}

/// True exactly when `needle` occurs inside `hay`.
pub fn contains_substring(hay: &str, needle: &str) -> (r: bool)
    ensures
        r == contains_seq(hay@, needle@),
{
    let hn = hay.unicode_len();
    let nn = needle.unicode_len();
    if nn == 0 {
        proof {
            assert(hay@.subrange(0, 0 + needle@.len() as int) =~= needle@);
        }
        return true;
    }
    if nn > hn {
        proof {
            assert forall|k: int|
                0 <= k && k + needle@.len() <= hay@.len() implies #[trigger] hay@.subrange(
                k,
                k + needle@.len() as int,
            ) != needle@ by {}
        }
        return false;
    }
    let mut k: usize = 0;
    while k <= hn - nn
        invariant
            hn == hay@.len(),
            nn == needle@.len(),
            1 <= nn <= hn,
            k <= hn - nn + 1,
            forall|k2: int|
                0 <= k2 < k ==> #[trigger] hay@.subrange(k2, k2 + needle@.len() as int) != needle@,
        decreases hn - k,
    {
        let mut m: usize = 0;
        let mut ok = true;
        while m < nn
            invariant
                hn == hay@.len(),
                nn == needle@.len(),
                nn <= hn,
                k <= hn - nn,
                m <= nn,
                ok ==> forall|t: int| 0 <= t < m ==> hay@[k + t] == needle@[t],
                !ok ==> hay@.subrange(k as int, k as int + needle@.len() as int) != needle@,
            decreases nn - m,
        {
            if hay.get_char(k + m) != needle.get_char(m) {
                proof {
                    let sub = hay@.subrange(k as int, k as int + needle@.len() as int);
                    assert(sub[m as int] == hay@[k + m]);
                }
                ok = false;
                m = nn;
            } else {
                m += 1;
            }
        }
        if ok {
            proof {
                assert(hay@.subrange(k as int, k as int + needle@.len() as int) =~= needle@);
            }
            return true;
        }
        k += 1;
    }
    proof {
        assert forall|k2: int|
            0 <= k2 && k2 + needle@.len() <= hay@.len() implies #[trigger] hay@.subrange(
            k2,
            k2 + needle@.len() as int,
        ) != needle@ by {
            assert(k2 < k);
        }
    }
    false
}

} // verus!
