//! Extraction of the qualifying document link out of a piece of text.
//!
//! A qualifying link starts with the scheme `http://` or `https://` and runs
//! through a trailing `.pdf` suffix.  The extracted match starts at the first
//! scheme occurrence that has a `.pdf` suffix after it and extends through the
//! last such suffix: the trailing match over the text.

use vstd::prelude::*;

verus! {

/// Error of the classification step: either the extraction found no
/// qualifying link in one text, or the whole hit qualified in no way.
#[derive(Debug, Clone, Copy, PartialEq, Eq, Structural)]
pub enum ClassifyError {
    NoMatch,
    NotQualifying,
}

/// `http://` or `https://` starts at position `i` of `s`.
pub open spec fn scheme_at(s: Seq<char>, i: int) -> bool {
    &&& 0 <= i
    &&& i + 7 <= s.len()
    &&& s[i] == 'h'
    &&& s[i + 1] == 't'
    &&& s[i + 2] == 't'
    &&& s[i + 3] == 'p'
    &&& {
        ||| (s[i + 4] == ':' && s[i + 5] == '/' && s[i + 6] == '/')
        ||| (i + 8 <= s.len() && s[i + 4] == 's' && s[i + 5] == ':' && s[i + 6] == '/' && s[i
            + 7] == '/')
    }
}

/// Position just after the scheme that starts at `i` (meaningful only when
/// `scheme_at(s, i)` holds).
pub open spec fn scheme_end(s: Seq<char>, i: int) -> int {
    if i + 8 <= s.len() && s[i + 4] == 's' {
        i + 8
    } else {
        i + 7
    }
}

/// `.pdf` ends exactly at position `e` (exclusive) of `s`.
pub open spec fn pdf_end_at(s: Seq<char>, e: int) -> bool {
    &&& 4 <= e <= s.len()
    &&& s[e - 4] == '.'
    &&& s[e - 3] == 'p'
    &&& s[e - 2] == 'd'
    &&& s[e - 1] == 'f'
}

/// A scheme starts at `i` and some `.pdf` suffix ends at or after the end of
/// the scheme plus four characters, so a qualifying link starts at `i`.
pub open spec fn qual_at(s: Seq<char>, i: int) -> bool {
    &&& scheme_at(s, i)
    &&& exists|e: int| scheme_end(s, i) + 4 <= e && #[trigger] pdf_end_at(s, e)
}

/// The text holds a qualifying link somewhere.
pub open spec fn has_qual(s: Seq<char>) -> bool {
    exists|i: int| #[trigger] qual_at(s, i)
}

/// `l` is the extracted link of `s`: from the first qualifying scheme
/// occurrence through the last `.pdf` suffix after it.
pub open spec fn is_extraction(s: Seq<char>, l: Seq<char>) -> bool {
    exists|i: int, e: int|
        {
            &&& #[trigger] qual_at(s, i)
            &&& (forall|j: int| 0 <= j < i ==> !qual_at(s, j))
            &&& #[trigger] pdf_end_at(s, e)
            &&& scheme_end(s, i) + 4 <= e
            &&& (forall|e2: int| e < e2 ==> !(pdf_end_at(s, e2) && scheme_end(s, i) + 4 <= e2))
            &&& l == s.subrange(i, e)
        }
}

/// The extraction is a function of the text: any two extracted links of the
/// same text are equal.
pub proof fn lemma_extraction_unique(s: Seq<char>, l1: Seq<char>, l2: Seq<char>)
    requires
        is_extraction(s, l1),
        is_extraction(s, l2),
    ensures
        l1 == l2,
{
    let (i1, e1): (int, int) = choose|i: int, e: int|
        {
            &&& #[trigger] qual_at(s, i)
            &&& (forall|j: int| 0 <= j < i ==> !qual_at(s, j))
            &&& #[trigger] pdf_end_at(s, e)
            &&& scheme_end(s, i) + 4 <= e
            &&& (forall|e2: int| e < e2 ==> !(pdf_end_at(s, e2) && scheme_end(s, i) + 4 <= e2))
            &&& l1 == s.subrange(i, e)
        };
    let (i2, e2): (int, int) = choose|i: int, e: int|
        {
            &&& #[trigger] qual_at(s, i)
            &&& (forall|j: int| 0 <= j < i ==> !qual_at(s, j))
            &&& #[trigger] pdf_end_at(s, e)
            &&& scheme_end(s, i) + 4 <= e
            &&& (forall|e2: int| e < e2 ==> !(pdf_end_at(s, e2) && scheme_end(s, i) + 4 <= e2))
            &&& l2 == s.subrange(i, e)
        };
    assert(qual_at(s, i1) && qual_at(s, i2));
    if i1 < i2 {
        assert(!qual_at(s, i1));
        assert(false);
    }
    if i2 < i1 {
        assert(!qual_at(s, i2));
        assert(false);
    }
    assert(i1 == i2);
    if e1 < e2 {
        assert(!(pdf_end_at(s, e2) && scheme_end(s, i1) + 4 <= e2));
        assert(false);
    }
    if e2 < e1 {
        assert(!(pdf_end_at(s, e1) && scheme_end(s, i2) + 4 <= e1));
        assert(false);
    }
    assert(e1 == e2);
}

/// A text that starts with a scheme and ends with the `.pdf` suffix extracts
/// to itself in full.
pub proof fn lemma_full_extraction(u: Seq<char>)
    requires
        scheme_at(u, 0),
        pdf_end_at(u, u.len() as int),
        scheme_end(u, 0) + 4 <= u.len(),
    ensures
        has_qual(u),
        forall|l: Seq<char>| is_extraction(u, l) ==> l == u,
{
    assert(qual_at(u, 0));
    assert(has_qual(u));
    assert forall|l: Seq<char>| is_extraction(u, l) implies l == u by {
        assert(is_extraction(u, u.subrange(0, u.len() as int))) by {
            assert(forall|j: int| 0 <= j < 0 ==> !qual_at(u, j));
            assert(forall|e2: int|
                u.len() < e2 ==> !(pdf_end_at(u, e2) && scheme_end(u, 0) + 4 <= e2));
        }
        assert(u.subrange(0, u.len() as int) == u);
        lemma_extraction_unique(u, l, u.subrange(0, u.len() as int));
    }
}

/// True exactly when a scheme starts at character `i` of `s`.
fn scheme_check(s: &str, i: usize, n: usize) -> (r: bool)
    requires
        n == s@.len(),
        i <= n,
    ensures
        r == scheme_at(s@, i as int),
{
    if n - i < 7 {
        return false;
    }
    s.get_char(i) == 'h' && s.get_char(i + 1) == 't' && s.get_char(i + 2) == 't' && s.get_char(
        i + 3,
    ) == 'p' && ((s.get_char(i + 4) == ':' && s.get_char(i + 5) == '/' && s.get_char(i + 6) == '/')
        || (n - i >= 8 && s.get_char(i + 4) == 's' && s.get_char(i + 5) == ':' && s.get_char(i + 6)
            == '/' && s.get_char(i + 7) == '/'))
}

/// Position just after the scheme that starts at `i`.
fn scheme_end_exec(s: &str, i: usize, n: usize) -> (r: usize)
    requires
        n == s@.len(),
        scheme_at(s@, i as int),
    ensures
        r == scheme_end(s@, i as int),
        r <= n,
{
    if n - i >= 8 && s.get_char(i + 4) == 's' {
        i + 8
    } else {
        i + 7
    }
}

/// Looks for the last `.pdf` suffix that starts at or after `lo`; returns the
/// start of that suffix.
fn find_pdf_last_start(s: &str, n: usize, lo: usize) -> (r: Option<usize>)
    requires
        n == s@.len(),
        lo <= n,
    ensures
        match r {
            Some(j) => {
                &&& lo <= j
                &&& j + 4 <= n
                &&& pdf_end_at(s@, j as int + 4)
                &&& forall|j2: int|
                    j < j2 ==> !(lo <= j2 && #[trigger] pdf_end_at(s@, j2 + 4))
            },
            None => forall|j2: int| !(lo <= j2 && #[trigger] pdf_end_at(s@, j2 + 4)),
        },
{
    if n < 4 {
        assert forall|j2: int| !(lo <= j2 && #[trigger] pdf_end_at(s@, j2 + 4)) by {}
        return None;
    }
    let mut best: Option<usize> = None;
    let mut j: usize = lo;
    while j <= n - 4
        invariant
            n == s@.len(),
            4 <= n,
            lo <= j <= n,
            match best {
                Some(b) => {
                    &&& lo <= b
                    &&& b + 4 <= n
                    &&& pdf_end_at(s@, b as int + 4)
                    &&& forall|j2: int|
                        b < j2 < j ==> !(lo <= j2 && #[trigger] pdf_end_at(s@, j2 + 4))
                },
                None => forall|j2: int| j2 < j ==> !(lo <= j2 && #[trigger] pdf_end_at(s@, j2 + 4)),
            },
        decreases n - j,
    {
        if s.get_char(j) == '.' && s.get_char(j + 1) == 'p' && s.get_char(j + 2) == 'd'
            && s.get_char(j + 3) == 'f' {
            best = Some(j);
        }
        j += 1;
    }
    proof {
        assert forall|j2: int| j <= j2 implies !(#[trigger] pdf_end_at(s@, j2 + 4)) by {
            assert(j2 + 4 > n - 4 + 4);
        }
    }
    best
}

/// Extracts the qualifying document link from `s`: the trailing match from
/// the first scheme occurrence that a `.pdf` suffix follows, through the last
/// such suffix.  Fails with `NoMatch` when no substring qualifies.
pub fn extract_url(s: &str) -> (r: Result<String, ClassifyError>)
    ensures
        match r {
            Ok(l) => has_qual(s@) && is_extraction(s@, l@),
            Err(e) => e == ClassifyError::NoMatch && !has_qual(s@),
        },
{
    let n = s.unicode_len();
    let mut i: usize = 0;
    while i < n
        invariant
            n == s@.len(),
            i <= n,
            forall|j: int| 0 <= j < i ==> !qual_at(s@, j),
        decreases n - i,
    {
        if scheme_check(s, i, n) {
            let se = scheme_end_exec(s, i, n);
            match find_pdf_last_start(s, n, se) {
                Some(jl) => {
                    proof {
                        assert(pdf_end_at(s@, jl as int + 4));
                        assert(qual_at(s@, i as int));
                        assert forall|e2: int|
                            jl as int + 4 < e2 implies !(pdf_end_at(s@, e2) && scheme_end(
                            s@,
                            i as int,
                        ) + 4 <= e2) by {
                            if pdf_end_at(s@, e2) && scheme_end(s@, i as int) + 4 <= e2 {
                                assert(se <= e2 - 4 && pdf_end_at(s@, (e2 - 4) + 4));
                            }
                        }
                    }
                    let sub = s.substring_char(i, jl + 4);
                    let out = sub.to_owned();
                    proof {
                        assert(out@ == s@.subrange(i as int, jl as int + 4));
                        assert(is_extraction(s@, out@));
                    }
                    return Ok(out);
                },
                None => {
                    proof {
                        assert forall|e: int|
                            scheme_end(s@, i as int) + 4 <= e implies !pdf_end_at(s@, e) by {
                            if pdf_end_at(s@, e) {
                                assert(se <= e - 4 && pdf_end_at(s@, (e - 4) + 4));
                            }
                        }
                        assert(!qual_at(s@, i as int));
                    }
                },
            }
        }
        i += 1;
    }
    proof {
        assert forall|j: int| !qual_at(s@, j) by {
            if qual_at(s@, j) {
                assert(scheme_at(s@, j));
                assert(0 <= j < n);
            }
        }
    }
    Err(ClassifyError::NoMatch)
}

} // verus!
