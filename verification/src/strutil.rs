//! String scanning and substitution over character vectors: substring
//! search, first-occurrence replacement, and the two conversions between
//! `String` and `Vec<char>`.

use vstd::prelude::*;

verus! {

/// Whether `pat` occurs in `s` at position `i`.
pub open spec fn is_match_at(s: Seq<char>, pat: Seq<char>, i: int) -> bool {
    0 <= i && i + pat.len() <= s.len() && s.subrange(i, i + pat.len() as int) == pat
}

/// Whether `pat` occurs anywhere in `s`.
pub open spec fn contains_sub(s: Seq<char>, pat: Seq<char>) -> bool {
    exists|i: int| is_match_at(s, pat, i)
}

/// Relies on str::chars: the characters of the string, in order.
#[verifier::external_body]
pub fn to_chars(s: &str) -> (r: Vec<char>)
    ensures
        r@ == s@,
{
    s.chars().collect()
}

/// Relies on the FromIterator impl of String: collecting chars in order.
#[verifier::external_body]
pub fn chars_to_string(v: &Vec<char>) -> (r: String)
    ensures
        r@ == v@,
{
    v.iter().collect()
}

/// Whether `pat` matches `hay` at position `i` (executable form).
pub fn match_at(hay: &Vec<char>, pat: &Vec<char>, i: usize) -> (r: bool)
    requires
        i + pat@.len() <= hay@.len(),
    ensures
        r == is_match_at(hay@, pat@, i as int),
{
    let m = pat.len();
    let hn = hay.len();
    let mut k: usize = 0;
    while k < m
        invariant
            m == pat@.len(),
            hn == hay@.len(),
            i + m <= hn,
            k <= m,
            forall|j: int| 0 <= j < k ==> hay@[i + j] == pat@[j],
        decreases m - k,
    {
        if hay[i + k] != pat[k] {
            proof {
                assert(hay@.subrange(i as int, i + m as int)[k as int] != pat@[k as int]);
            }
            return false;
        }
        k = k + 1;
    }
    proof {
        assert(hay@.subrange(i as int, i + m as int) =~= pat@);
    }
    true
}

/// The position of the first occurrence of `pat` in `hay`, if any. An empty
/// pattern matches at position zero.
pub fn find_sub(hay: &Vec<char>, pat: &Vec<char>) -> (r: Option<usize>)
    ensures
        match r {
            Some(i) => is_match_at(hay@, pat@, i as int)
                && forall|j: int| 0 <= j < i ==> !is_match_at(hay@, pat@, j),
            None => !contains_sub(hay@, pat@),
        },
{
    let n = hay.len();
    let m = pat.len();
    if m > n {
        proof {
            assert forall|i: int| !is_match_at(hay@, pat@, i) by {}
        }
        return None;
    }
    if m == 0 {
        proof {
            assert(hay@.subrange(0, 0) =~= pat@);
        }
        return Some(0);
    }
    let last = n - m;
    let mut i: usize = 0;
    while i <= last
        invariant
            n == hay@.len(),
            m == pat@.len(),
            0 < m <= n,
            last == n - m,
            i <= last + 1,
            forall|j: int| 0 <= j < i ==> !is_match_at(hay@, pat@, j),
        decreases last + 1 - i,
    {
        if match_at(hay, pat, i) {
            return Some(i);
        }
        i = i + 1;
    }
    proof {
        assert forall|j: int| !is_match_at(hay@, pat@, j) by {
            if 0 <= j <= n - m {
                assert(!is_match_at(hay@, pat@, j));
            }
        }
    }
    None
}

/// Whether `pat` occurs anywhere in `hay`.
pub fn has_sub(hay: &Vec<char>, pat: &Vec<char>) -> (r: bool)
    ensures
        r == contains_sub(hay@, pat@),
{
    match find_sub(hay, pat) {
        Some(_) => true,
        None => false,
    }
}

/// The position of the first occurrence of `pat` in `s` (meaningful only
/// when `pat` occurs).
pub open spec fn spec_first_match(s: Seq<char>, pat: Seq<char>) -> int {
    choose|i: int| is_match_at(s, pat, i) && forall|j: int| 0 <= j < i
        ==> !is_match_at(s, pat, j)
}

/// `s` with the first occurrence of `pat` replaced by `rep`; `s` itself if
/// `pat` does not occur.
pub open spec fn spec_replace_first(s: Seq<char>, pat: Seq<char>, rep: Seq<char>)
    -> Seq<char> {
    if contains_sub(s, pat) {
        spec_replace_at(s, pat, rep, spec_first_match(s, pat))
    } else {
        s
    }
}

/// `s` with the first occurrence of `pat` (at position `i`) replaced by
/// `rep`.
pub open spec fn spec_replace_at(s: Seq<char>, pat: Seq<char>, rep: Seq<char>, i: int)
    -> Seq<char> {
    s.subrange(0, i) + rep + s.subrange(i + pat.len() as int, s.len() as int)
}

/// Replace the first occurrence of `pat` in `s` by `rep`; if `pat` does not
/// occur, the string is returned unchanged.
pub fn replace_first(s: &Vec<char>, pat: &Vec<char>, rep: &Vec<char>) -> (r: Vec<char>)
    ensures
        r@ == spec_replace_first(s@, pat@, rep@),
{
    match find_sub(s, pat) {
        None => {
            let mut out: Vec<char> = Vec::new();
            let n = s.len();
            let mut k: usize = 0;
            while k < n
                invariant
                    n == s@.len(),
                    k <= n,
                    out@ == s@.take(k as int),
                decreases n - k,
            {
                out.push(s[k]);
                proof {
                    assert(s@.take(k + 1 as int) =~= s@.take(k as int).push(s@[k as int]));
                }
                k = k + 1;
            }
            proof {
                assert(s@.take(n as int) =~= s@);
            }
            out
        }
        Some(i) => {
            let mut out: Vec<char> = Vec::new();
            let mut k: usize = 0;
            while k < i
                invariant
                    i <= s@.len(),
                    k <= i,
                    out@ == s@.take(k as int),
                decreases i - k,
            {
                out.push(s[k]);
                proof {
                    assert(s@.take(k + 1 as int) =~= s@.take(k as int).push(s@[k as int]));
                }
                k = k + 1;
            }
            let m = rep.len();
            let mut k2: usize = 0;
            while k2 < m
                invariant
                    m == rep@.len(),
                    k2 <= m,
                    i <= s@.len(),
                    out@ == s@.take(i as int) + rep@.take(k2 as int),
                decreases m - k2,
            {
                out.push(rep[k2]);
                proof {
                    assert(rep@.take(k2 + 1 as int)
                        =~= rep@.take(k2 as int).push(rep@[k2 as int]));
                    assert(s@.take(i as int) + rep@.take(k2 + 1 as int)
                        =~= (s@.take(i as int) + rep@.take(k2 as int)).push(
                            rep@[k2 as int]));
                }
                k2 = k2 + 1;
            }
            let n = s.len();
            let mut k3: usize = i + pat.len();
            let ghost tail_start = (i + pat@.len()) as int;
            while k3 < n
                invariant
                    n == s@.len(),
                    tail_start == i + pat@.len(),
                    i + pat@.len() <= k3 <= n,
                    i <= s@.len(),
                    out@ == s@.take(i as int) + rep@
                        + s@.subrange(tail_start, k3 as int),
                decreases n - k3,
            {
                out.push(s[k3]);
                proof {
                    assert(s@.subrange(tail_start, k3 + 1 as int)
                        =~= s@.subrange(tail_start, k3 as int).push(s@[k3 as int]));
                    assert(s@.take(i as int) + rep@ + s@.subrange(tail_start, k3 + 1 as int)
                        =~= (s@.take(i as int) + rep@
                            + s@.subrange(tail_start, k3 as int)).push(s@[k3 as int]));
                }
                k3 = k3 + 1;
            }
            proof {
                assert(rep@.take(m as int) =~= rep@);
                assert(s@.take(i as int) + rep@
                    =~= s@.take(i as int) + rep@.take(m as int));
                assert(out@ == spec_replace_at(s@, pat@, rep@, i as int)) by {
                    assert(s@.take(i as int) =~= s@.subrange(0, i as int));
                    assert(out@ =~= s@.subrange(0, i as int) + rep@
                        + s@.subrange(i + pat@.len() as int, s@.len() as int));
                }
                // the found index is the first match, so it is the one the
                // spec names
                let i0 = spec_first_match(s@, pat@);
                assert(is_match_at(s@, pat@, i0) && forall|j: int| 0 <= j < i0
                    ==> !is_match_at(s@, pat@, j)) by {
                    assert(is_match_at(s@, pat@, i as int) && forall|j: int| 0 <= j < i
                        ==> !is_match_at(s@, pat@, j));
                }
                assert(i0 == i as int) by {
                    if i0 < i as int {
                        assert(!is_match_at(s@, pat@, i0));
                    } else if i0 > i as int {
                        assert(!is_match_at(s@, pat@, i as int));
                    }
                }
            }
            out
        }
    }
}

/// Append every character of `src` to `out`.
pub fn push_chars(out: &mut Vec<char>, src: &Vec<char>)
    ensures
        final(out)@ == old(out)@ + src@,
{
    let n = src.len();
    let mut k: usize = 0;
    while k < n
        invariant
            n == src@.len(),
            k <= n,
            out@ == old(out)@ + src@.take(k as int),
        decreases n - k,
    {
        out.push(src[k]);
        proof {
            assert(src@.take(k + 1 as int) =~= src@.take(k as int).push(src@[k as int]));
            assert(old(out)@ + src@.take(k + 1 as int)
                =~= (old(out)@ + src@.take(k as int)).push(src@[k as int]));
        }
        k = k + 1;
    }
    proof {
        assert(src@.take(n as int) =~= src@);
    }
}

/// Append every character of the string `src` to `out`.
pub fn push_str_chars(out: &mut Vec<char>, src: &str)
    ensures
        final(out)@ == old(out)@ + src@,
{
    let cs = to_chars(src);
    push_chars(out, &cs);
}

} // verus!
