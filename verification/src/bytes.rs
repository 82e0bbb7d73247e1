use vstd::prelude::*;
use vstd::slice::slice_subrange;

verus! {

/// First index `p` with `i <= p < hi` and `buf[p] == b`, if any.
pub open spec fn find_in(buf: Seq<u8>, b: u8, i: int, hi: int) -> Option<int>
    decreases hi - i,
{
    if i >= hi {
        None
    } else if buf[i] == b {
        Some(i)
    } else {
        find_in(buf, b, i + 1, hi)
    }
}

/// What `find_in` returns is the first occurrence, and `None` means there is
/// none in the window.
pub proof fn lemma_find_in_props(buf: Seq<u8>, b: u8, i: int, hi: int)
    requires
        0 <= i <= hi <= buf.len(),
    ensures
        match find_in(buf, b, i, hi) {
            Some(p) => i <= p < hi && buf[p] == b && (forall|j: int| i <= j < p ==> buf[j] != b),
            None => forall|j: int| i <= j < hi ==> buf[j] != b,
        },
    decreases hi - i,
{
    if i < hi && buf[i] != b {
        lemma_find_in_props(buf, b, i + 1, hi);
    }
}

/// A first occurrence at `p` pins `find_in` down to `Some(p)`.
pub proof fn lemma_find_in_some(buf: Seq<u8>, b: u8, i: int, hi: int, p: int)
    requires
        0 <= i <= p < hi <= buf.len(),
        buf[p] == b,
        forall|j: int| i <= j < p ==> buf[j] != b,
    ensures
        find_in(buf, b, i, hi) == Some(p),
    decreases p - i,
{
    if i < p {
        lemma_find_in_some(buf, b, i + 1, hi, p);
    }
}

/// No occurrence in the window pins `find_in` down to `None`.
pub proof fn lemma_find_in_none(buf: Seq<u8>, b: u8, i: int, hi: int)
    requires
        0 <= i <= hi <= buf.len(),
        forall|j: int| i <= j < hi ==> buf[j] != b,
    ensures
        find_in(buf, b, i, hi) is None,
    decreases hi - i,
{
    if i < hi {
        lemma_find_in_none(buf, b, i + 1, hi);
    }
}

/// Narrowing the window keeps the same first occurrence as long as it still
/// falls inside, and loses it otherwise.
pub proof fn lemma_find_in_restrict(buf: Seq<u8>, b: u8, i: int, hi: int, hi2: int)
    requires
        0 <= i <= hi <= hi2 <= buf.len(),
    ensures
        find_in(buf, b, i, hi) == (match find_in(buf, b, i, hi2) {
            Some(p) => if p < hi {
                Some(p)
            } else {
                None
            },
            None => None,
        }),
{
    lemma_find_in_props(buf, b, i, hi2);
    match find_in(buf, b, i, hi2) {
        Some(p) => {
            if p < hi {
                lemma_find_in_some(buf, b, i, hi, p);
            } else {
                lemma_find_in_none(buf, b, i, hi);
            }
        },
        None => {
            lemma_find_in_none(buf, b, i, hi);
        },
    }
}

/// Relies on memchr::memchr: it returns the index of the first occurrence of
/// `needle` in `haystack`, or `None` if the byte does not occur; a returned
/// index is less than `haystack.len()`.
pub assume_specification[ memchr::memchr ](needle: u8, haystack: &[u8]) -> (r: Option<usize>)
    ensures
        (match r {
            Some(p) => p < haystack@.len() && haystack@[p as int] == needle && (forall|j: int|
                0 <= j < p ==> haystack@[j] != needle),
            None => forall|j: int| 0 <= j < haystack@.len() ==> haystack@[j] != needle,
        }),
;

/// Search `buf[from..to]` for the first occurrence of `b`, returning its
/// absolute index.
pub fn find_byte(buf: &[u8], b: u8, from: usize, to: usize) -> (r: Option<usize>)
    requires
        from <= to <= buf@.len(),
    ensures
        (match r {
            Some(p) => from <= p < to && find_in(buf@, b, from as int, to as int) == Some(p as int),
            None => find_in(buf@, b, from as int, to as int) is None,
        }),
{
    let sub = slice_subrange(buf, from, to);
    match memchr::memchr(b, sub) {
        Some(p) => {
            proof {
                assert(buf@[from + p] == b);
                assert(forall|j: int| from <= j < from + p ==> buf@[j] == sub@[j - from] && sub@[j
                    - from] != b);
                lemma_find_in_some(buf@, b, from as int, to as int, from + p);
            }
            Some(from + p)
        },
        None => {
            proof {
                assert(forall|j: int| from <= j < to ==> buf@[j] == sub@[j - from] && sub@[j - from]
                    != b);
                lemma_find_in_none(buf@, b, from as int, to as int);
            }
            None
        },
    }
}

} // verus!
