//! Exact substring search over the bytes of a string.
use vstd::prelude::*;

use vstd::string::StringSliceAdditionalSpecFns;

verus! {

/// `needle` occurs in `hay` starting at byte `i`.
pub open spec fn occurs_at(hay: Seq<u8>, needle: Seq<u8>, i: int) -> bool {
    0 <= i && i + needle.len() <= hay.len() && hay.subrange(i, i + needle.len()) == needle
}

/// The byte index of the first occurrence of `needle` in `haystack`, or `None`.
/// An empty needle occurs at 0.
pub fn find_substring(haystack: &str, needle: &str) -> (res: Option<usize>)
    ensures
        match res {
            Some(i) => occurs_at(haystack.spec_bytes(), needle.spec_bytes(), i as int) && forall|j: int|
                0 <= j < i ==> !#[trigger] occurs_at(haystack.spec_bytes(), needle.spec_bytes(), j),
            None => forall|j: int| !#[trigger] occurs_at(haystack.spec_bytes(), needle.spec_bytes(), j),
        },
{
    let h = haystack.as_bytes();
    let n = needle.as_bytes();
    if n.len() == 0 {
        assert(h@.subrange(0, 0) =~= n@);
        return Some(0);
    }
    if n.len() > h.len() {
        return None;
    }
    let last_start = h.len() - n.len();
    let mut i: usize = 0;
    while i <= last_start
        invariant
            h@ == haystack.spec_bytes(),
            n@ == needle.spec_bytes(),
            0 < n@.len() <= h@.len() <= usize::MAX,
            last_start == h@.len() - n@.len(),
            i <= last_start + 1,
            forall|j: int| 0 <= j < i ==> !#[trigger] occurs_at(h@, n@, j),
        decreases last_start + 1 - i,
    {
        let mut k: usize = 0;
        while k < n.len() && h[i + k] == n[k]
            invariant
                0 < n@.len() <= h@.len() <= usize::MAX,
                i <= last_start == h@.len() - n@.len(),
                k <= n@.len(),
                forall|m: int| 0 <= m < k ==> h@[i + m] == n@[m],
            decreases n@.len() - k,
        {
            k = k + 1;
        }
        if k == n.len() {
            assert(h@.subrange(i as int, i + n@.len()) =~= n@);
            return Some(i);
        }
        assert(h@.subrange(i as int, i + n@.len())[k as int] != n@[k as int]);
        i = i + 1;
    }
    assert forall|j: int| !#[trigger] occurs_at(h@, n@, j) by {
        if 0 <= j && j + n@.len() <= h@.len() {
            assert(j < i);
        }
    }
    None
}

} // verus!
