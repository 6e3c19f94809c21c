//! Verified helpers on byte strings: comparison, copying, prefix
//! stripping, and membership tests on comma-separated value lists.
//!
//! Textual data (names, domains, auxiliary text records) is carried
//! through the discovery core as raw bytes; conversion to displayable
//! strings is left to the unverified edge of the program.

use vstd::prelude::*;

verus! {

/// ASCII comma, the separator of elements inside an auxiliary text
/// value such as `tp=TCP,UDP`.
pub const COMMA: u8 = 44;

/// The mathematical view of a list of byte strings.
pub open spec fn deep(s: Seq<Vec<u8>>) -> Seq<Seq<u8>> {
    s.map_values(|v: Vec<u8>| v@)
}

/// True when `p` is a prefix of `s`.
pub open spec fn has_prefix(s: Seq<u8>, p: Seq<u8>) -> bool {
    p.len() <= s.len() && s.subrange(0, p.len() as int) == p
}

/// True when the bytes of `v` cover `s[i..i + v.len()]` and that range
/// is a whole comma-delimited element of `s`: it contains no comma and
/// ends at a comma or at the end of `s`.
pub open spec fn segment_matches(s: Seq<u8>, v: Seq<u8>, i: int) -> bool {
    &&& 0 <= i
    &&& i + v.len() <= s.len()
    &&& s.subrange(i, i + v.len() as int) == v
    &&& (i + v.len() == s.len() || s[i + v.len() as int] == COMMA)
    &&& (forall|k: int| i <= k < i + v.len() ==> s[k] != COMMA)
}

/// True when `v` is one of the elements of `s` split on commas.
pub open spec fn is_csv_element(s: Seq<u8>, v: Seq<u8>) -> bool {
    exists|i: int| (i == 0 || s[i - 1] == COMMA) && #[trigger] segment_matches(s, v, i)
}

/// Byte-wise equality of two byte strings.
pub fn eq_bytes(a: &[u8], b: &[u8]) -> (r: bool)
    ensures
        r == (a@ == b@),
{
    if a.len() != b.len() {
        return false;
    }
    let mut i: usize = 0;
    while i < a.len()
        invariant
            i <= a@.len(),
            a@.len() == b@.len(),
            forall|k: int| 0 <= k < i ==> a@[k] == b@[k],
        decreases a@.len() - i,
    {
        if a[i] != b[i] {
            return false;
        }
        i = i + 1;
    }
    proof {
        assert(a@ =~= b@);
    }
    true
}

/// Copies a byte string into a fresh vector.
pub fn copy_bytes(v: &[u8]) -> (r: Vec<u8>)
    ensures
        r@ == v@,
{
    let mut r: Vec<u8> = Vec::new();
    let mut i: usize = 0;
    while i < v.len()
        invariant
            i <= v@.len(),
            r@.len() == i,
            forall|k: int| 0 <= k < i ==> r@[k] == v@[k],
        decreases v@.len() - i,
    {
        r.push(v[i]);
        i = i + 1;
    }
    proof {
        assert(r@ =~= v@);
    }
    r
}

/// Copies a list of byte strings into a fresh vector.
pub fn copy_byte_lists(v: &Vec<Vec<u8>>) -> (r: Vec<Vec<u8>>)
    ensures
        deep(r@) == deep(v@),
{
    let mut r: Vec<Vec<u8>> = Vec::new();
    let mut i: usize = 0;
    while i < v.len()
        invariant
            i <= v@.len(),
            r@.len() == i,
            forall|k: int| 0 <= k < i ==> deep(r@)[k] == deep(v@)[k],
        decreases v@.len() - i,
    {
        r.push(copy_bytes(v[i].as_slice()));
        proof {
            assert(deep(r@)[i as int] == r@[i as int]@);
        }
        i = i + 1;
    }
    proof {
        assert(deep(r@) =~= deep(v@));
    }
    r
}

/// Removes the prefix `p` from `s`, or reports that `s` does not start
/// with it.
pub fn strip_prefix_bytes(s: &[u8], p: &[u8]) -> (r: Option<Vec<u8>>)
    ensures
        match r {
            Some(v) => has_prefix(s@, p@) && v@ == s@.skip(p@.len() as int),
            None => !has_prefix(s@, p@),
        },
{
    if p.len() > s.len() {
        return None;
    }
    if !eq_bytes(&s[0..p.len()], p) {
        return None;
    }
    let tail = copy_bytes(&s[p.len()..s.len()]);
    proof {
        assert(s@.subrange(p@.len() as int, s@.len() as int) =~= s@.skip(p@.len() as int));
    }
    Some(tail)
}

/// Decides whether `v` occurs as an element of the comma-separated
/// list `l`.
pub fn csv_contains(l: &[u8], v: &[u8]) -> (r: bool)
    ensures
        r == is_csv_element(l@, v@),
{
    let n = l.len();
    let mut seg_start: usize = 0;
    loop
        invariant
            n == l@.len(),
            seg_start <= n,
            seg_start == 0 || l@[seg_start as int - 1] == COMMA,
            forall|i: int|
                0 <= i < seg_start && (i == 0 || l@[i - 1] == COMMA)
                    ==> !segment_matches(l@, v@, i),
        ensures
            !is_csv_element(l@, v@),
        decreases n - seg_start,
    {
        let mut seg_end: usize = seg_start;
        while seg_end < n && l[seg_end] != COMMA
            invariant
                n == l@.len(),
                seg_start <= seg_end <= n,
                forall|k: int| seg_start <= k < seg_end ==> l@[k] != COMMA,
            decreases n - seg_end,
        {
            seg_end = seg_end + 1;
        }
        if seg_end - seg_start == v.len() && eq_bytes(&l[seg_start..seg_end], v) {
            proof {
                assert(segment_matches(l@, v@, seg_start as int));
            }
            return true;
        }
        proof {
            // No element starting at seg_start equals v: if one did, its
            // end would be the first comma at or after seg_start, which
            // is exactly seg_end, so the comparison above would have
            // succeeded.
            if segment_matches(l@, v@, seg_start as int) {
                let j = seg_start + v@.len();
                if j < seg_end {
                    assert(l@[j as int] == COMMA);
                } else if j > seg_end {
                    assert(l@[seg_end as int] != COMMA);
                }
                assert(j == seg_end);
                assert(l@.subrange(seg_start as int, seg_end as int) == v@);
                assert(false);
            }
            // Interior positions of the segment are not element starts.
            assert forall|i: int|
                seg_start < i < seg_end + 1 && (i == 0 || l@[i - 1] == COMMA)
                    implies !segment_matches(l@, v@, i) by {
                assert(l@[i - 1] != COMMA);
            }
        }
        if seg_end == n {
            proof {
                // Every element start lies at or before n and has been
                // ruled out, so v is not an element of l.
                if is_csv_element(l@, v@) {
                    let i = choose|i: int| (i == 0 || l@[i - 1] == COMMA)
                        && #[trigger] segment_matches(l@, v@, i);
                    assert(0 <= i <= l@.len());
                    assert(false);
                }
            }
            break;
        }
        seg_start = seg_end + 1;
    }
    false
}

} // verus!
