use vstd::prelude::*;
use crate::model::{seg_len, SLASH, lemma_find_index_found, lemma_find_index_none};

verus! {

/// Copies a byte vector.
pub(crate) fn copy_bytes(v: &Vec<u8>) -> (r: Vec<u8>)
    ensures
        r@ == v@,
{
    vstd::slice::slice_to_vec(v.as_slice())
}

/// Byte-for-byte equality of two byte vectors.
pub(crate) fn bytes_eq(a: &Vec<u8>, b: &Vec<u8>) -> (r: bool)
    ensures
        r == (a@ == b@),
{
    if a.len() != b.len() {
        assert(a@ != b@) by {
            assert(a@.len() != b@.len());
        }
        return false;
    }
    let n = a.len();
    let mut i: usize = 0;
    while i < n
        invariant
            n == a@.len() == b@.len(),
            0 <= i <= n,
            forall|j: int| 0 <= j < i ==> a@[j] == b@[j],
        decreases n - i,
    {
        if a[i] != b[i] {
            return false;
        }
        i += 1;
    }
    proof {
        assert(a@ =~= b@);
    }
    true
}

/// Copies the bytes of `path` between `from` and `to` into a fresh vector.
pub(crate) fn sub_to_vec(path: &[u8], from: usize, to: usize) -> (r: Vec<u8>)
    requires
        from <= to <= path@.len(),
    ensures
        r@ == path@.subrange(from as int, to as int),
{
    vstd::slice::slice_to_vec(vstd::slice::slice_subrange(path, from, to))
}

/// Whether the bytes of `v` equal the bytes of `p` between `a` and `b`.
pub(crate) fn vec_eq_span(v: &Vec<u8>, p: &[u8], a: usize, b: usize) -> (r: bool)
    requires
        a <= b <= p@.len(),
    ensures
        r == (v@ == p@.subrange(a as int, b as int)),
{
    let m = v.len();
    if m != b - a {
        assert(v@ != p@.subrange(a as int, b as int)) by {
            assert(v@.len() != p@.subrange(a as int, b as int).len());
        }
        return false;
    }
    let mut i: usize = 0;
    while i < m
        invariant
            a <= b <= p@.len(),
            m == v@.len() == b - a,
            0 <= i <= m,
            forall|j: int| 0 <= j < i ==> v@[j] == p@[a + j],
        decreases m - i,
    {
        if v[i] != p[a + i] {
            assert(v@[i as int] != p@.subrange(a as int, b as int)[i as int]);
            return false;
        }
        i += 1;
    }
    proof {
        assert(v@ =~= p@.subrange(a as int, b as int));
    }
    true
}

/// Whether the bytes of `p` between `a1` and `b1` equal those between `a2` and `b2`.
pub(crate) fn span_eq(p: &[u8], a1: usize, b1: usize, a2: usize, b2: usize) -> (r: bool)
    requires
        a1 <= b1 <= p@.len(),
        a2 <= b2 <= p@.len(),
    ensures
        r == (p@.subrange(a1 as int, b1 as int) == p@.subrange(a2 as int, b2 as int)),
{
    let m = b1 - a1;
    if b2 - a2 != m {
        assert(p@.subrange(a1 as int, b1 as int).len() != p@.subrange(a2 as int, b2 as int).len());
        return false;
    }
    let mut i: usize = 0;
    while i < m
        invariant
            a1 <= b1 <= p@.len(),
            a2 <= b2 <= p@.len(),
            m == b1 - a1 == b2 - a2,
            0 <= i <= m,
            forall|j: int| #![trigger p@[a1 + j]] 0 <= j < i ==> p@[a1 + j] == p@[a2 + j],
        decreases m - i,
    {
        if p[a1 + i] != p[a2 + i] {
            assert(p@.subrange(a1 as int, b1 as int)[i as int] != p@.subrange(
                a2 as int,
                b2 as int,
            )[i as int]);
            return false;
        }
        i += 1;
    }
    proof {
        assert forall|k: int| 0 <= k < m implies p@.subrange(a1 as int, b1 as int)[k]
            == p@.subrange(a2 as int, b2 as int)[k] by {
            assert(p@[a1 + k] == p@[a2 + k]);
        }
        assert(p@.subrange(a1 as int, b1 as int) =~= p@.subrange(a2 as int, b2 as int));
    }
    true
}

/// Length of the longest common prefix of `p` from `pos` on and `pre`.
#[verifier::loop_isolation(false)]
pub(crate) fn common_len(p: &[u8], pos: usize, pre: &Vec<u8>) -> (l: usize)
    requires
        pos <= p@.len(),
    ensures
        l <= pre@.len(),
        l <= p@.len() - pos,
        forall|j: int| 0 <= j < l ==> p@[pos + j] == pre@[j],
        l < pre@.len() && pos + l < p@.len() ==> p@[pos + l] != pre@[l as int],
{
    let n = p.len();
    let m = pre.len();
    let mut l: usize = 0;
    while pos + l < n && l < m && p[pos + l] == pre[l]
        invariant
            0 <= l <= m,
            pos + l <= n,
            forall|j: int| 0 <= j < l ==> p@[pos + j] == pre@[j],
        decreases n - pos - l,
    {
        l += 1;
    }
    l
}

/// Position right after the segment of `path` that starts at `pos`: the index
/// of the next `/`, or the end of the path.
#[verifier::loop_isolation(false)]
pub(crate) fn seg_end(path: &[u8], pos: usize) -> (e: usize)
    requires
        pos <= path@.len(),
    ensures
        pos <= e <= path@.len(),
        e - pos == seg_len(path@.skip(pos as int)),
        forall|j: int| pos <= j < e ==> path@[j] != SLASH,
        e < path@.len() ==> path@[e as int] == SLASH,
{
    let n = path.len();
    let mut i: usize = pos;
    while i < n
        invariant
            pos <= i <= n,
            forall|j: int| pos <= j < i ==> path@[j] != SLASH,
        decreases n - i,
    {
        if path[i] == SLASH {
            proof {
                let sp = path@.skip(pos as int);
                assert(forall|j: int| 0 <= j < i - pos ==> sp[j] != SLASH);
                assert(sp[i - pos] == SLASH);
                lemma_find_index_found(sp, SLASH, i - pos);
            }
            return i;
        }
        i += 1;
    }
    proof {
        let sp = path@.skip(pos as int);
        assert(forall|j: int| 0 <= j < sp.len() ==> sp[j] != SLASH);
        lemma_find_index_none(sp, SLASH);
    }
    n
}

} // verus!
