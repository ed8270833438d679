//! The match search: walk the new buffer left to right and cut it into
//! segments, each either a copy region of the base buffer (a longest match,
//! located by binary search over the suffix index and extended forward
//! across small mismatched runs) or a literal run with no productive
//! counterpart in the base. Every copy region carries a byte-for-byte
//! certificate of its bounds, and the match the binary search reports is
//! proved longest: no base position shares a longer prefix with the query.

use vstd::prelude::*;
use crate::suffix::sa_wf;
use crate::suffix::sa_sorted;
use crate::suffix::sa_onto;
use crate::suffix::appears;
use crate::suffix::xle;
use crate::suffix::lcp;
use crate::suffix::lemma_xle_shift;
use crate::suffix::lemma_lcp_shift;
use crate::suffix::lemma_xle_trans;
use crate::suffix::lemma_sorted_pairwise;
use crate::suffix::lemma_lcp_below;
use crate::suffix::lemma_lcp_above;

verus! {

/// A copy region is only opened where at least this many bytes match.
pub const MIN_MATCH: usize = 4;

/// Mismatched runs of this length stall the forward extension of a copy
/// region.
pub const MAX_MISS_RUN: usize = 8;

/// One segment of the new buffer: `copy` bytes taken from the base buffer at
/// `src` (possibly with byte deltas), then `extra` literal bytes.
#[derive(Clone, Copy, Debug, PartialEq, Eq, Structural)]
pub struct Seg {
    pub src: usize,
    pub copy: usize,
    pub extra: usize,
}

/// Every segment's copy region lies inside a buffer of length `n`, and every
/// segment covers at least one byte of the new buffer.
pub open spec fn segs_wf(segs: Seq<Seg>, n: nat) -> bool {
    forall|k: int|
        0 <= k < segs.len() ==> (#[trigger] segs[k]).src + segs[k].copy <= n && segs[k].copy
            + segs[k].extra >= 1
}

/// How many bytes of the new buffer the segments cover together.
pub open spec fn seg_total(segs: Seq<Seg>) -> int
    decreases segs.len(),
{
    if segs.len() == 0 {
        0
    } else {
        segs[0].copy + segs[0].extra + seg_total(segs.drop_first())
    }
}

/// Appending a segment adds its size to the covered total.
pub proof fn lemma_seg_total_snoc(segs: Seq<Seg>, s: Seg)
    ensures
        seg_total(segs.push(s)) == seg_total(segs) + s.copy + s.extra,
    decreases segs.len(),
{
    reveal_with_fuel(seg_total, 3);
    if segs.len() == 0 {
        assert(segs.push(s)[0] == s);
        assert(segs.push(s).drop_first() =~= Seq::<Seg>::empty());
    } else {
        assert(segs.push(s)[0] == segs[0]);
        assert(segs.push(s).drop_first() =~= segs.drop_first().push(s));
        lemma_seg_total_snoc(segs.drop_first(), s);
    }
}

/// No run of segments covers a negative number of bytes.
pub proof fn lemma_seg_total_nonneg(segs: Seq<Seg>)
    ensures
        seg_total(segs) >= 0,
    decreases segs.len(),
{
    if segs.len() > 0 {
        lemma_seg_total_nonneg(segs.drop_first());
    }
}

/// The covered total splits at any cut point.
pub proof fn lemma_seg_total_split(segs: Seq<Seg>, k: int)
    requires
        0 <= k <= segs.len(),
    ensures
        seg_total(segs) == seg_total(segs.take(k)) + seg_total(segs.skip(k)),
    decreases k,
{
    if k == 0 {
        assert(segs.take(0) =~= Seq::<Seg>::empty());
        assert(segs.skip(0) =~= segs);
    } else {
        assert(segs.take(k)[0] == segs[0]);
        assert(segs.take(k).drop_first() =~= segs.drop_first().take(k - 1));
        assert(segs.skip(k) =~= segs.drop_first().skip(k - 1));
        lemma_seg_total_split(segs.drop_first(), k - 1);
    }
}

/// Length of the longest common prefix of the base suffix at `i` and the new
/// suffix at `p`.
pub fn common_len(base: &Vec<u8>, i: usize, newb: &Vec<u8>, p: usize) -> (l: usize)
    requires
        i <= base@.len(),
        p <= newb@.len(),
    ensures
        i + l <= base@.len(),
        p + l <= newb@.len(),
        forall|j: int| 0 <= j < l ==> #[trigger] base@[i + j] == newb@[p + j],
        l == lcp(base@, i as int, newb@, p as int),
{
    let mut l: usize = 0;
    while l < base.len() - i && l < newb.len() - p && base[i + l] == newb[p + l]
        invariant
            i + l <= base@.len(),
            p + l <= newb@.len(),
            forall|j: int| 0 <= j < l ==> #[trigger] base@[i + j] == newb@[p + j],
            lcp(base@, i as int, newb@, p as int) == l + lcp(
                base@,
                i + l,
                newb@,
                p + l,
            ),
        decreases base@.len() - i - l,
    {
        l = l + 1;
    }
    l
}

/// The best match for the new suffix at `p`: a base position and a matched
/// length, found by binary search over the suffix index. The length is
/// certified byte for byte, and no base position shares a longer prefix
/// with the query.
pub fn best_match(base: &Vec<u8>, sa: &Vec<usize>, newb: &Vec<u8>, p: usize) -> (r: (usize, usize))
    requires
        sa_wf(sa@, base@.len()),
        sa_sorted(base@, sa@),
        sa_onto(sa@, base@.len()),
        p <= newb@.len(),
    ensures
        r.0 + r.1 <= base@.len(),
        p + r.1 <= newb@.len(),
        forall|j: int| 0 <= j < r.1 ==> #[trigger] base@[r.0 + j] == newb@[p + j],
        forall|s2: int| 0 <= s2 <= base@.len() ==> lcp(base@, s2, newb@, p as int) <= r.1,
{
    let mut bpos: usize = 0;
    let mut blen: usize = 0;
    let mut lo: usize = 0;
    let mut hi: usize = sa.len();
    while lo < hi
        invariant
            sa_wf(sa@, base@.len()),
            sa_sorted(base@, sa@),
            p <= newb@.len(),
            lo <= hi <= sa@.len(),
            bpos + blen <= base@.len(),
            p + blen <= newb@.len(),
            forall|j: int| 0 <= j < blen ==> #[trigger] base@[bpos + j] == newb@[p + j],
            forall|k: int|
                0 <= k < lo ==> xle(base@, (#[trigger] sa@[k]) as int, newb@, p as int),
            forall|k: int|
                hi <= k < sa@.len() ==> xle(newb@, p as int, base@, (#[trigger] sa@[k]) as int),
        decreases hi - lo,
    {
        let mid = lo + (hi - lo) / 2;
        let s = sa[mid];
        let l = common_len(base, s, newb, p);
        if l > blen {
            bpos = s;
            blen = l;
        }
        let ghost si = sa@[mid as int] as int;
        if l == base.len() - s {
            // The suffix is a prefix of the query: it orders at most the
            // query, and so does everything before it.
            proof {
                lemma_xle_shift(base@, si, newb@, p as int, l as int);
                assert(xle(base@, si, newb@, p as int));
                assert forall|k: int| 0 <= k < mid + 1 implies xle(
                    base@,
                    (#[trigger] sa@[k]) as int,
                    newb@,
                    p as int,
                ) by {
                    lemma_sorted_pairwise(base@, sa@, k, mid as int);
                    lemma_xle_trans(base@, sa@[k] as int, base@, si, newb@, p as int);
                }
            }
            lo = mid + 1;
        } else if l == newb.len() - p {
            // The query is a proper prefix of the suffix: the query orders
            // at most the suffix, and everything after it.
            proof {
                lemma_xle_shift(newb@, p as int, base@, si, l as int);
                assert(xle(newb@, p as int, base@, si));
                assert forall|k: int| mid <= k < sa@.len() implies xle(
                    newb@,
                    p as int,
                    base@,
                    (#[trigger] sa@[k]) as int,
                ) by {
                    lemma_sorted_pairwise(base@, sa@, mid as int, k);
                    lemma_xle_trans(newb@, p as int, base@, si, base@, sa@[k] as int);
                }
            }
            hi = mid;
        } else if base[s + l] < newb[p + l] {
            proof {
                lemma_xle_shift(base@, si, newb@, p as int, l as int);
                assert(xle(base@, si, newb@, p as int));
                assert forall|k: int| 0 <= k < mid + 1 implies xle(
                    base@,
                    (#[trigger] sa@[k]) as int,
                    newb@,
                    p as int,
                ) by {
                    lemma_sorted_pairwise(base@, sa@, k, mid as int);
                    lemma_xle_trans(base@, sa@[k] as int, base@, si, newb@, p as int);
                }
            }
            lo = mid + 1;
        } else {
            proof {
                lemma_lcp_shift(base@, si, newb@, p as int, l as int);
                assert(base@[si + l] != newb@[p + l]);
                lemma_xle_shift(newb@, p as int, base@, si, l as int);
                assert(xle(newb@, p as int, base@, si));
                assert forall|k: int| mid <= k < sa@.len() implies xle(
                    newb@,
                    p as int,
                    base@,
                    (#[trigger] sa@[k]) as int,
                ) by {
                    lemma_sorted_pairwise(base@, sa@, mid as int, k);
                    lemma_xle_trans(newb@, p as int, base@, si, base@, sa@[k] as int);
                }
            }
            hi = mid;
        }
    }
    // The longest common prefix sits next to the insertion point the search
    // converged on: probe its two neighbours, which dominate their sides.
    if lo > 0 {
        let s2 = sa[lo - 1];
        let l2 = common_len(base, s2, newb, p);
        if l2 > blen {
            bpos = s2;
            blen = l2;
        }
        proof {
            assert(lcp(base@, sa@[lo - 1] as int, newb@, p as int) <= blen);
        }
    }
    if lo < sa.len() {
        let s3 = sa[lo];
        let l3 = common_len(base, s3, newb, p);
        if l3 > blen {
            bpos = s3;
            blen = l3;
        }
        proof {
            assert(lcp(base@, sa@[lo as int] as int, newb@, p as int) <= blen);
        }
    }
    proof {
        assert forall|k: int| 0 <= k < sa@.len() implies lcp(
            base@,
            (#[trigger] sa@[k]) as int,
            newb@,
            p as int,
        ) <= blen by {
            if k < lo {
                lemma_sorted_pairwise(base@, sa@, k, lo - 1);
                lemma_lcp_below(
                    base@,
                    sa@[k] as int,
                    base@,
                    sa@[lo - 1] as int,
                    newb@,
                    p as int,
                );
            } else {
                lemma_sorted_pairwise(base@, sa@, lo as int, k);
                lemma_lcp_above(
                    base@,
                    sa@[k] as int,
                    base@,
                    sa@[lo as int] as int,
                    newb@,
                    p as int,
                );
            }
        }
        assert forall|s2: int| 0 <= s2 <= base@.len() implies lcp(base@, s2, newb@, p as int)
            <= blen by {
            if s2 < base@.len() {
                assert(appears(sa@, s2));
                let k = choose|k: int| 0 <= k < sa@.len() && (#[trigger] sa@[k]) == s2;
                assert(lcp(base@, sa@[k] as int, newb@, p as int) <= blen);
            }
        }
    }
    (bpos, blen)
}

/// Extend a certified match forward across short mismatched runs; trailing
/// mismatches are dropped, so extension only ever ends on a matching byte.
pub fn extend_copy(base: &Vec<u8>, src: usize, newb: &Vec<u8>, p: usize, mlen: usize) -> (ext:
    usize)
    requires
        src + mlen <= base@.len(),
        p + mlen <= newb@.len(),
    ensures
        mlen <= ext,
        src + ext <= base@.len(),
        p + ext <= newb@.len(),
{
    let mut j: usize = mlen;
    let mut best: usize = mlen;
    let mut miss: usize = 0;
    while j < base.len() - src && j < newb.len() - p && miss < MAX_MISS_RUN
        invariant
            mlen <= best <= j,
            src + j <= base@.len(),
            p + j <= newb@.len(),
        decreases base@.len() - src - j,
    {
        if base[src + j] == newb[p + j] {
            best = j + 1;
            miss = 0;
        } else {
            miss = miss + 1;
        }
        j = j + 1;
    }
    best
}

/// Cut the new buffer into segments: certified copy regions where the suffix
/// index surfaces a match of at least `MIN_MATCH` bytes, literal runs
/// elsewhere. The segments cover the new buffer exactly, in order.
pub fn segment(base: &Vec<u8>, sa: &Vec<usize>, newb: &Vec<u8>) -> (segs: Vec<Seg>)
    requires
        sa_wf(sa@, base@.len()),
        sa_sorted(base@, sa@),
        sa_onto(sa@, base@.len()),
    ensures
        segs_wf(segs@, base@.len()),
        seg_total(segs@) == newb@.len(),
        segs@.len() <= newb@.len(),
{
    let mut segs: Vec<Seg> = Vec::new();
    let mut p: usize = 0;
    while p < newb.len()
        invariant
            sa_wf(sa@, base@.len()),
            sa_sorted(base@, sa@),
            sa_onto(sa@, base@.len()),
            p <= newb@.len(),
            segs_wf(segs@, base@.len()),
            seg_total(segs@) == p,
            segs@.len() <= p,
        decreases newb@.len() - p,
    {
        let (mpos, mlen) = best_match(base, sa, newb, p);
        if mlen >= MIN_MATCH {
            let ext = extend_copy(base, mpos, newb, p, mlen);
            let ghost segs0 = segs@;
            segs.push(Seg { src: mpos, copy: ext, extra: 0 });
            proof {
                lemma_seg_total_snoc(segs0, Seg { src: mpos, copy: ext, extra: 0 });
            }
            p = p + ext;
        } else {
            let start = p;
            p = p + 1;
            while p < newb.len()
                invariant
                    sa_wf(sa@, base@.len()),
                    sa_sorted(base@, sa@),
                    sa_onto(sa@, base@.len()),
                    start < p <= newb@.len(),
                decreases newb@.len() - p,
            {
                let (_m2, l2) = best_match(base, sa, newb, p);
                if l2 >= MIN_MATCH {
                    break ;
                }
                p = p + 1;
            }
            let run = Seg { src: 0, copy: 0, extra: p - start };
            let ghost segs0 = segs@;
            segs.push(run);
            proof {
                lemma_seg_total_snoc(segs0, run);
            }
        }
    }
    segs
}

} // verus!
