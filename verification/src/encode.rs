//! The diff encoder: turn the segmentation of the new buffer into control
//! records plus the delta and literal streams, and serialize them into the
//! patch container. The contract of `make_patch` is the round-trip law
//! itself: applying the returned patch to the base buffer yields exactly the
//! new buffer.

use vstd::prelude::*;
use crate::model::Ctrl;
use crate::model::add8;
use crate::model::sub8;
use crate::model::lemma_add8_sub8;
use crate::model::replay_rec;
use crate::model::cursor_after;
use crate::model::seek_val;
use crate::model::lemma_replay_snoc;
use crate::search::Seg;
use crate::search::segs_wf;
use crate::search::seg_total;
use crate::search::lemma_seg_total_split;
use crate::search::lemma_seg_total_nonneg;
use crate::search::lemma_seg_total_snoc;
use crate::search::segment;
use crate::suffix::suffix_array;
use crate::format::PatchParts;
use crate::format::apply_spec;
use crate::format::build_patch;
use crate::rle::rle_compress;

verus! {

/// Byte subtraction modulo 256.
pub fn sub8_exec(n: u8, o: u8) -> (r: u8)
    ensures
        r == sub8(n, o),
{
    if n >= o {
        n - o
    } else {
        (((n as u16) + 256) - (o as u16)) as u8
    }
}

/// Turn a segmentation of the new buffer into control records and the two
/// raw streams; replaying them against the base buffer yields the new buffer
/// exactly.
pub fn emit(base: &Vec<u8>, newb: &Vec<u8>, segs: &Vec<Seg>) -> (r: (Vec<Ctrl>, Vec<u8>, Vec<u8>))
    requires
        segs_wf(segs@, base@.len()),
        seg_total(segs@) == newb@.len(),
        segs@.len() <= newb@.len(),
        base@.len() < 0x4000_0000_0000_0000,
    ensures
        replay_rec(base@, r.0@, r.1@, r.2@, 0) == Some(newb@),
        r.0@.len() <= segs@.len() + 1,
        r.1@.len() + r.2@.len() == newb@.len(),
{
    let mut ctrls: Vec<Ctrl> = Vec::new();
    let mut add: Vec<u8> = Vec::new();
    let mut extra: Vec<u8> = Vec::new();
    let mut cur: usize = 0;
    let mut q: usize = 0;
    let nl = newb.len();
    let bl = base.len();
    proof {
        assert(newb@.take(0) =~= Seq::<u8>::empty());
    }
    if segs.len() > 0 {
        let s0 = segs[0];
        if s0.copy > 0 && s0.src != 0 {
            // One seek-only record aligns the cursor with the first copy
            // region before any byte is produced.
            let c = Ctrl { copy: 0, extra: 0, seek: s0.src as u64 };
            let ghost ctrls0 = ctrls@;
            ctrls.push(c);
            proof {
                assert(segs@[0].src + segs@[0].copy <= base@.len());
                assert(seek_val(c.seek) == s0.src as int);
                lemma_replay_snoc(
                    base@,
                    ctrls0,
                    Seq::<u8>::empty(),
                    Seq::<u8>::empty(),
                    0,
                    c,
                    Seq::<u8>::empty(),
                    Seq::<u8>::empty(),
                );
                assert(Seq::<u8>::empty() + Seq::<u8>::empty() =~= Seq::<u8>::empty());
                assert(Seq::<u8>::empty() + Seq::new(0nat, |i: int| add8(base@[0 + i], 0u8))
                    + Seq::<u8>::empty() =~= Seq::<u8>::empty());
                assert(replay_rec(base@, ctrls@, add@, extra@, 0) == Some(newb@.take(0)));
            }
            cur = s0.src;
        }
    }
    let mut k: usize = 0;
    while k < segs.len()
        invariant
            segs_wf(segs@, base@.len()),
            seg_total(segs@) == newb@.len(),
            base@.len() < 0x4000_0000_0000_0000,
            nl == newb@.len(),
            bl == base@.len(),
            k <= segs@.len(),
            q == seg_total(segs@.take(k as int)),
            q <= newb@.len(),
            add@.len() + extra@.len() == q,
            ctrls@.len() <= k + 1,
            cur <= base@.len(),
            cursor_after(ctrls@, 0) == cur,
            replay_rec(base@, ctrls@, add@, extra@, 0) == Some(newb@.take(q as int)),
            k < segs@.len() && segs@[k as int].copy > 0 ==> cur == segs@[k as int].src,
        decreases segs@.len() - k,
    {
        let s = segs[k];
        proof {
            assert(segs@.take(k + 1) =~= segs@.take(k as int).push(segs@[k as int]));
            lemma_seg_total_snoc(segs@.take(k as int), segs@[k as int]);
            lemma_seg_total_split(segs@, k + 1);
            lemma_seg_total_nonneg(segs@.skip(k + 1));
            assert(q + s.copy + s.extra <= newb@.len());
        }
        let size = s.copy + s.extra;
        let end = cur + s.copy;
        proof {
            assert(end <= base@.len());
        }
        let nxt: usize = if k + 1 < segs.len() {
            let s1 = segs[k + 1];
            if s1.copy > 0 {
                s1.src
            } else {
                end
            }
        } else {
            end
        };
        proof {
            if k + 1 < segs@.len() && segs@[k + 1].copy > 0 {
                assert(segs@[k + 1].src + segs@[k + 1].copy <= base@.len());
            }
            assert(nxt <= base@.len());
        }
        let seekw: u64 = if nxt >= end {
            (nxt - end) as u64
        } else {
            0x8000_0000_0000_0000u64 + (end - nxt) as u64
        };
        proof {
            assert(seek_val(seekw) == nxt - end);
        }
        let c = Ctrl { copy: s.copy as u64, extra: s.extra as u64, seek: seekw };
        let ghost ctrls0 = ctrls@;
        let ghost add0 = add@;
        let ghost extra0 = extra@;
        let mut i: usize = 0;
        while i < s.copy
            invariant
                i <= s.copy,
                q + s.copy + s.extra <= newb@.len(),
                nl == newb@.len(),
                bl == base@.len(),
                cur + s.copy <= base@.len(),
                add@ == add0 + Seq::new(i as nat, |j: int| sub8(newb@[q + j], base@[cur + j])),
            decreases s.copy - i,
        {
            let d = sub8_exec(newb[q + i], base[cur + i]);
            add.push(d);
            proof {
                assert(add@ =~= add0 + Seq::new(
                    (i + 1) as nat,
                    |j: int| sub8(newb@[q + j], base@[cur + j]),
                ));
            }
            i = i + 1;
        }
        let mut i2: usize = 0;
        while i2 < s.extra
            invariant
                i2 <= s.extra,
                q + s.copy + s.extra <= newb@.len(),
                nl == newb@.len(),
                extra@ == extra0 + newb@.subrange(
                    q + s.copy,
                    q + s.copy + i2 as int,
                ),
            decreases s.extra - i2,
        {
            let b = newb[q + s.copy + i2];
            extra.push(b);
            proof {
                assert(extra@ =~= extra0 + newb@.subrange(q + s.copy, q + s.copy + i2 + 1));
            }
            i2 = i2 + 1;
        }
        ctrls.push(c);
        proof {
            let ca = Seq::new(s.copy as nat, |j: int| sub8(newb@[q + j], base@[cur + j]));
            let ce = newb@.subrange(q + s.copy, q + s.copy + s.extra);
            assert(add@ == add0 + ca);
            assert(extra@ == extra0 + ce);
            lemma_replay_snoc(base@, ctrls0, add0, extra0, 0, c, ca, ce);
            let piece = Seq::new(c.copy as nat, |j: int| add8(base@[cur + j], ca[j]));
            assert forall|j: int| 0 <= j < c.copy implies piece[j] == newb@[q + j] by {
                lemma_add8_sub8(newb@[q + j], base@[cur + j]);
            }
            assert(newb@.take(q as int) + piece + ce =~= newb@.take(q + s.copy + s.extra));
            assert(replay_rec(base@, ctrls@, add@, extra@, 0) == Some(
                newb@.take(q + s.copy + s.extra),
            ));
            assert(cursor_after(ctrls@, 0) == nxt);
        }
        q = q + size;
        cur = nxt;
        k = k + 1;
    }
    proof {
        assert(segs@.take(k as int) =~= segs@);
        assert(newb@.take(q as int) =~= newb@);
    }
    (ctrls, add, extra)
}

/// Compute a patch that transforms `base` into `newb`.
///
/// The contract is the round-trip law: the patch model applies the returned
/// bytes to `base` and yields exactly `newb` — for every pair of buffers the
/// machine limits admit, including empty ones. The size bounds keep every
/// intermediate length inside the machine word.
pub fn make_patch(base: &Vec<u8>, newb: &Vec<u8>) -> (patch: Vec<u8>)
    requires
        base@.len() + base@.len() <= usize::MAX,
        base@.len() < 0x4000_0000_0000_0000,
        newb@.len() < 0x0400_0000_0000_0000,
        56 + 28 * newb@.len() <= usize::MAX,
    ensures
        apply_spec(base@, patch@) == Some(newb@),
        patch@.len() <= 56 + 26 * newb@.len(),
{
    let sa = suffix_array(base);
    let segs = segment(base, &sa, newb);
    let (ctrls, add, extra) = emit(base, newb, &segs);
    let addc = rle_compress(&add);
    let extrac = rle_compress(&extra);
    proof {
        assert(24 * ctrls@.len() < 0x8000_0000_0000_0000);
        assert(addc@.len() < 0x8000_0000_0000_0000);
        assert(32 + 24 * ctrls@.len() + addc@.len() + extrac@.len() <= usize::MAX);
    }
    let patch = build_patch(&ctrls, &addc, &extrac, newb.len() as u64);
    proof {
        let parts = PatchParts {
            ctrls: ctrls@,
            addc: addc@,
            extrac: extrac@,
            target: newb@.len() as int,
        };
        assert(apply_spec(base@, patch@) == Some(newb@));
    }
    patch
}

} // verus!
