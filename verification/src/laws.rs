//! Corruption detection, proved of the patch model: a patch whose magic tag
//! is wrong is rejected as malformed, and cutting any number of trailing
//! bytes off a patch that applies cleanly leaves nothing that applies — the
//! application never returns a wrong-but-successful buffer.

use vstd::prelude::*;
use crate::model::PatchError;
use crate::model::lemma_replay_shorter_extra;
use crate::format::apply_spec;
use crate::format::apply_err;
use crate::format::magic_seq;
use crate::format::parse_patch;
use crate::rle::unrle;
use crate::rle::lemma_unrle_truncated;

verus! {

/// A patch that does not open with the magic tag is rejected as malformed,
/// against every base buffer.
pub proof fn lemma_bad_magic_rejected(base: Seq<u8>, p: Seq<u8>)
    requires
        p.len() < 32 || p.subrange(0, 8) != magic_seq(),
    ensures
        apply_spec(base, p) is None,
        apply_err(base, p) == PatchError::FormatError,
{
}

/// Cutting a patch that applies cleanly down to any proper prefix leaves a
/// patch that fails to apply: the cut lands in the header or the declared
/// streams and is rejected as malformed, or it lands in the stored literal
/// stream, where it either breaks a compression token or starves the replay
/// of literal bytes.
pub proof fn lemma_truncated_patch_rejected(base: Seq<u8>, p: Seq<u8>, k: int)
    requires
        apply_spec(base, p) is Some,
        0 <= k < p.len(),
    ensures
        apply_spec(base, p.take(k)) is None,
        apply_err(base, p.take(k)) == PatchError::FormatError || apply_err(base, p.take(k))
            == PatchError::CompressionError,
{
    let parts = parse_patch(p)->Some_0;
    let q = p.take(k);
    if k < 32 {
        assert(apply_err(base, q) == PatchError::FormatError);
    } else {
        assert(q.subrange(0, 8) =~= p.subrange(0, 8));
        assert(q.subrange(8, 16) =~= p.subrange(8, 16));
        assert(q.subrange(16, 24) =~= p.subrange(16, 24));
        assert(q.subrange(24, 32) =~= p.subrange(24, 32));
        let clen = vstd::bytes::spec_u64_from_le_bytes(p.subrange(8, 16)) as int;
        let alen = vstd::bytes::spec_u64_from_le_bytes(p.subrange(16, 24)) as int;
        if k < 32 + clen + alen {
            assert(parse_patch(q) is None);
            assert(apply_err(base, q) == PatchError::FormatError);
        } else {
            let qparts = parse_patch(q)->Some_0;
            assert(q.subrange(32, 32 + clen) =~= p.subrange(32, 32 + clen));
            assert(q.subrange(32 + clen, 32 + clen + alen) =~= p.subrange(
                32 + clen,
                32 + clen + alen,
            ));
            assert(qparts.ctrls == parts.ctrls);
            assert(qparts.addc == parts.addc);
            assert(qparts.extrac =~= parts.extrac.take(k - (32 + clen + alen)));
            let add = unrle(parts.addc)->Some_0;
            let extra = unrle(parts.extrac)->Some_0;
            lemma_unrle_truncated(parts.extrac, k - (32 + clen + alen));
            match unrle(qparts.extrac) {
                None => {
                    assert(apply_err(base, q) == PatchError::CompressionError);
                },
                Some(extra2) => {
                    assert(extra2.len() < extra.len());
                    lemma_replay_shorter_extra(base, parts.ctrls, add, extra, extra2, 0);
                    assert(apply_err(base, q) == PatchError::FormatError);
                },
            }
        }
    }
}

} // verus!
