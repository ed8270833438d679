//! The persisted patch container: a fixed magic tag, three 64-bit header
//! fields (stored control-stream length, stored delta-stream length, and the
//! reconstructed target length), then the control-record stream, the stored
//! delta stream, and the stored literal stream as the remainder. The two
//! byte streams are stored behind the compression stage; the header lengths
//! are lengths as stored.

use vstd::prelude::*;
use vstd::bytes::lemma_auto_spec_u64_to_from_le_bytes;
use vstd::bytes::spec_u64_from_le_bytes;
use vstd::bytes::spec_u64_to_le_bytes;
use vstd::bytes::u64_from_le_bytes;
use vstd::bytes::u64_to_le_bytes;
use vstd::slice::slice_subrange;
use vstd::slice::slice_to_vec;
use crate::model::Ctrl;
use crate::model::PatchError;
use crate::model::replay_rec;
use crate::model::replay_err;
use crate::rle::unrle;

verus! {

/// The fixed format tag that opens every patch.
pub open spec fn magic_seq() -> Seq<u8> {
    seq![0x56u8, 0x42u8, 0x44u8, 0x49u8, 0x46u8, 0x46u8, 0x30u8, 0x31u8]
}

/// A parsed container: control records, the two stored (still compressed)
/// streams, and the declared length of the reconstructed buffer.
pub struct PatchParts {
    pub ctrls: Seq<Ctrl>,
    pub addc: Seq<u8>,
    pub extrac: Seq<u8>,
    pub target: int,
}

/// The control record serialized at byte offset `off`: three 64-bit
/// little-endian words.
pub open spec fn mk_ctrl(b: Seq<u8>, off: int) -> Ctrl {
    Ctrl {
        copy: spec_u64_from_le_bytes(b.subrange(off, off + 8)),
        extra: spec_u64_from_le_bytes(b.subrange(off + 8, off + 16)),
        seek: spec_u64_from_le_bytes(b.subrange(off + 16, off + 24)),
    }
}

/// The control-record stream: consecutive 24-byte records.
pub open spec fn parse_ctrls(b: Seq<u8>) -> Seq<Ctrl> {
    Seq::new((b.len() / 24) as nat, |i: int| mk_ctrl(b, 24 * i))
}

/// Parsing of the container. `None` marks a malformed container: too short
/// for the header, a wrong magic tag, a control-stream length that is not a
/// whole number of records, or declared stream lengths that the bytes cannot
/// satisfy.
pub open spec fn parse_patch(p: Seq<u8>) -> Option<PatchParts> {
    if p.len() < 32 {
        None
    } else if p.subrange(0, 8) != magic_seq() {
        None
    } else {
        let clen = spec_u64_from_le_bytes(p.subrange(8, 16)) as int;
        let alen = spec_u64_from_le_bytes(p.subrange(16, 24)) as int;
        let target = spec_u64_from_le_bytes(p.subrange(24, 32)) as int;
        if clen % 24 != 0 || p.len() < 32 + clen + alen {
            None
        } else {
            Some(
                PatchParts {
                    ctrls: parse_ctrls(p.subrange(32, 32 + clen)),
                    addc: p.subrange(32 + clen, 32 + clen + alen),
                    extrac: p.subrange(32 + clen + alen, p.len() as int),
                    target,
                },
            )
        }
    }
}

/// What applying patch `p` to `base` yields: parse the container, decode the
/// two stored streams, replay the control records from cursor zero, and
/// demand that the result has the declared target length. `None` marks any
/// failure.
pub open spec fn apply_spec(base: Seq<u8>, p: Seq<u8>) -> Option<Seq<u8>> {
    match parse_patch(p) {
        None => None,
        Some(parts) => match unrle(parts.addc) {
            None => None,
            Some(add) => match unrle(parts.extrac) {
                None => None,
                Some(extra) => match replay_rec(base, parts.ctrls, add, extra, 0) {
                    None => None,
                    Some(out) => if out.len() == parts.target {
                        Some(out)
                    } else {
                        None
                    },
                },
            },
        },
    }
}

/// Which error a failed application reports: a malformed container is a
/// format fault, an undecodable stored stream a compression fault, a failed
/// replay whatever the replay reports, and a target-length mismatch a range
/// fault. Only meaningful where `apply_spec` is `None`.
pub open spec fn apply_err(base: Seq<u8>, p: Seq<u8>) -> PatchError {
    match parse_patch(p) {
        None => PatchError::FormatError,
        Some(parts) => match unrle(parts.addc) {
            None => PatchError::CompressionError,
            Some(add) => match unrle(parts.extrac) {
                None => PatchError::CompressionError,
                Some(extra) => match replay_rec(base, parts.ctrls, add, extra, 0) {
                    None => replay_err(base, parts.ctrls, add, extra, 0),
                    Some(out) => PatchError::RangeError,
                },
            },
        },
    }
}

/// Append the little-endian bytes of `x`.
pub fn push_u64(out: &mut Vec<u8>, x: u64)
    ensures
        final(out)@ == old(out)@ + spec_u64_to_le_bytes(x),
{
    let mut b = u64_to_le_bytes(x);
    out.append(&mut b);
}

/// Append a copy of `src`.
pub fn append_bytes(out: &mut Vec<u8>, src: &Vec<u8>)
    ensures
        final(out)@ == old(out)@ + src@,
{
    let mut i: usize = 0;
    while i < src.len()
        invariant
            i <= src@.len(),
            out@ == old(out)@ + src@.take(i as int),
        decreases src@.len() - i,
    {
        out.push(src[i]);
        proof {
            assert(old(out)@ + src@.take(i as int) + seq![src@[i as int]] =~= old(out)@
                + src@.take(i + 1));
        }
        i = i + 1;
    }
    proof {
        assert(src@.take(i as int) =~= src@);
    }
}

/// Serialize control records as consecutive 24-byte records; parsing the
/// result gives the records back.
pub fn serialize_ctrls(ctrls: &Vec<Ctrl>) -> (out: Vec<u8>)
    requires
        24 * ctrls@.len() <= usize::MAX,
    ensures
        out@.len() == 24 * ctrls@.len(),
        parse_ctrls(out@) == ctrls@,
{
    let mut out: Vec<u8> = Vec::new();
    let mut k: usize = 0;
    while k < ctrls.len()
        invariant
            k <= ctrls@.len(),
            24 * ctrls@.len() <= usize::MAX,
            out@.len() == 24 * k,
            forall|j: int| 0 <= j < k ==> mk_ctrl(out@, 24 * j) == ctrls@[j],
        decreases ctrls@.len() - k,
    {
        let ghost out0 = out@;
        let c = ctrls[k];
        push_u64(&mut out, c.copy);
        push_u64(&mut out, c.extra);
        push_u64(&mut out, c.seek);
        proof {
            lemma_auto_spec_u64_to_from_le_bytes();
            let a = spec_u64_to_le_bytes(c.copy);
            let b = spec_u64_to_le_bytes(c.extra);
            let s = spec_u64_to_le_bytes(c.seek);
            assert(out@ == out0 + a + b + s);
            assert(out@.subrange(24 * k, 24 * k + 8) =~= a);
            assert(out@.subrange(24 * k + 8, 24 * k + 16) =~= b);
            assert(out@.subrange(24 * k + 16, 24 * k + 24) =~= s);
            assert(mk_ctrl(out@, 24 * k) == ctrls@[k as int]);
            assert forall|j: int| 0 <= j < k implies mk_ctrl(out@, 24 * j) == ctrls@[j] by {
                assert(out@.subrange(24 * j, 24 * j + 8) =~= out0.subrange(24 * j, 24 * j + 8));
                assert(out@.subrange(24 * j + 8, 24 * j + 16) =~= out0.subrange(
                    24 * j + 8,
                    24 * j + 16,
                ));
                assert(out@.subrange(24 * j + 16, 24 * j + 24) =~= out0.subrange(
                    24 * j + 16,
                    24 * j + 24,
                ));
            }
        }
        k = k + 1;
    }
    proof {
        assert(parse_ctrls(out@) =~= ctrls@);
    }
    out
}

/// Assemble the container around already-serialized streams.
pub fn build_patch(ctrls: &Vec<Ctrl>, addc: &Vec<u8>, extrac: &Vec<u8>, target: u64) -> (out: Vec<
    u8,
>)
    requires
        24 * ctrls@.len() < 0x8000_0000_0000_0000,
        addc@.len() < 0x8000_0000_0000_0000,
        32 + 24 * ctrls@.len() + addc@.len() + extrac@.len() <= usize::MAX,
    ensures
        parse_patch(out@) == Some(
            PatchParts { ctrls: ctrls@, addc: addc@, extrac: extrac@, target: target as int },
        ),
        out@.len() == 32 + 24 * ctrls@.len() + addc@.len() + extrac@.len(),
{
    let clen: usize = 24 * ctrls.len();
    let mut out: Vec<u8> = Vec::new();
    out.push(0x56);
    out.push(0x42);
    out.push(0x44);
    out.push(0x49);
    out.push(0x46);
    out.push(0x46);
    out.push(0x30);
    out.push(0x31);
    proof {
        assert(out@ =~= magic_seq());
    }
    push_u64(&mut out, clen as u64);
    push_u64(&mut out, addc.len() as u64);
    push_u64(&mut out, target);
    let cbytes = serialize_ctrls(ctrls);
    append_bytes(&mut out, &cbytes);
    append_bytes(&mut out, addc);
    append_bytes(&mut out, extrac);
    proof {
        lemma_auto_spec_u64_to_from_le_bytes();
        let p = out@;
        let ca = spec_u64_to_le_bytes(clen as u64);
        let aa = spec_u64_to_le_bytes(addc@.len() as u64);
        let ta = spec_u64_to_le_bytes(target);
        assert(p == magic_seq() + ca + aa + ta + cbytes@ + addc@ + extrac@);
        assert(p.len() == 32 + 24 * ctrls@.len() + addc@.len() + extrac@.len());
        assert(p.subrange(0, 8) =~= magic_seq());
        assert(p.subrange(8, 16) =~= ca);
        assert(p.subrange(16, 24) =~= aa);
        assert(p.subrange(24, 32) =~= ta);
        let ci = clen as int;
        assert(spec_u64_from_le_bytes(p.subrange(8, 16)) == clen as u64);
        assert(spec_u64_from_le_bytes(p.subrange(16, 24)) == addc@.len() as u64);
        assert(spec_u64_from_le_bytes(p.subrange(24, 32)) == target);
        assert(ci % 24 == 0) by {
            assert(ci == 24 * ctrls@.len());
        }
        assert(p.subrange(32, 32 + ci) =~= cbytes@);
        assert(p.subrange(32 + ci, 32 + ci + addc@.len() as int) =~= addc@);
        assert(p.subrange(32 + ci + addc@.len() as int, p.len() as int) =~= extrac@);
        assert(parse_patch(p) == Some(
            PatchParts { ctrls: ctrls@, addc: addc@, extrac: extrac@, target: target as int },
        ));
    }
    out
}

/// Parse the container into control records, the two stored streams, and the
/// declared target length.
pub fn parse(p: &Vec<u8>) -> (r: Option<(Vec<Ctrl>, Vec<u8>, Vec<u8>, u64)>)
    ensures
        match r {
            Some(parts) => parse_patch(p@) == Some(
                PatchParts {
                    ctrls: parts.0@,
                    addc: parts.1@,
                    extrac: parts.2@,
                    target: parts.3 as int,
                },
            ),
            None => parse_patch(p@) is None,
        },
{
    if p.len() < 32 {
        return None;
    }
    let magic: [u8; 8] = [0x56, 0x42, 0x44, 0x49, 0x46, 0x46, 0x30, 0x31];
    let mut i: usize = 0;
    while i < 8
        invariant
            i <= 8,
            p@.len() >= 32,
            magic@ =~= magic_seq(),
            forall|j: int| 0 <= j < i ==> p@[j] == magic_seq()[j],
        decreases 8 - i,
    {
        if p[i] != magic[i] {
            proof {
                assert(p@.subrange(0, 8)[i as int] != magic_seq()[i as int]);
            }
            return None;
        }
        i = i + 1;
    }
    proof {
        assert(p@.subrange(0, 8) =~= magic_seq());
    }
    let clen_w = u64_from_le_bytes(slice_subrange(p.as_slice(), 8, 16));
    let alen_w = u64_from_le_bytes(slice_subrange(p.as_slice(), 16, 24));
    let target = u64_from_le_bytes(slice_subrange(p.as_slice(), 24, 32));
    if clen_w % 24 != 0 {
        return None;
    }
    let rem: u64 = (p.len() - 32) as u64;
    if clen_w > rem || alen_w > rem - clen_w {
        return None;
    }
    let clen: usize = clen_w as usize;
    let alen: usize = alen_w as usize;
    let cbytes = slice_to_vec(slice_subrange(p.as_slice(), 32, 32 + clen));
    let addc = slice_to_vec(slice_subrange(p.as_slice(), 32 + clen, 32 + clen + alen));
    let extrac = slice_to_vec(slice_subrange(p.as_slice(), 32 + clen + alen, p.len()));
    let nrec: usize = clen / 24;
    let mut ctrls: Vec<Ctrl> = Vec::new();
    let mut k: usize = 0;
    while k < nrec
        invariant
            k <= nrec,
            nrec == cbytes@.len() / 24,
            cbytes@.len() == 24 * nrec,
            24 * nrec <= usize::MAX,
            ctrls@.len() == k,
            forall|j: int| 0 <= j < k ==> ctrls@[j] == mk_ctrl(cbytes@, 24 * j),
        decreases nrec - k,
    {
        let off: usize = 24 * k;
        let c = Ctrl {
            copy: u64_from_le_bytes(slice_subrange(cbytes.as_slice(), off, off + 8)),
            extra: u64_from_le_bytes(slice_subrange(cbytes.as_slice(), off + 8, off + 16)),
            seek: u64_from_le_bytes(slice_subrange(cbytes.as_slice(), off + 16, off + 24)),
        };
        ctrls.push(c);
        k = k + 1;
    }
    proof {
        assert(ctrls@ =~= parse_ctrls(cbytes@));
        assert(cbytes@ == p@.subrange(32, 32 + clen as int));
        assert(parse_patch(p@) == Some(
            PatchParts {
                ctrls: ctrls@,
                addc: addc@,
                extrac: extrac@,
                target: target as int,
            },
        ));
    }
    Some((ctrls, addc, extrac, target))
}

} // verus!
