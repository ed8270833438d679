//! Patch application: parse the container, decode the stored streams, and
//! replay the control records against the base buffer. Either the whole
//! reconstructed buffer is returned, exactly as the replay model says, or an
//! error and no output.

use vstd::prelude::*;
use crate::model::Ctrl;
use crate::model::PatchError;
use crate::model::add8;
use crate::model::replay_rec;
use crate::model::replay_err;
use crate::model::seek_val;
use crate::format::PatchParts;
use crate::format::apply_spec;
use crate::format::apply_err;
use crate::format::parse;
use crate::format::parse_patch;
use crate::rle::unrle;
use crate::rle::rle_decompress;

verus! {

/// Byte addition modulo 256.
pub fn add8_exec(a: u8, d: u8) -> (r: u8)
    ensures
        r == add8(a, d),
{
    let s: u16 = a as u16 + d as u16;
    if s < 256 {
        s as u8
    } else {
        (s - 256) as u8
    }
}

/// Reconstruct the buffer that `patch` encodes on top of `base`.
///
/// Succeeds exactly where the patch model does; on failure the reported
/// error is the one the model assigns, and no output is produced.
pub fn apply_patch(base: &Vec<u8>, patch: &Vec<u8>) -> (r: Result<Vec<u8>, PatchError>)
    ensures
        match r {
            Ok(out) => apply_spec(base@, patch@) == Some(out@),
            Err(e) => apply_spec(base@, patch@) is None && e == apply_err(base@, patch@),
        },
{
    let parsed = match parse(patch) {
        Some(t) => t,
        None => {
            return Err(PatchError::FormatError);
        },
    };
    let (ctrls, addc, extrac, target) = parsed;
    let add = match rle_decompress(&addc) {
        Some(v) => v,
        None => {
            return Err(PatchError::CompressionError);
        },
    };
    let extra = match rle_decompress(&extrac) {
        Some(v) => v,
        None => {
            return Err(PatchError::CompressionError);
        },
    };
    let ghost cs = ctrls@;
    let ghost av = add@;
    let ghost ev = extra@;
    let mut out: Vec<u8> = Vec::new();
    let mut k: usize = 0;
    let mut opos: usize = 0;
    let mut apos: usize = 0;
    let mut epos: usize = 0;
    proof {
        assert(cs.skip(0) =~= cs);
        assert(av.skip(0) =~= av);
        assert(ev.skip(0) =~= ev);
        if replay_rec(base@, cs, av, ev, 0) is Some {
            assert(Seq::<u8>::empty() + replay_rec(base@, cs, av, ev, 0)->Some_0 =~= replay_rec(
                base@,
                cs,
                av,
                ev,
                0,
            )->Some_0);
        }
    }
    while k < ctrls.len()
        invariant
            k <= cs.len(),
            ctrls@ == cs,
            add@ == av,
            extra@ == ev,
            parse_patch(patch@) == Some(
                PatchParts { ctrls: cs, addc: addc@, extrac: extrac@, target: target as int },
            ),
            unrle(addc@) == Some(av),
            unrle(extrac@) == Some(ev),
            apos <= av.len(),
            epos <= ev.len(),
            opos <= base@.len(),
            replay_rec(base@, cs, av, ev, 0) == (match replay_rec(
                base@,
                cs.skip(k as int),
                av.skip(apos as int),
                ev.skip(epos as int),
                opos as int,
            ) {
                Some(rest) => Some(out@ + rest),
                None => None::<Seq<u8>>,
            }),
            replay_rec(
                base@,
                cs.skip(k as int),
                av.skip(apos as int),
                ev.skip(epos as int),
                opos as int,
            ) is None ==> replay_err(base@, cs, av, ev, 0) == replay_err(
                base@,
                cs.skip(k as int),
                av.skip(apos as int),
                ev.skip(epos as int),
                opos as int,
            ),
        decreases cs.len() - k,
    {
        let ghost ck = cs.skip(k as int);
        let ghost ak = av.skip(apos as int);
        let ghost ek = ev.skip(epos as int);
        let c = ctrls[k];
        proof {
            assert(ck[0] == cs[k as int]);
        }
        if c.copy > (add.len() - apos) as u64 || c.extra > (extra.len() - epos) as u64 {
            proof {
                assert(c.copy > ak.len() || c.extra > ek.len());
                assert(replay_rec(base@, ck, ak, ek, opos as int) is None);
                assert(replay_err(base@, ck, ak, ek, opos as int) == PatchError::FormatError);
            }
            return Err(PatchError::FormatError);
        }
        let copy: usize = c.copy as usize;
        let extn: usize = c.extra as usize;
        if copy > base.len() - opos {
            proof {
                assert(!(opos as int + c.copy <= base@.len()));
                assert(replay_rec(base@, ck, ak, ek, opos as int) is None);
                assert(replay_err(base@, ck, ak, ek, opos as int) == PatchError::RangeError);
            }
            return Err(PatchError::RangeError);
        }
        let pos2: usize = opos + copy;
        let opos2: usize;
        if c.seek >= 0x8000_0000_0000_0000 {
            let mag = c.seek - 0x8000_0000_0000_0000;
            if mag > pos2 as u64 {
                proof {
                    assert(seek_val(c.seek) == -(mag as int));
                    assert(!(0 <= opos as int + c.copy + seek_val(c.seek)));
                    assert(replay_rec(base@, ck, ak, ek, opos as int) is None);
                    assert(replay_err(base@, ck, ak, ek, opos as int) == PatchError::RangeError);
                }
                return Err(PatchError::RangeError);
            }
            opos2 = pos2 - mag as usize;
        } else {
            if c.seek > (base.len() - pos2) as u64 {
                proof {
                    assert(seek_val(c.seek) == c.seek as int);
                    assert(!(opos as int + c.copy + seek_val(c.seek) <= base@.len()));
                    assert(replay_rec(base@, ck, ak, ek, opos as int) is None);
                    assert(replay_err(base@, ck, ak, ek, opos as int) == PatchError::RangeError);
                }
                return Err(PatchError::RangeError);
            }
            opos2 = pos2 + c.seek as usize;
        }
        proof {
            assert(opos2 as int == opos as int + c.copy + seek_val(c.seek));
            assert(0 <= opos2 as int <= base@.len());
        }
        let ghost out0 = out@;
        let ghost piece = Seq::new(c.copy as nat, |i: int| add8(base@[opos as int + i], ak[i]))
            + ek.take(c.extra as int);
        let mut i: usize = 0;
        while i < copy
            invariant
                i <= copy,
                copy == c.copy,
                opos + copy <= base@.len(),
                apos + copy <= add@.len(),
                opos + copy <= usize::MAX,
                apos + copy <= usize::MAX,
                out@ == out0 + Seq::new(
                    i as nat,
                    |j: int| add8(base@[opos as int + j], add@[apos as int + j]),
                ),
            decreases copy - i,
        {
            let b = add8_exec(base[opos + i], add[apos + i]);
            out.push(b);
            proof {
                assert(out@ =~= out0 + Seq::new(
                    (i + 1) as nat,
                    |j: int| add8(base@[opos as int + j], add@[apos as int + j]),
                ));
            }
            i = i + 1;
        }
        let mut i2: usize = 0;
        let ghost outc = out@;
        while i2 < extn
            invariant
                i2 <= extn,
                extn == c.extra,
                epos + extn <= extra@.len(),
                epos + extn <= usize::MAX,
                out@ == outc + extra@.subrange(epos as int, epos as int + i2 as int),
            decreases extn - i2,
        {
            out.push(extra[epos + i2]);
            proof {
                assert(out@ =~= outc + extra@.subrange(epos as int, epos as int + i2 + 1));
            }
            i2 = i2 + 1;
        }
        proof {
            assert(Seq::new(c.copy as nat, |j: int| add8(base@[opos as int + j], ak[j])) =~= Seq::new(
                c.copy as nat,
                |j: int| add8(base@[opos as int + j], add@[apos as int + j]),
            ));
            assert(ek.take(c.extra as int) =~= extra@.subrange(
                epos as int,
                epos as int + c.extra as int,
            ));
            assert(out@ =~= out0 + piece);
            assert(ck.drop_first() =~= cs.skip(k + 1));
            assert(ak.skip(c.copy as int) =~= av.skip(apos as int + c.copy));
            assert(ek.skip(c.extra as int) =~= ev.skip(epos as int + c.extra));
            let inner = replay_rec(
                base@,
                cs.skip(k + 1),
                av.skip(apos as int + c.copy),
                ev.skip(epos as int + c.extra),
                opos2 as int,
            );
            assert(replay_rec(base@, ck, ak, ek, opos as int) == (match inner {
                Some(rest2) => Some(piece + rest2),
                None => None::<Seq<u8>>,
            }));
            if inner is Some {
                assert(out0 + (piece + inner->Some_0) =~= (out0 + piece) + inner->Some_0);
            } else {
                assert(replay_err(base@, ck, ak, ek, opos as int) == replay_err(
                    base@,
                    cs.skip(k + 1),
                    av.skip(apos as int + c.copy),
                    ev.skip(epos as int + c.extra),
                    opos2 as int,
                ));
            }
        }
        k = k + 1;
        apos = apos + copy;
        epos = epos + extn;
        opos = opos2;
    }
    proof {
        assert(cs.skip(k as int) =~= Seq::<Ctrl>::empty());
    }
    if apos != add.len() || epos != extra.len() {
        proof {
            assert(av.skip(apos as int).len() != 0 || ev.skip(epos as int).len() != 0);
            assert(replay_rec(
                base@,
                cs.skip(k as int),
                av.skip(apos as int),
                ev.skip(epos as int),
                opos as int,
            ) is None);
        }
        return Err(PatchError::FormatError);
    }
    proof {
        assert(av.skip(apos as int) =~= Seq::<u8>::empty());
        assert(ev.skip(epos as int) =~= Seq::<u8>::empty());
        assert(replay_rec(
            base@,
            cs.skip(k as int),
            av.skip(apos as int),
            ev.skip(epos as int),
            opos as int,
        ) == Some(Seq::<u8>::empty()));
        assert(out@ + Seq::<u8>::empty() =~= out@);
        assert(replay_rec(base@, cs, av, ev, 0) == Some(out@));
    }
    if out.len() as u64 != target {
        return Err(PatchError::RangeError);
    }
    Ok(out)
}

} // verus!
