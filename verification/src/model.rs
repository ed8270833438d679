//! The mathematical model of a patch: control records, byte-wise delta
//! arithmetic, and the replay semantics that turns a base buffer plus the
//! three decoded streams back into the reconstructed buffer.

use vstd::prelude::*;

verus! {

/// Errors surfaced when a patch cannot be applied.
#[derive(Clone, Copy, Debug, PartialEq, Eq, Structural)]
pub enum PatchError {
    /// Malformed or truncated container: bad magic, inconsistent declared
    /// lengths, or a stream that underruns or is left over during replay.
    FormatError,
    /// A control record asks for a copy or a seek outside the base buffer,
    /// or the reconstructed length does not match the declared target length.
    RangeError,
    /// An inner compressed stream cannot be decoded.
    CompressionError,
}

/// One playback instruction: copy `copy` bytes from the base-buffer cursor
/// (adding the next `copy` delta bytes), append the next `extra` literal
/// bytes, then move the cursor by the signed offset encoded in `seek`.
#[derive(Clone, Copy, Debug, PartialEq, Eq, Structural)]
pub struct Ctrl {
    pub copy: u64,
    pub extra: u64,
    /// Sign-magnitude word: the top bit set means a negative offset whose
    /// magnitude is the remaining 63 bits.
    pub seek: u64,
}

/// The signed cursor offset that a seek word denotes.
pub open spec fn seek_val(w: u64) -> int {
    if w >= 0x8000_0000_0000_0000 {
        -((w - 0x8000_0000_0000_0000) as int)
    } else {
        w as int
    }
}

/// Byte addition modulo 256: reconstruction applies a delta to a base byte.
pub open spec fn add8(a: u8, d: u8) -> u8 {
    if a + d < 256 {
        (a + d) as u8
    } else {
        (a + d - 256) as u8
    }
}

/// Byte subtraction modulo 256: the delta that takes base byte `o` to `n`.
pub open spec fn sub8(n: u8, o: u8) -> u8 {
    if n >= o {
        (n - o) as u8
    } else {
        ((n + 256) - o) as u8
    }
}

/// Applying the recorded delta to the base byte gives back the new byte.
pub proof fn lemma_add8_sub8(n: u8, o: u8)
    ensures
        add8(o, sub8(n, o)) == n,
{
}

/// Replay of a control-record stream against the base buffer, starting with
/// the cursor at `opos`. The records must consume the delta and literal
/// streams exactly; every copy must stay inside the base buffer; every seek
/// must leave the cursor inside `0 ..= base.len()`. `None` marks a violation.
pub open spec fn replay_rec(
    base: Seq<u8>,
    ctrls: Seq<Ctrl>,
    add: Seq<u8>,
    extra: Seq<u8>,
    opos: int,
) -> Option<Seq<u8>>
    decreases ctrls.len(),
{
    if ctrls.len() == 0 {
        if add.len() == 0 && extra.len() == 0 {
            Some(Seq::empty())
        } else {
            None
        }
    } else {
        let c = ctrls[0];
        if c.copy <= add.len() && c.extra <= extra.len() && 0 <= opos && opos + c.copy
            <= base.len() && 0 <= opos + c.copy + seek_val(c.seek) && opos + c.copy + seek_val(
            c.seek,
        ) <= base.len() {
            let piece = Seq::new(c.copy as nat, |i: int| add8(base[opos + i], add[i])) + extra.take(
                c.extra as int,
            );
            match replay_rec(
                base,
                ctrls.drop_first(),
                add.skip(c.copy as int),
                extra.skip(c.extra as int),
                opos + c.copy + seek_val(c.seek),
            ) {
                Some(rest) => Some(piece + rest),
                None => None,
            }
        } else {
            None
        }
    }
}

/// The error that a failed replay reports: a stream underrun or leftover is a
/// container fault, an out-of-bounds copy or seek is a range fault. Only
/// meaningful where `replay_rec` is `None`.
pub open spec fn replay_err(
    base: Seq<u8>,
    ctrls: Seq<Ctrl>,
    add: Seq<u8>,
    extra: Seq<u8>,
    opos: int,
) -> PatchError
    decreases ctrls.len(),
{
    if ctrls.len() == 0 {
        PatchError::FormatError
    } else {
        let c = ctrls[0];
        if c.copy > add.len() || c.extra > extra.len() {
            PatchError::FormatError
        } else if !(0 <= opos && opos + c.copy <= base.len() && 0 <= opos + c.copy + seek_val(
            c.seek,
        ) && opos + c.copy + seek_val(c.seek) <= base.len()) {
            PatchError::RangeError
        } else {
            replay_err(
                base,
                ctrls.drop_first(),
                add.skip(c.copy as int),
                extra.skip(c.extra as int),
                opos + c.copy + seek_val(c.seek),
            )
        }
    }
}

/// Where the cursor stands after every record of `ctrls` has been replayed
/// from `opos`.
pub open spec fn cursor_after(ctrls: Seq<Ctrl>, opos: int) -> int
    decreases ctrls.len(),
{
    if ctrls.len() == 0 {
        opos
    } else {
        cursor_after(ctrls.drop_first(), opos + ctrls[0].copy + seek_val(ctrls[0].seek))
    }
}

/// Appending one record, together with its slice of the delta and literal
/// streams, extends a successful replay by exactly that record's output.
pub proof fn lemma_replay_snoc(
    base: Seq<u8>,
    ctrls: Seq<Ctrl>,
    add: Seq<u8>,
    extra: Seq<u8>,
    opos: int,
    c: Ctrl,
    ca: Seq<u8>,
    ce: Seq<u8>,
)
    requires
        replay_rec(base, ctrls, add, extra, opos) is Some,
        c.copy == ca.len(),
        c.extra == ce.len(),
        0 <= cursor_after(ctrls, opos),
        cursor_after(ctrls, opos) + c.copy <= base.len(),
        0 <= cursor_after(ctrls, opos) + c.copy + seek_val(c.seek),
        cursor_after(ctrls, opos) + c.copy + seek_val(c.seek) <= base.len(),
    ensures
        replay_rec(base, ctrls.push(c), add + ca, extra + ce, opos) == Some(
            replay_rec(base, ctrls, add, extra, opos)->Some_0 + Seq::new(
                c.copy as nat,
                |i: int| add8(base[cursor_after(ctrls, opos) + i], ca[i]),
            ) + ce,
        ),
        cursor_after(ctrls.push(c), opos) == cursor_after(ctrls, opos) + c.copy + seek_val(c.seek),
    decreases ctrls.len(),
{
    if ctrls.len() == 0 {
        assert(add.len() == 0 && extra.len() == 0);
        let ctrls2 = ctrls.push(c);
        let add2 = add + ca;
        let extra2 = extra + ce;
        assert(add2 =~= ca);
        assert(extra2 =~= ce);
        assert(ctrls2[0] == c);
        assert(ctrls2.drop_first() =~= Seq::<Ctrl>::empty());
        assert(add2.skip(c.copy as int) =~= Seq::<u8>::empty());
        assert(extra2.skip(c.extra as int) =~= Seq::<u8>::empty());
        let piece = Seq::new(c.copy as nat, |i: int| add8(base[opos + i], add2[i])) + extra2.take(
            c.extra as int,
        );
        assert(replay_rec(
            base,
            Seq::<Ctrl>::empty(),
            Seq::<u8>::empty(),
            Seq::<u8>::empty(),
            opos + c.copy + seek_val(c.seek),
        ) == Some(Seq::<u8>::empty()));
        assert(replay_rec(base, ctrls2, add2, extra2, opos) == Some(piece + Seq::<u8>::empty()));
        assert(piece + Seq::<u8>::empty() =~= replay_rec(base, ctrls, add, extra, opos)->Some_0
            + Seq::new(c.copy as nat, |i: int| add8(base[cursor_after(ctrls, opos) + i], ca[i]))
            + ce);
        assert(cursor_after(ctrls2, opos) == cursor_after(
            ctrls2.drop_first(),
            opos + c.copy + seek_val(c.seek),
        ));
    } else {
        let c0 = ctrls[0];
        let opos1 = opos + c0.copy + seek_val(c0.seek);
        let ctrls1 = ctrls.drop_first();
        let add1 = add.skip(c0.copy as int);
        let extra1 = extra.skip(c0.extra as int);
        assert(replay_rec(base, ctrls1, add1, extra1, opos1) is Some);
        assert(cursor_after(ctrls, opos) == cursor_after(ctrls1, opos1));
        lemma_replay_snoc(base, ctrls1, add1, extra1, opos1, c, ca, ce);
        let ctrls2 = ctrls.push(c);
        let add2 = add + ca;
        let extra2 = extra + ce;
        assert(ctrls2[0] == c0);
        assert(ctrls2.drop_first() =~= ctrls1.push(c));
        assert(add2.skip(c0.copy as int) =~= add1 + ca);
        assert(extra2.skip(c0.extra as int) =~= extra1 + ce);
        assert(c0.copy <= add2.len() && c0.extra <= extra2.len());
        let piece0 = Seq::new(c0.copy as nat, |i: int| add8(base[opos + i], add[i]));
        let piece0b = Seq::new(c0.copy as nat, |i: int| add8(base[opos + i], add2[i]));
        assert(piece0b =~= piece0);
        assert(extra2.take(c0.extra as int) =~= extra.take(c0.extra as int));
        let rest1 = replay_rec(base, ctrls1, add1, extra1, opos1)->Some_0;
        let newpiece = Seq::new(
            c.copy as nat,
            |i: int| add8(base[cursor_after(ctrls, opos) + i], ca[i]),
        );
        assert(replay_rec(base, ctrls1.push(c), add1 + ca, extra1 + ce, opos1) == Some(
            rest1 + newpiece + ce,
        ));
        let whole = piece0 + extra.take(c0.extra as int);
        assert(replay_rec(base, ctrls2, add2, extra2, opos) == Some(
            whole + (rest1 + newpiece + ce),
        ));
        assert(whole + (rest1 + newpiece + ce) =~= (whole + rest1) + newpiece + ce);
        assert(replay_rec(base, ctrls, add, extra, opos) == Some(whole + rest1));
        assert(cursor_after(ctrls2, opos) == cursor_after(ctrls1.push(c), opos1));
    }
}

/// A successful replay consumes the literal stream whole, so replacing it by
/// any strictly shorter stream makes the same records underrun: the replay
/// fails, and it fails as a container fault.
pub proof fn lemma_replay_shorter_extra(
    base: Seq<u8>,
    ctrls: Seq<Ctrl>,
    add: Seq<u8>,
    extra: Seq<u8>,
    extra2: Seq<u8>,
    opos: int,
)
    requires
        replay_rec(base, ctrls, add, extra, opos) is Some,
        extra2.len() < extra.len(),
    ensures
        replay_rec(base, ctrls, add, extra2, opos) is None,
        replay_err(base, ctrls, add, extra2, opos) == PatchError::FormatError,
    decreases ctrls.len(),
{
    if ctrls.len() == 0 {
        assert(extra.len() == 0);
    } else {
        let c = ctrls[0];
        if c.extra > extra2.len() {
            assert(replay_rec(base, ctrls, add, extra2, opos) is None);
        } else {
            lemma_replay_shorter_extra(
                base,
                ctrls.drop_first(),
                add.skip(c.copy as int),
                extra.skip(c.extra as int),
                extra2.skip(c.extra as int),
                opos + c.copy + seek_val(c.seek),
            );
        }
    }
}

} // verus!
