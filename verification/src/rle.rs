//! The pluggable compression stage for the delta and literal streams: a
//! zero-run-length code. A non-zero byte stands for itself; a zero byte is
//! followed by a count byte and stands for that many zero bytes. A zero run
//! of count zero is rejected, so every token decodes to at least one byte.
//! Delta streams are dominated by long zero runs, which this crushes, while
//! arbitrary literal bytes cost at most a factor of two.

use vstd::prelude::*;

verus! {

/// Decoding of a zero-run-length stream; `None` marks a stream that is cut
/// inside a token or holds an empty run token.
pub open spec fn unrle(s: Seq<u8>) -> Option<Seq<u8>>
    decreases s.len(),
{
    if s.len() == 0 {
        Some(Seq::empty())
    } else if s[0] != 0 {
        match unrle(s.drop_first()) {
            Some(r) => Some(seq![s[0]] + r),
            None => None,
        }
    } else if s.len() < 2 || s[1] == 0 {
        None
    } else {
        match unrle(s.skip(2)) {
            Some(r) => Some(Seq::new(s[1] as nat, |i: int| 0u8) + r),
            None => None,
        }
    }
}

/// Decodable streams compose: decoding a concatenation concatenates the
/// decodings.
pub proof fn lemma_unrle_append(a: Seq<u8>, b: Seq<u8>, x: Seq<u8>, y: Seq<u8>)
    requires
        unrle(a) == Some(x),
        unrle(b) == Some(y),
    ensures
        unrle(a + b) == Some(x + y),
    decreases a.len(),
{
    if a.len() == 0 {
        assert(a + b =~= b);
        assert(x =~= Seq::<u8>::empty());
        assert(x + y =~= y);
    } else {
        let ab = a + b;
        assert(ab[0] == a[0]);
        if a[0] != 0 {
            let r = unrle(a.drop_first())->Some_0;
            lemma_unrle_append(a.drop_first(), b, r, y);
            assert(ab.drop_first() =~= a.drop_first() + b);
            assert(seq![a[0]] + (r + y) =~= (seq![a[0]] + r) + y);
            assert(x =~= seq![a[0]] + r);
        } else {
            assert(a.len() >= 2 && a[1] != 0);
            assert(ab[1] == a[1]);
            let r = unrle(a.skip(2))->Some_0;
            lemma_unrle_append(a.skip(2), b, r, y);
            assert(ab.skip(2) =~= a.skip(2) + b);
            let zeros = Seq::new(a[1] as nat, |i: int| 0u8);
            assert(zeros + (r + y) =~= (zeros + r) + y);
            assert(x =~= zeros + r);
        }
    }
}

/// Cutting a decodable stream anywhere strictly shortens (or breaks) what it
/// decodes to: every token decodes to at least one byte.
pub proof fn lemma_unrle_truncated(s: Seq<u8>, m: int)
    requires
        unrle(s) is Some,
        0 <= m < s.len(),
    ensures
        unrle(s.take(m)) is None || unrle(s.take(m))->Some_0.len() < unrle(s)->Some_0.len(),
    decreases s.len(),
{
    let d = unrle(s)->Some_0;
    if s[0] != 0 {
        let r = unrle(s.drop_first())->Some_0;
        assert(d == seq![s[0]] + r);
        if m == 0 {
            assert(s.take(0) =~= Seq::<u8>::empty());
            assert(d.len() >= 1);
        } else {
            assert(s.take(m)[0] == s[0]);
            assert(s.take(m).drop_first() =~= s.drop_first().take(m - 1));
            lemma_unrle_truncated(s.drop_first(), m - 1);
        }
    } else {
        assert(s.len() >= 2 && s[1] != 0);
        let r = unrle(s.skip(2))->Some_0;
        let zeros = Seq::new(s[1] as nat, |i: int| 0u8);
        assert(d == zeros + r);
        if m == 0 {
            assert(s.take(0) =~= Seq::<u8>::empty());
            assert(d.len() >= 1);
        } else if m == 1 {
            assert(s.take(1)[0] == 0);
            assert(unrle(s.take(1)) is None);
        } else {
            assert(s.take(m)[0] == s[0] && s.take(m)[1] == s[1]);
            assert(s.take(m).skip(2) =~= s.skip(2).take(m - 2));
            lemma_unrle_truncated(s.skip(2), m - 2);
        }
    }
}

/// Encode `s` with the zero-run-length code. The result decodes back to `s`
/// and is at most twice as long.
pub fn rle_compress(s: &Vec<u8>) -> (out: Vec<u8>)
    ensures
        unrle(out@) == Some(s@),
        out@.len() <= 2 * s@.len(),
{
    let mut out: Vec<u8> = Vec::new();
    let mut p: usize = 0;
    while p < s.len()
        invariant
            p <= s@.len(),
            unrle(out@) == Some(s@.take(p as int)),
            out@.len() <= 2 * p,
        decreases s@.len() - p,
    {
        if s[p] != 0 {
            let ghost out0 = out@;
            out.push(s[p]);
            proof {
                assert(out@ =~= out0 + seq![s@[p as int]]);
                assert(unrle(seq![s@[p as int]]) == Some(seq![s@[p as int]])) by {
                    reveal_with_fuel(unrle, 3);
                    assert(seq![s@[p as int]].drop_first() =~= Seq::<u8>::empty());
                    assert(seq![s@[p as int]] + Seq::<u8>::empty() =~= seq![s@[p as int]]);
                }
                lemma_unrle_append(out0, seq![s@[p as int]], s@.take(p as int), seq![s@[p as int]]);
                assert(s@.take(p as int) + seq![s@[p as int]] =~= s@.take(p + 1));
            }
            p = p + 1;
        } else {
            let start = p;
            let mut n: u8 = 0;
            while p < s.len() && n < 255 && s[p] == 0
                invariant
                    start <= p <= s@.len(),
                    n == p - start,
                    forall|j: int| start <= j < p ==> s@[j] == 0,
                decreases s@.len() - p,
            {
                n = n + 1;
                p = p + 1;
            }
            let ghost out0 = out@;
            out.push(0);
            out.push(n);
            proof {
                let tok = seq![0u8, n];
                assert(out@ =~= out0 + tok);
                let zeros = Seq::new(n as nat, |i: int| 0u8);
                assert(unrle(tok) == Some(zeros)) by {
                    reveal_with_fuel(unrle, 3);
                    assert(tok[0] == 0 && tok[1] == n && n != 0);
                    assert(tok.skip(2) =~= Seq::<u8>::empty());
                    assert(zeros + Seq::<u8>::empty() =~= zeros);
                }
                lemma_unrle_append(out0, tok, s@.take(start as int), zeros);
                assert(s@.take(start as int) + zeros =~= s@.take(p as int));
            }
        }
    }
    proof {
        assert(s@.take(p as int) =~= s@);
    }
    out
}

/// Decode a zero-run-length stream; `None` where the stream is cut inside a
/// token or holds an empty run token.
pub fn rle_decompress(s: &Vec<u8>) -> (r: Option<Vec<u8>>)
    ensures
        match r {
            Some(out) => unrle(s@) == Some(out@),
            None => unrle(s@) is None,
        },
{
    let mut out: Vec<u8> = Vec::new();
    let mut p: usize = 0;
    proof {
        assert(s@.skip(0) =~= s@);
        if unrle(s@) is Some {
            assert(Seq::<u8>::empty() + unrle(s@)->Some_0 =~= unrle(s@)->Some_0);
        }
    }
    while p < s.len()
        invariant
            p <= s@.len(),
            unrle(s@) == (match unrle(s@.skip(p as int)) {
                Some(rest) => Some(out@ + rest),
                None => None::<Seq<u8>>,
            }),
        decreases s@.len() - p,
    {
        let ghost rem = s@.skip(p as int);
        if s[p] != 0 {
            let ghost out0 = out@;
            out.push(s[p]);
            proof {
                assert(rem[0] == s@[p as int]);
                assert(rem.drop_first() =~= s@.skip(p + 1));
                assert forall|rest: Seq<u8>|
                    unrle(s@.skip(p + 1)) == Some(rest) implies out@ + rest =~= out0 + (seq![
                    s@[p as int],
                ] + rest) by {
                    assert(out@ =~= out0 + seq![s@[p as int]]);
                }
            }
            p = p + 1;
        } else {
            if p + 1 >= s.len() || s[p + 1] == 0 {
                proof {
                    assert(rem[0] == 0);
                    assert(rem.len() < 2 || rem[1] == 0);
                    assert(unrle(rem) is None);
                }
                return None;
            }
            let n = s[p + 1];
            let ghost out0 = out@;
            let mut i: u8 = 0;
            while i < n
                invariant
                    i <= n,
                    out@ == out0 + Seq::new(i as nat, |j: int| 0u8),
                decreases n - i,
            {
                out.push(0);
                proof {
                    assert(out@ =~= out0 + Seq::new((i + 1) as nat, |j: int| 0u8));
                }
                i = i + 1;
            }
            proof {
                assert(rem[0] == 0 && rem[1] == s@[p + 1] && rem[1] != 0);
                assert(rem.skip(2) =~= s@.skip(p + 2));
                let zeros = Seq::new(n as nat, |j: int| 0u8);
                assert(out@ == out0 + zeros);
                assert forall|rest: Seq<u8>|
                    unrle(s@.skip(p + 2)) == Some(rest) implies out@ + rest =~= out0 + (zeros
                    + rest) by {}
            }
            p = p + 2;
        }
    }
    proof {
        assert(s@.skip(p as int) =~= Seq::<u8>::empty());
        assert(out@ + Seq::<u8>::empty() =~= out@);
    }
    Some(out)
}

} // verus!
