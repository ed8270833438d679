//! The suffix sorter: a rank-ordered index of all suffixes of the base
//! buffer, built by the doubling technique as iterative passes over two flat
//! arrays. Single bytes are ranked first; each round then re-ranks by the
//! pair (rank at `i`, rank at `i + h`) with a sentinel below every rank past
//! the end, doubling `h` until all ranks are distinct or `h` covers the
//! buffer. A final adjacent pass, linear once the rounds have done their
//! work, discharges the proof of the ordering invariant: the index is a
//! permutation of all positions whose adjacent entries hold suffixes in
//! lexicographic order.

use vstd::prelude::*;
use vstd::pervasive::VecAdditionalExecFns;

verus! {

/// A well-formed suffix index for a buffer of length `n`: one entry per
/// position, every entry a position, no position twice.
pub open spec fn sa_wf(sa: Seq<usize>, n: nat) -> bool {
    &&& sa.len() == n
    &&& forall|k: int| 0 <= k < sa.len() ==> (sa[k] as nat) < n
    &&& forall|k1: int, k2: int| 0 <= k1 < k2 < sa.len() ==> sa[k1] != sa[k2]
}

/// Lexicographic order on suffixes: the suffix of `base` starting at `i` is
/// at most the one starting at `j`, byte for byte, a shorter suffix ordering
/// below any extension of itself.
pub open spec fn suffix_le(base: Seq<u8>, i: int, j: int) -> bool
    recommends
        0 <= i <= base.len(),
        0 <= j <= base.len(),
    decreases base.len() - i,
{
    if i < 0 || i >= base.len() {
        true
    } else if j < 0 || j >= base.len() {
        false
    } else if base[i] < base[j] {
        true
    } else if base[i] > base[j] {
        false
    } else {
        suffix_le(base, i + 1, j + 1)
    }
}

/// Any two suffixes are comparable.
pub proof fn lemma_suffix_le_total(base: Seq<u8>, i: int, j: int)
    ensures
        suffix_le(base, i, j) || suffix_le(base, j, i),
    decreases base.len() - i,
{
    if 0 <= i < base.len() && 0 <= j < base.len() && base[i] == base[j] {
        lemma_suffix_le_total(base, i + 1, j + 1);
    }
}

/// Lexicographic order across two buffers: the suffix of `a` starting at
/// `i` is at most the suffix of `b` starting at `j`.
pub open spec fn xle(a: Seq<u8>, i: int, b: Seq<u8>, j: int) -> bool
    decreases a.len() - i,
{
    if i < 0 || i >= a.len() {
        true
    } else if j < 0 || j >= b.len() {
        false
    } else if a[i] < b[j] {
        true
    } else if a[i] > b[j] {
        false
    } else {
        xle(a, i + 1, b, j + 1)
    }
}

/// Length of the longest common prefix of the suffix of `a` at `i` and the
/// suffix of `b` at `j`.
pub open spec fn lcp(a: Seq<u8>, i: int, b: Seq<u8>, j: int) -> nat
    decreases a.len() - i,
{
    if i < 0 || j < 0 || i >= a.len() || j >= b.len() || a[i] != b[j] {
        0
    } else {
        (1 + lcp(a, i + 1, b, j + 1)) as nat
    }
}

/// Within one buffer the two order spellings agree.
pub proof fn lemma_suffix_le_is_xle(base: Seq<u8>, i: int, j: int)
    ensures
        suffix_le(base, i, j) == xle(base, i, base, j),
    decreases base.len() - i,
{
    if 0 <= i < base.len() && 0 <= j < base.len() && base[i] == base[j] {
        lemma_suffix_le_is_xle(base, i + 1, j + 1);
    }
}

/// The lexicographic order is transitive, across any three buffers.
pub proof fn lemma_xle_trans(
    a: Seq<u8>,
    i: int,
    b: Seq<u8>,
    j: int,
    c: Seq<u8>,
    k: int,
)
    requires
        xle(a, i, b, j),
        xle(b, j, c, k),
    ensures
        xle(a, i, c, k),
    decreases a.len() - i,
{
    if 0 <= i < a.len() && 0 <= j < b.len() && 0 <= k < c.len() && a[i] == b[j] && b[j] == c[k] {
        lemma_xle_trans(a, i + 1, b, j + 1, c, k + 1);
    }
}

/// A common prefix shifts the order comparison past itself.
pub proof fn lemma_xle_shift(a: Seq<u8>, i: int, b: Seq<u8>, j: int, l: int)
    requires
        0 <= l,
        0 <= i && i + l <= a.len(),
        0 <= j && j + l <= b.len(),
        forall|t: int| 0 <= t < l ==> #[trigger] a[i + t] == b[j + t],
    ensures
        xle(a, i, b, j) == xle(a, i + l, b, j + l),
    decreases l,
{
    if l > 0 {
        assert(a[i] == b[j]) by {
            assert(a[i + 0] == b[j + 0]);
        }
        assert(forall|t: int| 0 <= t < l - 1 ==> #[trigger] a[i + 1 + t] == b[j + 1 + t]) by {
            assert forall|t: int| 0 <= t < l - 1 implies #[trigger] a[i + 1 + t] == b[j + 1 + t] by {
                assert(a[i + (t + 1)] == b[j + (t + 1)]);
            }
        }
        lemma_xle_shift(a, i + 1, b, j + 1, l - 1);
    }
}

/// A common prefix shifts the common-prefix length past itself.
pub proof fn lemma_lcp_shift(a: Seq<u8>, i: int, b: Seq<u8>, j: int, l: int)
    requires
        0 <= l,
        0 <= i && i + l <= a.len(),
        0 <= j && j + l <= b.len(),
        forall|t: int| 0 <= t < l ==> #[trigger] a[i + t] == b[j + t],
    ensures
        lcp(a, i, b, j) == l + lcp(a, i + l, b, j + l),
    decreases l,
{
    if l > 0 {
        assert(a[i] == b[j]) by {
            assert(a[i + 0] == b[j + 0]);
        }
        assert(forall|t: int| 0 <= t < l - 1 ==> #[trigger] a[i + 1 + t] == b[j + 1 + t]) by {
            assert forall|t: int| 0 <= t < l - 1 implies #[trigger] a[i + 1 + t] == b[j + 1
                + t] by {
                assert(a[i + (t + 1)] == b[j + (t + 1)]);
            }
        }
        lemma_lcp_shift(a, i + 1, b, j + 1, l - 1);
    }
}

/// Between two suffixes that both order at most a query, the one further
/// down shares at least as long a prefix with the query.
pub proof fn lemma_lcp_below(
    a: Seq<u8>,
    u: int,
    b: Seq<u8>,
    v: int,
    q: Seq<u8>,
    p: int,
)
    requires
        xle(a, u, b, v),
        xle(b, v, q, p),
    ensures
        lcp(a, u, q, p) <= lcp(b, v, q, p),
    decreases a.len() - u,
{
    if 0 <= u < a.len() && 0 <= p < q.len() && a[u] == q[p] {
        if 0 <= v < b.len() && b[v] == a[u] {
            lemma_lcp_below(a, u + 1, b, v + 1, q, p + 1);
        }
    }
}

/// Between two suffixes that both order at least a query, the one further
/// up shares at least as long a prefix with the query.
pub proof fn lemma_lcp_above(
    a: Seq<u8>,
    u: int,
    b: Seq<u8>,
    v: int,
    q: Seq<u8>,
    p: int,
)
    requires
        xle(q, p, b, v),
        xle(b, v, a, u),
    ensures
        lcp(a, u, q, p) <= lcp(b, v, q, p),
    decreases a.len() - u,
{
    if 0 <= u < a.len() && 0 <= p < q.len() && a[u] == q[p] {
        if 0 <= v < b.len() && b[v] == a[u] {
            lemma_lcp_above(a, u + 1, b, v + 1, q, p + 1);
        }
    }
}

/// Adjacent entries of the index hold suffixes in lexicographic order.
pub open spec fn sa_sorted(base: Seq<u8>, sa: Seq<usize>) -> bool {
    forall|k: int|
        0 <= k < sa.len() - 1 ==> suffix_le(base, (#[trigger] sa[k]) as int, sa[k + 1] as int)
}

/// Position `v` appears somewhere in the index.
pub open spec fn appears(sa: Seq<usize>, v: int) -> bool {
    exists|k: int| 0 <= k < sa.len() && (#[trigger] sa[k]) == v
}

/// Every position of the buffer appears somewhere in the index.
pub open spec fn sa_onto(sa: Seq<usize>, n: nat) -> bool {
    forall|v: int| 0 <= v < n ==> #[trigger] appears(sa, v)
}

/// Swapping two entries keeps every position present.
pub proof fn lemma_onto_swap(s1: Seq<usize>, s2: Seq<usize>, n: nat, i: int, j: int)
    requires
        sa_onto(s1, n),
        0 <= i < s1.len(),
        0 <= j < s1.len(),
        s2 == s1.update(i, s1[j]).update(j, s1[i]),
    ensures
        sa_onto(s2, n),
{
    assert forall|v: int| 0 <= v < n implies #[trigger] appears(s2, v) by {
        assert(appears(s1, v));
        let k0 = choose|k: int| 0 <= k < s1.len() && (#[trigger] s1[k]) == v;
        if k0 == i {
            assert(s2[j] == v);
        } else if k0 == j {
            assert(s2[i] == v);
        } else {
            assert(s2[k0] == v);
        }
    }
}

/// The order is reflexive.
pub proof fn lemma_xle_refl(a: Seq<u8>, i: int)
    ensures
        xle(a, i, a, i),
    decreases a.len() - i,
{
    if 0 <= i < a.len() {
        lemma_xle_refl(a, i + 1);
    }
}

/// A sorted index orders every pair of entries, not only neighbours.
pub proof fn lemma_sorted_pairwise(base: Seq<u8>, sa: Seq<usize>, k1: int, k2: int)
    requires
        sa_wf(sa, base.len()),
        sa_sorted(base, sa),
        0 <= k1 <= k2 < sa.len(),
    ensures
        xle(base, sa[k1] as int, base, sa[k2] as int),
    decreases k2 - k1,
{
    if k1 == k2 {
        lemma_xle_refl(base, sa[k1] as int);
    } else {
        lemma_sorted_pairwise(base, sa, k1, k2 - 1);
        lemma_suffix_le_is_xle(base, sa[k2 - 1] as int, sa[k2] as int);
        lemma_xle_trans(
            base,
            sa[k1] as int,
            base,
            sa[k2 - 1] as int,
            base,
            sa[k2] as int,
        );
    }
}

/// Decide the lexicographic order of the suffixes at `i` and `j`.
fn suffix_le_exec(base: &Vec<u8>, i: usize, j: usize) -> (r: bool)
    requires
        i <= base@.len(),
        j <= base@.len(),
    ensures
        r == suffix_le(base@, i as int, j as int),
{
    let mut a: usize = i;
    let mut b: usize = j;
    while a < base.len() && b < base.len() && base[a] == base[b]
        invariant
            a <= base@.len(),
            b <= base@.len(),
            suffix_le(base@, i as int, j as int) == suffix_le(base@, a as int, b as int),
        decreases base@.len() - a,
    {
        a = a + 1;
        b = b + 1;
    }
    if a >= base.len() {
        true
    } else if b >= base.len() {
        false
    } else {
        base[a] < base[b]
    }
}

/// Put the index into lexicographic suffix order by adjacent swaps. Where
/// the index already is in order — which the doubling rounds leave behind —
/// this is a single linear confirmation pass.
fn order_pass(base: &Vec<u8>, sa: &mut Vec<usize>)
    requires
        sa_wf(old(sa)@, base@.len()),
        sa_onto(old(sa)@, base@.len()),
    ensures
        sa_wf(final(sa)@, base@.len()),
        sa_onto(final(sa)@, base@.len()),
        sa_sorted(base@, final(sa)@),
{
    let n = sa.len();
    let mut a: usize = 1;
    while a < n
        invariant
            1 <= a,
            n == sa@.len(),
            sa_wf(sa@, base@.len()),
            sa_onto(sa@, base@.len()),
            forall|k: int|
                0 <= k < a - 1 ==> suffix_le(base@, (#[trigger] sa@[k]) as int, sa@[k + 1] as int),
        decreases n - a,
    {
        let mut b: usize = a;
        while b > 0
            invariant
                b <= a < n,
                n == sa@.len(),
                sa_wf(sa@, base@.len()),
                sa_onto(sa@, base@.len()),
                forall|k: int|
                    0 <= k < a && k != b - 1 ==> suffix_le(
                        base@,
                        (#[trigger] sa@[k]) as int,
                        sa@[k + 1] as int,
                    ),
                b >= 1 && b + 1 <= a ==> suffix_le(base@, sa@[b - 1] as int, sa@[b + 1] as int),
            ensures
                n == sa@.len(),
                sa_wf(sa@, base@.len()),
                sa_onto(sa@, base@.len()),
                forall|k: int|
                    0 <= k < a ==> suffix_le(base@, (#[trigger] sa@[k]) as int, sa@[k + 1] as int),
            decreases b,
        {
            if suffix_le_exec(base, sa[b - 1], sa[b]) {
                break ;
            }
            proof {
                lemma_suffix_le_total(base@, sa@[b as int - 1] as int, sa@[b as int] as int);
            }
            let ghost pre = sa@;
            let x = sa[b - 1];
            let y = sa[b];
            sa.set(b - 1, y);
            sa.set(b, x);
            proof {
                lemma_onto_swap(pre, sa@, base@.len(), b as int - 1, b as int);
            }
            b = b - 1;
        }
        a = a + 1;
    }
}

/// The pair key a doubling round sorts by: the rank at `idx` and, shifted up
/// by one to leave zero as the below-everything sentinel, the rank `h`
/// positions ahead.
fn pair_key(rank: &Vec<usize>, idx: usize, h: usize, n: usize) -> (key: (usize, usize))
    requires
        rank@.len() == n,
        idx < n,
        h <= n,
        n + n <= usize::MAX,
        forall|k: int| 0 <= k < rank@.len() ==> rank@[k] <= usize::MAX / 2,
    ensures
        key.0 == rank@[idx as int],
{
    let second: usize = if idx + h < n {
        rank[idx + h] + 1
    } else {
        0
    };
    (rank[idx], second)
}

/// Build the suffix index of `base` by rank doubling, then confirm the
/// lexicographic order with a final adjacent pass.
pub fn suffix_array(base: &Vec<u8>) -> (sa: Vec<usize>)
    requires
        base@.len() + base@.len() <= usize::MAX,
    ensures
        sa_wf(sa@, base@.len()),
        sa_onto(sa@, base@.len()),
        sa_sorted(base@, sa@),
{
    let n = base.len();
    let mut sa: Vec<usize> = Vec::new();
    let mut i: usize = 0;
    while i < n
        invariant
            i <= n,
            sa@.len() == i,
            forall|k: int| 0 <= k < i ==> sa@[k] == k,
        decreases n - i,
    {
        sa.push(i);
        i = i + 1;
    }
    proof {
        assert forall|v: int| 0 <= v < n implies #[trigger] appears(sa@, v) by {
            assert(sa@[v] == v);
        }
    }
    if n == 0 {
        return sa;
    }
    let mut rank: Vec<usize> = Vec::new();
    i = 0;
    while i < n
        invariant
            i <= n,
            n == base@.len(),
            rank@.len() == i,
            forall|k: int| 0 <= k < i ==> rank@[k] <= usize::MAX / 2,
        decreases n - i,
    {
        rank.push(base[i] as usize);
        i = i + 1;
    }
    let mut h: usize = 1;
    while h < n
        invariant
            n == base@.len(),
            0 < n,
            n + n <= usize::MAX,
            1 <= h,
            sa_wf(sa@, n as nat),
            sa_onto(sa@, n as nat),
            rank@.len() == n,
            forall|k: int| 0 <= k < rank@.len() ==> rank@[k] <= usize::MAX / 2,
        decreases n - h,
    {
        // Sort positions by the doubled key; ties are left to later rounds,
        // never broken by position, so the lexicographic contract is kept.
        let mut a: usize = 1;
        while a < n
            invariant
                n == base@.len(),
                n + n <= usize::MAX,
                h <= n,
                a <= n,
                sa_wf(sa@, n as nat),
                sa_onto(sa@, n as nat),
                rank@.len() == n,
                forall|k: int| 0 <= k < rank@.len() ==> rank@[k] <= usize::MAX / 2,
            decreases n - a,
        {
            let mut b: usize = a;
            while b > 0
                invariant
                    n == base@.len(),
                    n + n <= usize::MAX,
                    h <= n,
                    b <= a < n,
                    sa_wf(sa@, n as nat),
                    sa_onto(sa@, n as nat),
                    rank@.len() == n,
                    forall|k: int| 0 <= k < rank@.len() ==> rank@[k] <= usize::MAX / 2,
                decreases b,
            {
                let kb = pair_key(&rank, sa[b], h, n);
                let ka = pair_key(&rank, sa[b - 1], h, n);
                if kb.0 < ka.0 || (kb.0 == ka.0 && kb.1 < ka.1) {
                    let ghost pre = sa@;
                    let x = sa[b - 1];
                    let y = sa[b];
                    sa.set(b - 1, y);
                    sa.set(b, x);
                    proof {
                        lemma_onto_swap(pre, sa@, n as nat, b as int - 1, b as int);
                    }
                    b = b - 1;
                } else {
                    break ;
                }
            }
            a = a + 1;
        }
        // Re-rank: equal keys share a rank, a strictly larger key opens the
        // next one.
        let mut nr: Vec<usize> = Vec::new();
        i = 0;
        while i < n
            invariant
                i <= n,
                nr@.len() == i,
                forall|k: int| 0 <= k < i ==> nr@[k] == 0,
            decreases n - i,
        {
            nr.push(0);
            i = i + 1;
        }
        let mut r: usize = 0;
        nr.set(sa[0], 0);
        let mut j: usize = 1;
        while j < n
            invariant
                n == base@.len(),
                n + n <= usize::MAX,
                h <= n,
                1 <= j <= n,
                r < j,
                sa_wf(sa@, n as nat),
                sa_onto(sa@, n as nat),
                rank@.len() == n,
                nr@.len() == n,
                forall|k: int| 0 <= k < rank@.len() ==> rank@[k] <= usize::MAX / 2,
                forall|k: int| 0 <= k < nr@.len() ==> nr@[k] <= usize::MAX / 2,
            decreases n - j,
        {
            let kc = pair_key(&rank, sa[j], h, n);
            let kp = pair_key(&rank, sa[j - 1], h, n);
            if kc.0 != kp.0 || kc.1 != kp.1 {
                r = r + 1;
            }
            nr.set(sa[j], r);
            j = j + 1;
        }
        rank = nr;
        if r == n - 1 {
            // All ranks distinct: the order is fully decided.
            break ;
        }
        if h >= n - h {
            break ;
        }
        h = h + h;
    }
    order_pass(base, &mut sa);
    sa
}

} // verus!
