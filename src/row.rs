//! One line of four cells: compressing it toward column 0 and merging equal neighbours.

use vstd::arithmetic::power2::{lemma2_to64, lemma_pow2_strictly_increases, lemma_pow2_unfold, pow2};
use vstd::prelude::*;

verus! {

/// Exponents strictly below this bound may be moved; a merge then yields at most the bound.
pub const MAX_EXPONENT: u8 = 32;

/// The nonzero values of `s`, in order.
pub open spec fn tiles_of(s: Seq<u8>) -> Seq<u8>
    decreases s.len(),
{
    if s.len() == 0 {
        Seq::<u8>::empty()
    } else {
        let p = tiles_of(s.drop_last());
        if s.last() == 0 {
            p
        } else {
            p.push(s.last())
        }
    }
}

/// `s` followed by zeros up to length `n`.
pub open spec fn pad_zeros(s: Seq<u8>, n: nat) -> Seq<u8> {
    s + Seq::new((n - s.len()) as nat, |i: int| 0u8)
}

/// Greedy left-to-right merge of a list of tiles: two equal neighbours become one tile of the
/// next exponent, and a merged tile takes part in no further merge.
pub open spec fn combine(t: Seq<u8>) -> Seq<u8>
    decreases t.len(),
{
    if t.len() < 2 {
        t
    } else if t[0] == t[1] {
        seq![(t[0] + 1) as u8] + combine(t.subrange(2, t.len() as int))
    } else {
        seq![t[0]] + combine(t.subrange(1, t.len() as int))
    }
}

/// The points earned by `combine(t)`: `2^(v+1)` for every merge of two tiles of exponent `v`.
pub open spec fn combine_score(t: Seq<u8>) -> nat
    decreases t.len(),
{
    if t.len() < 2 {
        0
    } else if t[0] == t[1] {
        pow2((t[0] + 1) as nat) + combine_score(t.subrange(2, t.len() as int))
    } else {
        combine_score(t.subrange(1, t.len() as int))
    }
}

/// The line after a push toward column 0.
pub open spec fn slid(s: Seq<u8>) -> Seq<u8> {
    pad_zeros(combine(tiles_of(s)), s.len())
}

/// The points earned by a push of the line toward column 0.
pub open spec fn slide_score(s: Seq<u8>) -> nat {
    combine_score(tiles_of(s))
}

/// Every value of `s` may take part in a merge without passing `MAX_EXPONENT`.
pub open spec fn below_limit(s: Seq<u8>) -> bool {
    forall|i: int| 0 <= i < s.len() ==> s[i] < MAX_EXPONENT
}

/// Every value of `s` is at most `MAX_EXPONENT`.
pub open spec fn at_most_limit(s: Seq<u8>) -> bool {
    forall|i: int| 0 <= i < s.len() ==> s[i] <= MAX_EXPONENT
}

/// `pow2` does not decrease.
proof fn lemma_pow2_monotone(a: nat, b: nat)
    requires
        a <= b,
    ensures
        pow2(a) <= pow2(b),
{
    if a < b {
        lemma_pow2_strictly_increases(a, b);
    }
}

/// The tiles of a line are nonzero, no more than its cells, and keep its bound.
pub proof fn lemma_tiles_of_facts(s: Seq<u8>)
    ensures
        tiles_of(s).len() <= s.len(),
        forall|i: int| 0 <= i < tiles_of(s).len() ==> tiles_of(s)[i] != 0,
        below_limit(s) ==> below_limit(tiles_of(s)),
    decreases s.len(),
{
    if s.len() > 0 {
        lemma_tiles_of_facts(s.drop_last());
        if below_limit(s) {
            assert(below_limit(s.drop_last()));
        }
    }
}

/// Merging never lengthens a list of tiles, yields nonzero exponents at most the limit,
/// and earns at most `2^MAX_EXPONENT` per tile.
pub proof fn lemma_combine_facts(t: Seq<u8>)
    requires
        below_limit(t),
        forall|i: int| 0 <= i < t.len() ==> t[i] != 0,
    ensures
        combine(t).len() <= t.len(),
        at_most_limit(combine(t)),
        forall|i: int| 0 <= i < combine(t).len() ==> combine(t)[i] != 0,
        combine_score(t) <= t.len() * pow2(MAX_EXPONENT as nat),
    decreases t.len(),
{
    if t.len() >= 2 {
        if t[0] == t[1] {
            let rest = t.subrange(2, t.len() as int);
            lemma_combine_facts(rest);
            lemma_pow2_monotone((t[0] + 1) as nat, MAX_EXPONENT as nat);
            assert(combine(t) == seq![(t[0] + 1) as u8] + combine(rest));
            let m = pow2(MAX_EXPONENT as nat);
            assert((rest.len() as int) * m + m <= (t.len() as int) * m) by (nonlinear_arith)
                requires rest.len() + 2 == t.len(), m >= 0;
        } else {
            let rest = t.subrange(1, t.len() as int);
            lemma_combine_facts(rest);
            assert(combine(t) == seq![t[0]] + combine(rest));
            let m = pow2(MAX_EXPONENT as nat);
            assert((rest.len() as int) * m <= (t.len() as int) * m) by (nonlinear_arith)
                requires rest.len() + 1 == t.len(), m >= 0;
        }
    }
}

/// Merging never lengthens a list.
pub proof fn lemma_combine_len(t: Seq<u8>)
    ensures
        combine(t).len() <= t.len(),
    decreases t.len(),
{
    if t.len() >= 2 {
        if t[0] == t[1] {
            lemma_combine_len(t.subrange(2, t.len() as int));
        } else {
            lemma_combine_len(t.subrange(1, t.len() as int));
        }
    }
}

/// A push keeps the length of a line.
pub proof fn lemma_slid_len(s: Seq<u8>)
    ensures
        slid(s).len() == s.len(),
{
    lemma_tiles_of_facts(s);
    lemma_combine_len(tiles_of(s));
}

/// `s` holds two equal nonzero neighbours.
pub open spec fn has_pair(s: Seq<u8>) -> bool {
    exists|i: int| 0 <= i < s.len() - 1 && #[trigger] s[i] != 0 && s[i] == s[i + 1]
}

/// Every value of `s` is nonzero.
pub open spec fn all_nonzero(s: Seq<u8>) -> bool {
    forall|i: int| 0 <= i < s.len() ==> #[trigger] s[i] != 0
}

/// Every value of `s` is zero.
pub open spec fn all_zero(s: Seq<u8>) -> bool {
    forall|i: int| 0 <= i < s.len() ==> #[trigger] s[i] == 0
}

/// The tiles of two joined lines are the tiles of each, joined.
pub proof fn lemma_tiles_of_append(a: Seq<u8>, b: Seq<u8>)
    ensures
        tiles_of(a + b) == tiles_of(a) + tiles_of(b),
    decreases b.len(),
{
    if b.len() == 0 {
        assert(a + b == a);
        assert(tiles_of(b) + Seq::<u8>::empty() == tiles_of(b));
        assert(tiles_of(a) + tiles_of(b) == tiles_of(a));
    } else {
        lemma_tiles_of_append(a, b.drop_last());
        assert((a + b).drop_last() == a + b.drop_last());
        if b.last() != 0 {
            assert(tiles_of(a) + tiles_of(b.drop_last()).push(b.last()) == (tiles_of(a)
                + tiles_of(b.drop_last())).push(b.last()));
        }
    }
}

/// A line without empty cells is its own list of tiles.
pub proof fn lemma_tiles_of_nonzero(s: Seq<u8>)
    requires
        all_nonzero(s),
    ensures
        tiles_of(s) == s,
    decreases s.len(),
{
    if s.len() > 0 {
        lemma_tiles_of_nonzero(s.drop_last());
        assert(s.drop_last().push(s.last()) == s);
    }
}

/// A line of empty cells has no tiles.
pub proof fn lemma_tiles_of_zero(s: Seq<u8>)
    requires
        all_zero(s),
    ensures
        tiles_of(s) == Seq::<u8>::empty(),
    decreases s.len(),
{
    if s.len() > 0 {
        lemma_tiles_of_zero(s.drop_last());
    }
}

/// A list of tiles without equal neighbours merges into itself.
pub proof fn lemma_combine_no_pair(t: Seq<u8>)
    requires
        all_nonzero(t),
        !has_pair(t),
    ensures
        combine(t) == t,
    decreases t.len(),
{
    if t.len() >= 2 {
        let rest = t.subrange(1, t.len() as int);
        assert(t[0] != t[1]);
        assert forall|i: int| 0 <= i < rest.len() - 1 && #[trigger] rest[i] != 0 implies rest[i]
            != rest[i + 1] by {
            assert(t[i + 1] != t[i + 2]);
        }
        lemma_combine_no_pair(rest);
        assert(seq![t[0]] + rest == t);
    }
}

/// The tiles of a line made of nonzero values followed by zeros are those values.
pub proof fn lemma_tiles_of_packed(s: Seq<u8>, m: Seq<u8>)
    requires
        s == pad_zeros(m, s.len()),
        m.len() <= s.len(),
        all_nonzero(m),
    ensures
        tiles_of(s) == m,
{
    let z = Seq::new((s.len() - m.len()) as nat, |i: int| 0u8);
    lemma_tiles_of_append(m, z);
    lemma_tiles_of_nonzero(m);
    lemma_tiles_of_zero(z);
    assert(m + Seq::<u8>::empty() == m);
}

/// A list with two equal nonzero neighbours loses at least one tile when merged.
pub proof fn lemma_combine_shrinks(t: Seq<u8>)
    requires
        has_pair(t),
    ensures
        combine(t).len() < t.len(),
    decreases t.len(),
{
    let i = choose|i: int| 0 <= i < t.len() - 1 && #[trigger] t[i] != 0 && t[i] == t[i + 1];
    if t[0] == t[1] {
        lemma_combine_len(t.subrange(2, t.len() as int));
    } else {
        let rest = t.subrange(1, t.len() as int);
        assert(rest[i - 1] != 0 && rest[i - 1] == rest[i]);
        lemma_combine_shrinks(rest);
    }
}

/// A line of tiles followed by zeros is left as it is exactly when no two equal tiles are
/// neighbours.
pub proof fn lemma_slid_settled(s: Seq<u8>, m: Seq<u8>)
    requires
        s == pad_zeros(m, s.len()),
        m.len() <= s.len(),
        all_nonzero(m),
    ensures
        tiles_of(s) == m,
        slid(s) == s <==> !has_pair(s),
{
    lemma_tiles_of_packed(s, m);
    if has_pair(s) {
        let i = choose|i: int| 0 <= i < s.len() - 1 && #[trigger] s[i] != 0 && s[i] == s[i + 1];
        assert(m[i] != 0 && m[i] == m[i + 1]);
        lemma_combine_shrinks(m);
        let j = combine(m).len() as int;
        assert(slid(s)[j] == 0 && s[j] == m[j]);
    } else {
        assert forall|i: int| 0 <= i < m.len() - 1 && #[trigger] m[i] != 0 implies m[i] != m[i
            + 1] by {
            assert(s[i] == m[i] && s[i + 1] == m[i + 1]);
        }
        lemma_combine_no_pair(m);
    }
}

/// Moves the nonzero values of `row` to its front, keeping their order; also gives their number.
pub fn compress_row(row: [u8; 4]) -> (r: ([u8; 4], usize))
    ensures
        r.0@ == pad_zeros(tiles_of(row@), 4),
        r.1 == tiles_of(row@).len(),
        r.0@.take(r.1 as int) == tiles_of(row@),
{
    let mut out: [u8; 4] = [0u8; 4];
    let mut k: usize = 0;
    for j in 0..4usize
        invariant
            k == tiles_of(row@.take(j as int)).len(),
            k <= j,
            forall|i: int| 0 <= i < k ==> out[i] == tiles_of(row@.take(j as int))[i],
            forall|i: int| k <= i < 4 ==> out[i] == 0,
    {
        proof {
            assert(row@.take(j + 1).drop_last() == row@.take(j as int));
            lemma_tiles_of_facts(row@.take(j as int));
        }
        if row[j] != 0 {
            out[k] = row[j];
            k = k + 1;
        }
    }
    assert(row@.take(4) == row@);
    assert(out@ == pad_zeros(tiles_of(row@), 4));
    assert(out@.take(k as int) == tiles_of(row@));
    (out, k)
}

/// `2^e` as a machine integer.
pub fn pow2_u64(e: u8) -> (r: u64)
    requires
        e <= MAX_EXPONENT,
    ensures
        r == pow2(e as nat),
{
    let mut r: u64 = 1;
    proof {
        lemma2_to64();
    }
    for i in 0..e
        invariant
            e <= MAX_EXPONENT,
            r == pow2(i as nat),
    {
        proof {
            lemma_pow2_unfold((i + 1) as nat);
            lemma_pow2_monotone((i + 1) as nat, 32);
            lemma2_to64();
        }
        r = r * 2;
    }
    r
}

/// Merges equal neighbours among the first `k` cells of a compressed row, left to right, and
/// packs the result toward column 0. Returns the new row and the points earned.
pub fn merge_row(packed: [u8; 4], k: usize) -> (r: ([u8; 4], u64))
    requires
        k <= 4,
        forall|i: int| 0 <= i < k ==> packed[i] != 0 && packed[i] < MAX_EXPONENT,
    ensures
        r.0@ == pad_zeros(combine(packed@.take(k as int)), 4),
        r.1 == combine_score(packed@.take(k as int)),
{
    let ghost t = packed@.take(k as int);
    proof {
        lemma_combine_facts(t);
        lemma2_to64();
        let m = pow2(MAX_EXPONENT as nat);
        assert((t.len() as int) * m <= 4 * m) by (nonlinear_arith)
            requires t.len() <= 4, m >= 0;
        assert(t.subrange(0, k as int) == t);
    }
    let mut out: [u8; 4] = [0u8; 4];
    let mut score: u64 = 0;
    let mut i: usize = 0;
    let mut w: usize = 0;
    assert(out@.take(0) == Seq::<u8>::empty());
    while i < k
        invariant
            k <= 4,
            t == packed@.take(k as int),
            forall|j: int| 0 <= j < k ==> packed[j] != 0 && packed[j] < MAX_EXPONENT,
            combine_score(t) <= 4 * 0x100000000,
            w <= i <= k,
            combine(t) == out@.take(w as int) + combine(t.subrange(i as int, k as int)),
            combine_score(t) == score + combine_score(t.subrange(i as int, k as int)),
            forall|j: int| w <= j < 4 ==> out[j] == 0,
        decreases k - i,
    {
        let ghost u = t.subrange(i as int, k as int);
        let ghost old_out = out@;
        if i + 1 < k && packed[i] == packed[i + 1] {
            let v: u8 = packed[i] + 1;
            let gain = pow2_u64(v);
            assert(u[0] == packed[i as int] && u[1] == packed[i + 1]);
            assert(u.subrange(2, u.len() as int) == t.subrange(i + 2, k as int));
            assert(combine_score(u) == gain + combine_score(t.subrange(i + 2, k as int)));
            assert(combine(u) == seq![v] + combine(t.subrange(i + 2, k as int)));
            out[w] = v;
            score = score + gain;
            i = i + 2;
        } else {
            assert(u[0] == packed[i as int]);
            assert(i + 1 < k ==> u[1] == packed[i + 1]);
            assert(u.subrange(1, u.len() as int) == t.subrange(i + 1, k as int));
            assert(combine(u) == seq![packed[i as int]] + combine(t.subrange(i + 1, k as int)));
            out[w] = packed[i];
            i = i + 1;
        }
        assert(out@.take(w + 1) == old_out.take(w as int).push(out[w as int]));
        w = w + 1;
    }
    assert(t.subrange(k as int, k as int).len() == 0);
    assert(out@ == pad_zeros(combine(t), 4));
    (out, score)
}

/// Pushes `row` toward column 0: compress, merge, and the packing that closes the gaps.
/// Returns the new row and the points earned.
pub fn slide_row(row: [u8; 4]) -> (r: ([u8; 4], u64))
    requires
        below_limit(row@),
    ensures
        r.0@ == slid(row@),
        r.1 == slide_score(row@),
        at_most_limit(r.0@),
{
    let (packed, k) = compress_row(row);
    proof {
        lemma_tiles_of_facts(row@);
        lemma_combine_facts(tiles_of(row@));
        assert forall|i: int| 0 <= i < k implies packed[i] != 0 && packed[i] < MAX_EXPONENT by {
            assert(packed@.take(k as int)[i] == packed[i]);
        }
    }
    let (merged, score) = merge_row(packed, k);
    assert(at_most_limit(merged@));
    (merged, score)
}

/// Whether two rows hold the same values.
pub fn same_row(a: &[u8; 4], b: &[u8; 4]) -> (r: bool)
    ensures
        r == (a@ == b@),
{
    for i in 0..4usize
        invariant
            forall|j: int| 0 <= j < i ==> a[j] == b[j],
    {
        if a[i] != b[i] {
            return false;
        }
    }
    assert(a@ == b@);
    true
}

} // verus!
