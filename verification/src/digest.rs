//! Content digests: BLAKE3 over byte strings, and the lexicographic order on
//! digests that every Merkle computation sorts by.
use vstd::prelude::*;
use vstd::relations::*;

verus! {

/// The BLAKE3 digest (32 bytes) of a byte string.
pub uninterp spec fn blake3_digest(data: Seq<u8>) -> Seq<u8>;

/// Calls `blake3::hash`. Claimed: the returned 32 bytes are the BLAKE3 digest
/// of `data`, which depends on `data` alone. Feeding the same bytes to a
/// `blake3::Hasher` in several `update` calls yields the same digest, as the
/// crate documents; callers rely on that by hashing one concatenated buffer.
#[verifier::external_body]
pub(crate) fn blake3_hash(data: &[u8]) -> (out: [u8; 32])
    ensures
        out@ == blake3_digest(data@),
{
    *blake3::hash(data).as_bytes()
}

/// Lexicographic order on byte strings (a proper prefix comes first).
pub open spec fn lex_leq(a: Seq<u8>, b: Seq<u8>) -> bool
    decreases a.len(),
{
    if a.len() == 0 {
        true
    } else if b.len() == 0 {
        false
    } else if a[0] != b[0] {
        a[0] < b[0]
    } else {
        lex_leq(a.drop_first(), b.drop_first())
    }
}

/// The order by which digests are sorted before a Merkle root is built.
pub open spec fn digest_order() -> spec_fn(Seq<u8>, Seq<u8>) -> bool {
    |a: Seq<u8>, b: Seq<u8>| lex_leq(a, b)
}

/// The byte views of a sequence of digests.
pub open spec fn digest_views(s: Seq<[u8; 32]>) -> Seq<Seq<u8>> {
    s.map_values(|d: [u8; 32]| d@)
}

/// Thirty-two zero bytes: the root of an empty tree.
pub open spec fn zero_digest() -> Seq<u8> {
    Seq::new(32, |i: int| 0u8)
}

proof fn lemma_lex_reflexive(a: Seq<u8>)
    ensures
        lex_leq(a, a),
    decreases a.len(),
{
    if a.len() > 0 {
        lemma_lex_reflexive(a.drop_first());
    }
}

proof fn lemma_lex_antisymmetric(a: Seq<u8>, b: Seq<u8>)
    requires
        lex_leq(a, b),
        lex_leq(b, a),
    ensures
        a == b,
    decreases a.len(),
{
    if a.len() == 0 {
        assert(b.len() == 0);
        assert(a =~= b);
    } else {
        lemma_lex_antisymmetric(a.drop_first(), b.drop_first());
        assert(a =~= seq![a[0]] + a.drop_first());
        assert(b =~= seq![b[0]] + b.drop_first());
    }
}

proof fn lemma_lex_transitive(a: Seq<u8>, b: Seq<u8>, c: Seq<u8>)
    requires
        lex_leq(a, b),
        lex_leq(b, c),
    ensures
        lex_leq(a, c),
    decreases a.len(),
{
    if a.len() > 0 && b.len() > 0 && c.len() > 0 && a[0] == b[0] && b[0] == c[0] {
        lemma_lex_transitive(a.drop_first(), b.drop_first(), c.drop_first());
    }
}

proof fn lemma_lex_total(a: Seq<u8>, b: Seq<u8>)
    ensures
        lex_leq(a, b) || lex_leq(b, a),
    decreases a.len(),
{
    if a.len() > 0 && b.len() > 0 && a[0] == b[0] {
        lemma_lex_total(a.drop_first(), b.drop_first());
    }
}

/// The digest order is a total order.
pub proof fn lemma_digest_order_total()
    ensures
        total_ordering(digest_order()),
{
    let r = digest_order();
    assert forall|x: Seq<u8>| #[trigger] r(x, x) by {
        lemma_lex_reflexive(x);
    }
    assert forall|x: Seq<u8>, y: Seq<u8>| #[trigger] r(x, y) && #[trigger] r(y, x) implies x == y by {
        lemma_lex_antisymmetric(x, y);
    }
    assert forall|x: Seq<u8>, y: Seq<u8>, z: Seq<u8>|
        #[trigger] r(x, y) && #[trigger] r(y, z) implies r(x, z) by {
        lemma_lex_transitive(x, y, z);
    }
    assert forall|x: Seq<u8>, y: Seq<u8>| #[trigger] r(x, y) || #[trigger] r(y, x) by {
        lemma_lex_total(x, y);
    }
}

/// Once a common prefix of length `i` is passed, the comparison is that of the rests.
proof fn lemma_lex_skip(a: Seq<u8>, b: Seq<u8>, i: int)
    requires
        0 <= i <= a.len(),
        i <= b.len(),
        forall|j: int| 0 <= j < i ==> a[j] == b[j],
    ensures
        lex_leq(a, b) == lex_leq(a.skip(i), b.skip(i)),
    decreases i,
{
    if i > 0 {
        lemma_lex_skip(a.drop_first(), b.drop_first(), i - 1);
        assert(a.drop_first().skip(i - 1) =~= a.skip(i));
        assert(b.drop_first().skip(i - 1) =~= b.skip(i));
    } else {
        assert(a.skip(0) =~= a);
        assert(b.skip(0) =~= b);
    }
}

/// Whether two digests are equal, byte for byte.
pub fn same_digest(a: &[u8; 32], b: &[u8; 32]) -> (r: bool)
    ensures
        r == (a@ == b@),
{
    let mut i: usize = 0;
    while i < 32
        invariant
            0 <= i <= 32,
            a@.len() == 32,
            b@.len() == 32,
            forall|j: int| 0 <= j < i ==> a@[j] == b@[j],
        decreases 32 - i,
    {
        if a[i] != b[i] {
            return false;
        }
        i = i + 1;
    }
    proof {
        assert(a@ =~= b@);
    }
    true
}

/// `a <= b` in the digest order.
pub fn digest_le(a: &[u8; 32], b: &[u8; 32]) -> (r: bool)
    ensures
        r == lex_leq(a@, b@),
{
    let mut i: usize = 0;
    while i < 32
        invariant
            0 <= i <= 32,
            a@.len() == 32,
            b@.len() == 32,
            forall|j: int| 0 <= j < i ==> a@[j] == b@[j],
        decreases 32 - i,
    {
        if a[i] != b[i] {
            proof {
                lemma_lex_skip(a@, b@, i as int);
                assert(a@.skip(i as int)[0] == a@[i as int]);
                assert(b@.skip(i as int)[0] == b@[i as int]);
            }
            return a[i] < b[i];
        }
        i = i + 1;
    }
    proof {
        lemma_lex_skip(a@, b@, 32);
    }
    true
}

/// Appends the bytes of `s` to `buf`.
pub fn push_bytes(buf: &mut Vec<u8>, s: &[u8])
    ensures
        final(buf)@ == old(buf)@ + s@,
{
    let mut i: usize = 0;
    while i < s.len()
        invariant
            0 <= i <= s@.len(),
            buf@ == old(buf)@ + s@.take(i as int),
        decreases s@.len() - i,
    {
        buf.push(s[i]);
        proof {
            assert(old(buf)@ + s@.take(i + 1) =~= (old(buf)@ + s@.take(i as int)).push(s@[i as int]));
        }
        i = i + 1;
    }
    proof {
        assert(s@.take(s@.len() as int) =~= s@);
    }
}

/// The 64 bytes of `a` followed by `b`.
pub fn concat_digests(a: &[u8; 32], b: &[u8; 32]) -> (r: Vec<u8>)
    ensures
        r@ == a@ + b@,
{
    let mut r: Vec<u8> = Vec::new();
    let mut i: usize = 0;
    while i < 32
        invariant
            0 <= i <= 32,
            a@.len() == 32,
            r@ == a@.take(i as int),
        decreases 32 - i,
    {
        r.push(a[i]);
        proof {
            assert(a@.take(i + 1) =~= a@.take(i as int).push(a@[i as int]));
        }
        i = i + 1;
    }
    let mut j: usize = 0;
    while j < 32
        invariant
            0 <= j <= 32,
            a@.len() == 32,
            b@.len() == 32,
            r@ == a@ + b@.take(j as int),
        decreases 32 - j,
    {
        r.push(b[j]);
        proof {
            assert(b@.take(j + 1) =~= b@.take(j as int).push(b@[j as int]));
            assert(a@ + b@.take(j + 1) =~= (a@ + b@.take(j as int)).push(b@[j as int]));
        }
        j = j + 1;
    }
    proof {
        assert(a@.take(32) =~= a@);
        assert(b@.take(32) =~= b@);
    }
    r
}

proof fn lemma_views_insert(s: Seq<[u8; 32]>, p: int, x: [u8; 32])
    requires
        0 <= p <= s.len(),
    ensures
        digest_views(s.insert(p, x)) == digest_views(s).insert(p, x@),
{
    assert(digest_views(s.insert(p, x)) =~= digest_views(s).insert(p, x@));
}

/// Sorts digests into the digest order.
pub fn sort_digests(v: Vec<[u8; 32]>) -> (r: Vec<[u8; 32]>)
    ensures
        digest_views(r@) == digest_views(v@).sort_by(digest_order()),
        r@.len() == v@.len(),
{
    let ghost leq = digest_order();
    proof {
        lemma_digest_order_total();
    }
    let mut res: Vec<[u8; 32]> = Vec::new();
    let mut i: usize = 0;
    proof {
        assert(digest_views(res@) =~= digest_views(v@.take(0)));
    }
    while i < v.len()
        invariant
            0 <= i <= v@.len(),
            total_ordering(leq),
            leq == digest_order(),
            sorted_by(digest_views(res@), leq),
            digest_views(res@).to_multiset() == digest_views(v@.take(i as int)).to_multiset(),
            res@.len() == i,
        decreases v@.len() - i,
    {
        let x = v[i];
        let mut p: usize = 0;
        while p < res.len() && digest_le(&res[p], &x)
            invariant
                0 <= p <= res@.len(),
                forall|k: int| 0 <= k < p ==> lex_leq(#[trigger] res@[k]@, x@),
            decreases res@.len() - p,
        {
            p = p + 1;
        }
        let ghost old_res = res@;
        res.insert(p, x);
        proof {
            lemma_views_insert(old_res, p as int, x);
            let ov = digest_views(old_res);
            let nv = digest_views(res@);
            assert(nv == ov.insert(p as int, x@));
            assert forall|a: int, b: int| 0 <= a < b < nv.len() implies #[trigger] leq(nv[a], nv[b]) by {
                if p < old_res.len() {
                    assert(!lex_leq(old_res[p as int]@, x@));
                    lemma_lex_total(old_res[p as int]@, x@);
                }
                if a < p && b < p {
                    assert(leq(ov[a], ov[b]));
                } else if a < p && b == p {
                    assert(lex_leq(old_res[a]@, x@));
                } else if a < p && b > p {
                    assert(leq(ov[a], ov[b - 1]));
                } else if a == p {
                    assert(b > p);
                    assert(leq(ov[p as int], ov[b - 1]) || p == b - 1);
                    if p as int != b - 1 {
                        lemma_lex_transitive(x@, ov[p as int], ov[b - 1]);
                    }
                } else {
                    assert(leq(ov[a - 1], ov[b - 1]));
                }
            }
            vstd::seq_lib::to_multiset_insert(ov, p as int, x@);
            assert(v@.take(i + 1) =~= v@.take(i as int).push(x));
            assert(digest_views(v@.take(i + 1)) =~= digest_views(v@.take(i as int)).push(x@));
            vstd::seq_lib::to_multiset_build(digest_views(v@.take(i as int)), x@);
        }
        i = i + 1;
    }
    proof {
        assert(v@.take(v@.len() as int) =~= v@);
        let s = digest_views(v@);
        s.lemma_sort_by_ensures(leq);
        vstd::seq_lib::lemma_sorted_unique(digest_views(res@), s.sort_by(leq), leq);
    }
    res
}

} // verus!
