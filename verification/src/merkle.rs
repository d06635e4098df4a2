//! Merkle roots over digests: pairs of digests are hashed level by level
//! (an odd digest out is paired with itself) until one digest is left.
use crate::digest::{blake3_digest, blake3_hash, concat_digests, digest_order, digest_views, lemma_digest_order_total, sort_digests, zero_digest};
use vstd::prelude::*;

verus! {

/// The digest of two digests: BLAKE3 over their concatenation.
pub open spec fn pair_digest(a: Seq<u8>, b: Seq<u8>) -> Seq<u8> {
    blake3_digest(a + b)
}

/// One level up: digest `i` of the result combines digests `2i` and `2i + 1`
/// (or `2i` with itself when it is the last one of an odd count).
pub open spec fn next_level(hs: Seq<Seq<u8>>) -> Seq<Seq<u8>> {
    Seq::new(
        ((hs.len() + 1) / 2) as nat,
        |i: int|
            if 2 * i + 1 < hs.len() {
                pair_digest(hs[2 * i], hs[2 * i + 1])
            } else {
                pair_digest(hs[2 * i], hs[2 * i])
            },
    )
}

/// The root over digests taken in the given order (a single digest is its own root).
pub open spec fn merkle_root(hs: Seq<Seq<u8>>) -> Seq<u8>
    recommends
        hs.len() >= 1,
    decreases hs.len(),
{
    if hs.len() <= 1 {
        hs[0]
    } else {
        merkle_root(next_level(hs))
    }
}

/// The root of a set of digests: they are sorted first, so the order in which
/// they are given does not matter; no digests give thirty-two zero bytes.
pub open spec fn tree_root(hs: Seq<Seq<u8>>) -> Seq<u8> {
    if hs.len() == 0 {
        zero_digest()
    } else {
        merkle_root(hs.sort_by(digest_order()))
    }
}

/// The root over `hashes`, in the order given.
pub fn merkle_root_of(hashes: Vec<[u8; 32]>) -> (r: [u8; 32])
    requires
        hashes@.len() >= 1,
    ensures
        r@ == merkle_root(digest_views(hashes@)),
    decreases hashes@.len(),
{
    let n = hashes.len();
    if n == 1 {
        return hashes[0];
    }
    let ghost hv = digest_views(hashes@);
    let mut next: Vec<[u8; 32]> = Vec::new();
    let mut i: usize = 0;
    while i < n
        invariant
            n == hashes@.len(),
            n >= 2,
            hv == digest_views(hashes@),
            i < n ==> i % 2 == 0,
            i <= n,
            next@.len() == (i + 1) / 2,
            forall|k: int| 0 <= k < next@.len() ==> #[trigger] next@[k]@ == next_level(hv)[k],
        decreases n - i,
    {
        let buf = if n - i >= 2 {
            concat_digests(&hashes[i], &hashes[i + 1])
        } else {
            concat_digests(&hashes[i], &hashes[i])
        };
        let d = blake3_hash(buf.as_slice());
        next.push(d);
        proof {
            assert(hv[i as int] == hashes@[i as int]@);
            if n - i >= 2 {
                assert(hv[i + 1] == hashes@[i + 1]@);
            }
        }
        if n - i >= 2 {
            i = i + 2;
        } else {
            i = i + 1;
        }
    }
    proof {
        assert(digest_views(next@) =~= next_level(hv));
    }
    merkle_root_of(next)
}

/// The root of a set of digests, whatever their order.
pub fn tree_root_of(hashes: Vec<[u8; 32]>) -> (r: [u8; 32])
    ensures
        r@ == tree_root(digest_views(hashes@)),
{
    let sorted = sort_digests(hashes);
    if sorted.len() == 0 {
        let z = [0u8; 32];
        proof {
            assert(z@ =~= zero_digest());
        }
        return z;
    }
    merkle_root_of(sorted)
}

/// The root does not depend on the order in which the digests come.
pub proof fn lemma_tree_root_order_independent(a: Seq<Seq<u8>>, b: Seq<Seq<u8>>)
    requires
        a.to_multiset() == b.to_multiset(),
    ensures
        tree_root(a) == tree_root(b),
{
    lemma_digest_order_total();
    a.lemma_sort_by_ensures(digest_order());
    b.lemma_sort_by_ensures(digest_order());
    vstd::seq_lib::lemma_sorted_unique(a.sort_by(digest_order()), b.sort_by(digest_order()), digest_order());
    vstd::seq_lib::to_multiset_len(a);
    vstd::seq_lib::to_multiset_len(b);
}

/// The root of a single digest is that digest; the root of none is all zeros.
pub proof fn lemma_tree_root_small(h: Seq<u8>)
    ensures
        tree_root(seq![h]) == h,
        tree_root(Seq::<Seq<u8>>::empty()) == zero_digest(),
{
    lemma_digest_order_total();
    let s = seq![h];
    s.lemma_sort_by_ensures(digest_order());
    vstd::seq_lib::to_multiset_len(s);
    vstd::seq_lib::to_multiset_len(s.sort_by(digest_order()));
    let t = s.sort_by(digest_order());
    assert(t.len() == 1);
    assert(t.to_multiset().contains(t[0])) by {
        vstd::seq_lib::to_multiset_contains(t, t[0]);
    }
    vstd::seq_lib::to_multiset_contains(s, t[0]);
}


/// Each level pairs its digests in order: digest `i` of the next level is
/// BLAKE3 over digest `2i` followed by digest `2i + 1`, and an odd digest out
/// is hashed followed by itself.
pub proof fn lemma_level_pairs_in_order(hs: Seq<Seq<u8>>)
    ensures
        next_level(hs).len() == (hs.len() + 1) / 2,
        forall|i: int|
            0 <= i && 2 * i + 1 < hs.len() ==> #[trigger] next_level(hs)[i] == blake3_digest(hs[2 * i] + hs[2 * i + 1]),
        hs.len() % 2 == 1 ==> next_level(hs)[(hs.len() / 2) as int] == blake3_digest(hs[hs.len() - 1] + hs[hs.len() - 1]),
{
}

/// Two to the power `k`.
pub open spec fn two_pow(k: nat) -> nat
    decreases k,
{
    if k == 0 {
        1
    } else {
        2 * two_pow((k - 1) as nat)
    }
}

proof fn lemma_two_pow_even(k: nat)
    ensures
        two_pow(k) >= 1,
        k > 0 ==> two_pow(k) % 2 == 0 && two_pow(k) / 2 == two_pow((k - 1) as nat) && two_pow(k) >= 2,
    decreases k,
{
    if k > 0 {
        lemma_two_pow_even((k - 1) as nat);
    }
}

/// A level over two halves of even length is the two halves' levels, side by side.
proof fn lemma_next_level_split(a: Seq<Seq<u8>>, b: Seq<Seq<u8>>)
    requires
        a.len() % 2 == 0,
    ensures
        next_level(a + b) == next_level(a) + next_level(b),
{
    let ab = a + b;
    assert forall|i: int| 0 <= i < next_level(ab).len() implies #[trigger] next_level(ab)[i] == (next_level(a)
        + next_level(b))[i] by {
        if i < a.len() / 2 {
            assert(ab[2 * i] == a[2 * i] && ab[2 * i + 1] == a[2 * i + 1]);
        } else {
            let j = i - a.len() / 2;
            assert(2 * i == a.len() + 2 * j);
            assert(ab[2 * i] == b[2 * j]);
            if 2 * j + 1 < b.len() {
                assert(ab[2 * i + 1] == b[2 * j + 1]);
            }
        }
    }
    assert(next_level(ab) =~= next_level(a) + next_level(b));
}

/// The root over two halves of the same power-of-two size is BLAKE3 over the
/// left half's root followed by the right half's root.
pub proof fn lemma_merkle_root_halves(a: Seq<Seq<u8>>, b: Seq<Seq<u8>>, k: nat)
    requires
        a.len() == two_pow(k),
        b.len() == two_pow(k),
    ensures
        merkle_root(a + b) == blake3_digest(merkle_root(a) + merkle_root(b)),
    decreases k,
{
    lemma_two_pow_even(k);
    let ab = a + b;
    if k == 0 {
        assert(ab[0] == a[0] && ab[1] == b[0]);
        assert(next_level(ab).len() == 1);
        assert(merkle_root(next_level(ab)) == next_level(ab)[0]);
    } else {
        lemma_next_level_split(a, b);
        lemma_merkle_root_halves(next_level(a), next_level(b), (k - 1) as nat);
    }
}

} // verus!
