use fileflow::journal::{Block, JournalError, MerkleTree};
use fileflow::merkle::{merkle_root_of, tree_root_of};
use fileflow::vfs::Snapshot;

fn h(bytes: &[u8]) -> [u8; 32] {
    *blake3::hash(bytes).as_bytes()
}

fn pair(a: &[u8; 32], b: &[u8; 32]) -> [u8; 32] {
    let mut buf = Vec::new();
    buf.extend_from_slice(a);
    buf.extend_from_slice(b);
    h(&buf)
}

#[test]
fn empty_tree_has_zero_root() {
    assert_eq!(MerkleTree::from_hashes(vec![]).root, [0u8; 32]);
}

#[test]
fn single_hash_is_its_own_root() {
    let a = h(b"alpha");
    assert_eq!(MerkleTree::from_hashes(vec![a]).root, a);
}

#[test]
fn two_hashes_are_sorted_then_paired() {
    let a = h(b"alpha");
    let b = h(b"beta");
    let (lo, hi) = if a < b { (a, b) } else { (b, a) };
    let expected = pair(&lo, &hi);
    assert_eq!(MerkleTree::from_hashes(vec![a, b]).root, expected);
    assert_eq!(MerkleTree::from_hashes(vec![b, a]).root, expected);
}

#[test]
fn odd_digest_is_paired_with_itself() {
    let mut hs = vec![h(b"one"), h(b"two"), h(b"three")];
    let root = MerkleTree::from_hashes(hs.clone()).root;
    hs.sort();
    let expected = pair(&pair(&hs[0], &hs[1]), &pair(&hs[2], &hs[2]));
    assert_eq!(root, expected);
}

#[test]
fn root_in_given_order_differs_from_sorted() {
    let a = [1u8; 32];
    let b = [2u8; 32];
    assert_eq!(merkle_root_of(vec![b, a]), pair(&b, &a));
    assert_eq!(Snapshot::compute_root(vec![b, a]), pair(&b, &a));
    assert_eq!(tree_root_of(vec![b, a]), pair(&a, &b));
}

#[test]
fn block_new_sets_fields_and_leaves_signature_empty() {
    let b = Block::new("s1".to_string(), [7u8; 32], "OP".to_string(), [1u8; 32], [2u8; 32], b"{}".to_vec());
    assert_eq!(b.session_id, "s1");
    assert_eq!(b.prev_hash, [7u8; 32]);
    assert_eq!(b.operation_type, "OP");
    assert_eq!(b.pre_state_hash, [1u8; 32]);
    assert_eq!(b.post_state_hash, [2u8; 32]);
    assert_eq!(b.transform_metadata, b"{}".to_vec());
    assert!(b.signature.is_empty());
    assert!(b.timestamp.secs > 1_600_000_000);
}

#[test]
fn block_hash_covers_fields_in_order() {
    let b = Block::new("sess".to_string(), [3u8; 32], "NODE_EXEC:rename".to_string(), [4u8; 32], [5u8; 32], b"{\"a\":1}".to_vec());
    let mut buf = Vec::new();
    buf.extend_from_slice(b"sess");
    buf.extend_from_slice(&[3u8; 32]);
    buf.extend_from_slice(b"NODE_EXEC:rename");
    buf.extend_from_slice(&[4u8; 32]);
    buf.extend_from_slice(&[5u8; 32]);
    buf.extend_from_slice(b"{\"a\":1}");
    assert_eq!(b.hash(), h(&buf));
    let mut c = b.clone();
    c.signature = vec![1, 2, 3];
    assert_eq!(c.hash(), b.hash());
    c.prev_hash = [9u8; 32];
    assert_ne!(c.hash(), b.hash());
}

#[test]
fn journal_errors_compare() {
    assert_ne!(JournalError::Serialization("x".to_string()), JournalError::Hashing("x".to_string()));
}

#[test]
fn journal_and_snapshot_roots_agree() {
    for n in 1..6u8 {
        let hashes: Vec<[u8; 32]> = (0..n).map(|i| h(&[i, 9])).collect();
        assert_eq!(MerkleTree::compute_root(hashes.clone()), Snapshot::compute_root(hashes.clone()));
    }
    let one = vec![h(b"only")];
    assert_eq!(MerkleTree::compute_root(one.clone()), h(b"only"));
    assert_eq!(Snapshot::compute_root(one), h(b"only"));
}
