//! The journal: blocks that record one step of a session each, chained by the
//! digest of the block before, and the Merkle tree over a set of digests.
use crate::digest::{blake3_hash, digest_views, push_bytes, sort_digests, zero_digest};
use crate::merkle::{merkle_root, merkle_root_of, tree_root};
use vstd::prelude::*;
use vstd::utf8::encode_utf8;

verus! {

/// Why a journal operation failed.
#[derive(Debug, Clone, PartialEq, Eq)]
pub enum JournalError {
    Serialization(String),
    Hashing(String),
}

/// An instant in UTC: whole seconds since the Unix epoch and the nanoseconds past them.
#[derive(Debug, Clone, Copy, PartialEq, Eq)]
pub struct Timestamp {
    pub secs: i64,
    pub nanos: u32,
}

/// Reads the system clock (`std::time::SystemTime::now`) and converts the
/// instant with chrono's `From<SystemTime> for DateTime<Utc>`, which handles
/// times before the Unix epoch as well; chrono's conversion fails only for an
/// instant more than about 262,000 years from now, which the clock does not
/// hold. Nothing is claimed of the value: it is the clock's.
#[verifier::external_body]
fn utc_now() -> (t: Timestamp) {
    let now = chrono::DateTime::<chrono::Utc>::from(std::time::SystemTime::now());
    Timestamp { secs: now.timestamp(), nanos: now.timestamp_subsec_nanos() }
}

/// One journal entry. `transform_metadata` holds the JSON encoding of the
/// metadata that describes the step.
#[derive(Debug, Clone)]
pub struct Block {
    pub session_id: String,
    pub prev_hash: [u8; 32],
    pub operation_type: String,
    pub pre_state_hash: [u8; 32],
    pub post_state_hash: [u8; 32],
    pub transform_metadata: Vec<u8>,
    pub signature: Vec<u8>,
    pub timestamp: Timestamp,
}

/// The bytes a block's digest is taken over: the session id (UTF-8), the
/// previous digest, the operation type (UTF-8), the pre- and post-state
/// digests and the metadata. Signature and timestamp are not covered.
pub open spec fn block_hash_input(b: Block) -> Seq<u8> {
    encode_utf8(b.session_id@) + b.prev_hash@ + encode_utf8(b.operation_type@) + b.pre_state_hash@
        + b.post_state_hash@ + b.transform_metadata@
}

impl Block {
    /// A new, unsigned block stamped with the current time.
    pub fn new(
        session_id: String,
        prev_hash: [u8; 32],
        operation_type: String,
        pre_state_hash: [u8; 32],
        post_state_hash: [u8; 32],
        transform_metadata: Vec<u8>,
    ) -> (b: Self)
        ensures
            b.session_id@ == session_id@,
            b.prev_hash == prev_hash,
            b.operation_type@ == operation_type@,
            b.pre_state_hash == pre_state_hash,
            b.post_state_hash == post_state_hash,
            b.transform_metadata@ == transform_metadata@,
            b.signature@ == Seq::<u8>::empty(),
    {
        Block {
            session_id,
            prev_hash,
            operation_type,
            pre_state_hash,
            post_state_hash,
            transform_metadata,
            signature: Vec::new(),
            timestamp: utc_now(),
        }
    }

    /// The block's digest, by which the next block of the chain refers to it.
    pub fn hash(&self) -> (h: [u8; 32])
        ensures
            h@ == crate::digest::blake3_digest(block_hash_input(*self)),
    {
        let mut buf: Vec<u8> = Vec::new();
        push_bytes(&mut buf, self.session_id.as_str().as_bytes());
        push_bytes(&mut buf, &self.prev_hash);
        push_bytes(&mut buf, self.operation_type.as_str().as_bytes());
        push_bytes(&mut buf, &self.pre_state_hash);
        push_bytes(&mut buf, &self.post_state_hash);
        push_bytes(&mut buf, self.transform_metadata.as_slice());
        proof {
            assert(buf@ =~= block_hash_input(*self));
        }
        blake3_hash(buf.as_slice())
    }
}

/// A Merkle tree over a set of digests, of which only the root is kept.
pub struct MerkleTree {
    pub root: [u8; 32],
}

impl MerkleTree {
    /// The tree over `hashes`; their order does not matter.
    pub fn from_hashes(hashes: Vec<[u8; 32]>) -> (t: Self)
        ensures
            t.root@ == tree_root(digest_views(hashes@)),
    {
        if hashes.len() == 0 {
            let z = [0u8; 32];
            proof {
                assert(z@ =~= zero_digest());
            }
            return MerkleTree { root: z };
        }
        let sorted = sort_digests(hashes);
        let root = Self::compute_root(sorted);
        MerkleTree { root }
    }

    /// The root over `hashes` in the order given.
    pub fn compute_root(hashes: Vec<[u8; 32]>) -> (r: [u8; 32])
        requires
            hashes@.len() >= 1,
        ensures
            r@ == merkle_root(digest_views(hashes@)),
    {
        merkle_root_of(hashes)
    }
}


/// A block's digest is taken over all six covered fields, always laid out the
/// same way: the session id's bytes, the previous digest (32 bytes), the
/// operation type's bytes, the pre-state digest and the post-state digest
/// (32 bytes each), then the metadata, each at its fixed offset, whatever the
/// values are.
pub proof fn lemma_block_hash_layout(b: Block)
    ensures
        ({
            let s = encode_utf8(b.session_id@);
            let o = encode_utf8(b.operation_type@);
            let m = b.transform_metadata@;
            let x = block_hash_input(b);
            let at_prev = s.len() as int;
            let at_op = at_prev + 32;
            let at_pre = at_op + o.len();
            let at_post = at_pre + 32;
            let at_meta = at_post + 32;
            &&& x.len() == s.len() + 32 + o.len() + 32 + 32 + m.len()
            &&& x.subrange(0, at_prev) == s
            &&& x.subrange(at_prev, at_op) == b.prev_hash@
            &&& x.subrange(at_op, at_pre) == o
            &&& x.subrange(at_pre, at_post) == b.pre_state_hash@
            &&& x.subrange(at_post, at_meta) == b.post_state_hash@
            &&& x.subrange(at_meta, x.len() as int) == m
        }),
{
    let s = encode_utf8(b.session_id@);
    let o = encode_utf8(b.operation_type@);
    let m = b.transform_metadata@;
    let x = block_hash_input(b);
    let at_prev = s.len() as int;
    let at_op = at_prev + 32;
    let at_pre = at_op + o.len();
    let at_post = at_pre + 32;
    let at_meta = at_post + 32;
    assert(b.prev_hash@.len() == 32);
    assert(b.pre_state_hash@.len() == 32);
    assert(b.post_state_hash@.len() == 32);
    assert(x.subrange(0, at_prev) =~= s);
    assert(x.subrange(at_prev, at_op) =~= b.prev_hash@);
    assert(x.subrange(at_op, at_pre) =~= o);
    assert(x.subrange(at_pre, at_post) =~= b.pre_state_hash@);
    assert(x.subrange(at_post, at_meta) =~= b.post_state_hash@);
    assert(x.subrange(at_meta, x.len() as int) =~= m);
}

} // verus!
