//! Snapshots of a directory tree by content digest, and sandboxes that record
//! changed file contents over a snapshot without touching it.
use crate::digest::{blake3_digest, blake3_hash, digest_views, same_digest};
use crate::merkle::{merkle_root, merkle_root_of, tree_root, tree_root_of};
use crate::pipeline::string_views;
use vstd::multiset::Multiset;
use vstd::prelude::*;

verus! {

/// What a snapshot knows of one file: its path relative to the snapshot's
/// root, its size and the digest of its content.
#[derive(Debug, Clone)]
pub struct FileMetadata {
    pub path: String,
    pub size: u64,
    pub hash: [u8; 32],
}

/// The files under a directory, each by its relative path (no path twice).
#[derive(Debug, Clone)]
pub struct Snapshot {
    pub root: String,
    pub files: Vec<FileMetadata>,
}

/// A file read under a snapshot's root: its relative path, size and content.
#[derive(Debug, Clone)]
pub struct ListedFile {
    pub path: String,
    pub size: u64,
    pub content: Vec<u8>,
}

/// New content for the file at `path` (relative to the snapshot's root).
#[derive(Debug, Clone)]
pub struct FileChange {
    pub path: String,
    pub content: Vec<u8>,
}

/// A snapshot together with the file contents written over it.
#[derive(Debug, Clone)]
pub struct Sandbox {
    pub base_snapshot: Snapshot,
    pub work_dir: String,
    pub changes: Vec<FileChange>,
}

// ---------------------------------------------------------------------------
// Models.

/// Path to (size, digest), later entries taking precedence.
pub open spec fn file_map(files: Seq<FileMetadata>) -> Map<Seq<char>, (u64, Seq<u8>)>
    decreases files.len(),
{
    if files.len() == 0 {
        Map::empty()
    } else {
        file_map(files.drop_last()).insert(files.last().path@, (files.last().size, files.last().hash@))
    }
}

/// Path to content, later entries taking precedence.
pub open spec fn change_map(changes: Seq<FileChange>) -> Map<Seq<char>, Seq<u8>>
    decreases changes.len(),
{
    if changes.len() == 0 {
        Map::empty()
    } else {
        change_map(changes.drop_last()).insert(changes.last().path@, changes.last().content@)
    }
}

/// What a snapshot of `listing` records: path to (size, content digest).
pub open spec fn listing_map(listing: Seq<ListedFile>) -> Map<Seq<char>, (u64, Seq<u8>)>
    decreases listing.len(),
{
    if listing.len() == 0 {
        Map::empty()
    } else {
        listing_map(listing.drop_last()).insert(
            listing.last().path@,
            (listing.last().size, blake3_digest(listing.last().content@)),
        )
    }
}

/// No two files of the listing share a path.
pub open spec fn files_distinct(files: Seq<FileMetadata>) -> bool {
    forall|a: int, b: int| 0 <= a < b < files.len() ==> files[a].path@ != files[b].path@
}

/// No two writes share a path.
pub open spec fn changes_distinct(changes: Seq<FileChange>) -> bool {
    forall|a: int, b: int| 0 <= a < b < changes.len() ==> changes[a].path@ != changes[b].path@
}

/// Whether `path` has been written in the sandbox.
pub open spec fn is_changed(changes: Seq<FileChange>, path: Seq<char>) -> bool {
    exists|i: int| 0 <= i < changes.len() && #[trigger] changes[i].path@ == path
}

/// The digests of the files in a snapshot, in the order they are held.
pub open spec fn file_hashes(files: Seq<FileMetadata>) -> Seq<Seq<u8>> {
    files.map_values(|m: FileMetadata| m.hash@)
}

/// Digests of the snapshot's files that the sandbox has not written.
pub open spec fn kept_hashes(files: Seq<FileMetadata>, changes: Seq<FileChange>) -> Seq<Seq<u8>>
    decreases files.len(),
{
    if files.len() == 0 {
        Seq::empty()
    } else {
        let rest = kept_hashes(files.drop_last(), changes);
        if is_changed(changes, files.last().path@) {
            rest
        } else {
            rest.push(files.last().hash@)
        }
    }
}

/// Paths of the snapshot's files that the sandbox has not written.
pub open spec fn kept_paths(files: Seq<FileMetadata>, changes: Seq<FileChange>) -> Seq<Seq<char>>
    decreases files.len(),
{
    if files.len() == 0 {
        Seq::empty()
    } else {
        let rest = kept_paths(files.drop_last(), changes);
        if is_changed(changes, files.last().path@) {
            rest
        } else {
            rest.push(files.last().path@)
        }
    }
}

/// Digests of the written contents.
pub open spec fn content_hashes(changes: Seq<FileChange>) -> Seq<Seq<u8>> {
    changes.map_values(|c: FileChange| blake3_digest(c.content@))
}

/// The digests that make up the sandbox's state: unchanged files by their
/// snapshot digest, written files by the digest of the new content.
pub open spec fn post_hashes(sb: Sandbox) -> Seq<Seq<u8>> {
    kept_hashes(sb.base_snapshot.files@, sb.changes@) + content_hashes(sb.changes@)
}

impl Snapshot {
    /// A snapshot lists each path once.
    pub open spec fn wf(&self) -> bool {
        files_distinct(self.files@)
    }
}

impl Sandbox {
    /// A sandbox's snapshot lists each path once, and it holds one write per path.
    pub open spec fn wf(&self) -> bool {
        &&& self.base_snapshot.wf()
        &&& changes_distinct(self.changes@)
    }
}

// ---------------------------------------------------------------------------
// Lemmas on the maps.

proof fn lemma_file_map_update(s: Seq<FileMetadata>, i: int, x: FileMetadata)
    requires
        0 <= i < s.len(),
        files_distinct(s),
        s[i].path@ == x.path@,
    ensures
        file_map(s.update(i, x)) == file_map(s).insert(x.path@, (x.size, x.hash@)),
    decreases s.len(),
{
    let t = s.update(i, x);
    if i == s.len() - 1 {
        assert(t.drop_last() =~= s.drop_last());
        assert(file_map(t) =~= file_map(s).insert(x.path@, (x.size, x.hash@)));
    } else {
        assert(t.drop_last() =~= s.drop_last().update(i, x));
        lemma_file_map_update(s.drop_last(), i, x);
        assert(s[i].path@ != s.last().path@);
        assert(file_map(t) =~= file_map(s).insert(x.path@, (x.size, x.hash@)));
    }
}

proof fn lemma_change_map_update(s: Seq<FileChange>, i: int, x: FileChange)
    requires
        0 <= i < s.len(),
        changes_distinct(s),
        s[i].path@ == x.path@,
    ensures
        change_map(s.update(i, x)) == change_map(s).insert(x.path@, x.content@),
    decreases s.len(),
{
    let t = s.update(i, x);
    if i == s.len() - 1 {
        assert(t.drop_last() =~= s.drop_last());
        assert(change_map(t) =~= change_map(s).insert(x.path@, x.content@));
    } else {
        assert(t.drop_last() =~= s.drop_last().update(i, x));
        lemma_change_map_update(s.drop_last(), i, x);
        assert(s[i].path@ != s.last().path@);
        assert(change_map(t) =~= change_map(s).insert(x.path@, x.content@));
    }
}

/// With no writes, every file of the snapshot is kept.
proof fn lemma_kept_all(files: Seq<FileMetadata>, changes: Seq<FileChange>)
    requires
        changes.len() == 0,
    ensures
        kept_hashes(files, changes) == file_hashes(files),
    decreases files.len(),
{
    if files.len() > 0 {
        lemma_kept_all(files.drop_last(), changes);
        assert(file_hashes(files) =~= file_hashes(files.drop_last()).push(files.last().hash@));
    }
}

/// A sandbox in which nothing was written has the snapshot's root.
pub proof fn lemma_unchanged_sandbox_root(sb: Sandbox)
    requires
        sb.changes@.len() == 0,
    ensures
        tree_root(post_hashes(sb)) == tree_root(file_hashes(sb.base_snapshot.files@)),
{
    lemma_kept_all(sb.base_snapshot.files@, sb.changes@);
    assert(content_hashes(sb.changes@) =~= Seq::<Seq<u8>>::empty());
    assert(post_hashes(sb) =~= file_hashes(sb.base_snapshot.files@));
}

// ---------------------------------------------------------------------------

/// Whether some change writes `path`.
fn change_index(changes: &Vec<FileChange>, path: &String) -> (r: Option<usize>)
    ensures
        match r {
            Some(i) => i < changes@.len() && changes@[i as int].path@ == path@,
            None => !is_changed(changes@, path@),
        },
{
    let mut i: usize = 0;
    while i < changes.len()
        invariant
            0 <= i <= changes@.len(),
            forall|k: int| 0 <= k < i ==> changes@[k].path@ != path@,
        decreases changes@.len() - i,
    {
        if changes[i].path == *path {
            return Some(i);
        }
        i = i + 1;
    }
    None
}

/// The position of the file recorded at `path`, if any.
fn file_index(files: &Vec<FileMetadata>, path: &String) -> (r: Option<usize>)
    ensures
        match r {
            Some(i) => i < files@.len() && files@[i as int].path@ == path@,
            None => forall|k: int| 0 <= k < files@.len() ==> files@[k].path@ != path@,
        },
{
    let mut i: usize = 0;
    while i < files.len()
        invariant
            0 <= i <= files@.len(),
            forall|k: int| 0 <= k < i ==> files@[k].path@ != path@,
        decreases files@.len() - i,
    {
        if files[i].path == *path {
            return Some(i);
        }
        i = i + 1;
    }
    None
}

impl Snapshot {
    /// The snapshot of the files read under `root`. A path listed twice keeps
    /// its last entry.
    pub fn create(root: String, listing: Vec<ListedFile>) -> (s: Self)
        ensures
            s.root@ == root@,
            s.wf(),
            file_map(s.files@) == listing_map(listing@),
    {
        let mut files: Vec<FileMetadata> = Vec::new();
        let mut k: usize = 0;
        while k < listing.len()
            invariant
                0 <= k <= listing@.len(),
                files_distinct(files@),
                file_map(files@) == listing_map(listing@.take(k as int)),
            decreases listing@.len() - k,
        {
            let entry = &listing[k];
            let meta = FileMetadata {
                path: entry.path.clone(),
                size: entry.size,
                hash: blake3_hash(entry.content.as_slice()),
            };
            proof {
                assert(listing@.take(k + 1).drop_last() =~= listing@.take(k as int));
            }
            match file_index(&files, &meta.path) {
                Some(i) => {
                    proof {
                        lemma_file_map_update(files@, i as int, meta);
                    }
                    files.set(i, meta);
                },
                None => {
                    let ghost old = files@;
                    files.push(meta);
                    proof {
                        assert(files@.drop_last() =~= old);
                        assert forall|a: int, b: int| 0 <= a < b < files@.len() implies
                            files@[a].path@ != files@[b].path@ by {
                            if b == old.len() {
                                assert(old[a].path@ != meta.path@);
                            }
                        }
                    }
                },
            }
            k = k + 1;
        }
        proof {
            assert(listing@.take(listing@.len() as int) =~= listing@);
        }
        Snapshot { root, files }
    }

    /// The root over the digests of the snapshot's files.
    pub fn compute_merkle_root(&self) -> (r: [u8; 32])
        ensures
            r@ == tree_root(file_hashes(self.files@)),
    {
        let mut hashes: Vec<[u8; 32]> = Vec::new();
        let mut i: usize = 0;
        while i < self.files.len()
            invariant
                0 <= i <= self.files@.len(),
                digest_views(hashes@) == file_hashes(self.files@.take(i as int)),
            decreases self.files@.len() - i,
        {
            let ghost old = hashes@;
            hashes.push(self.files[i].hash);
            proof {
                assert(digest_views(hashes@) =~= digest_views(old).push(self.files@[i as int].hash@));
                assert(file_hashes(self.files@.take(i + 1)) =~= file_hashes(self.files@.take(i as int)).push(
                    self.files@[i as int].hash@,
                ));
            }
            i = i + 1;
        }
        proof {
            assert(self.files@.take(self.files@.len() as int) =~= self.files@);
        }
        tree_root_of(hashes)
    }

    /// The root over `hashes` in the order given.
    pub fn compute_root(hashes: Vec<[u8; 32]>) -> (r: [u8; 32])
        requires
            hashes@.len() >= 1,
        ensures
            r@ == merkle_root(digest_views(hashes@)),
    {
        merkle_root_of(hashes)
    }
}

impl Sandbox {
    /// A sandbox over `snapshot` in which nothing is written yet.
    pub fn new(snapshot: Snapshot, work_dir: String) -> (sb: Self)
        ensures
            sb.base_snapshot == snapshot,
            sb.work_dir == work_dir,
            sb.changes@.len() == 0,
    {
        Sandbox { base_snapshot: snapshot, work_dir, changes: Vec::new() }
    }

    /// Records `content` as the new content of `relative_path`, replacing an
    /// earlier write to the same path.
    pub fn write_file(&mut self, relative_path: String, content: Vec<u8>)
        requires
            changes_distinct(old(self).changes@),
        ensures
            changes_distinct(final(self).changes@),
            change_map(final(self).changes@) == change_map(old(self).changes@).insert(relative_path@, content@),
            final(self).base_snapshot == old(self).base_snapshot,
            final(self).work_dir == old(self).work_dir,
    {
        let change = FileChange { path: relative_path, content };
        match change_index(&self.changes, &change.path) {
            Some(i) => {
                proof {
                    lemma_change_map_update(self.changes@, i as int, change);
                }
                self.changes.set(i, change);
            },
            None => {
                let ghost old = self.changes@;
                self.changes.push(change);
                proof {
                    assert(self.changes@.drop_last() =~= old);
                    assert forall|a: int, b: int| 0 <= a < b < self.changes@.len() implies
                        self.changes@[a].path@ != self.changes@[b].path@ by {
                        if b == old.len() {
                            assert(old[a].path@ != change.path@);
                        }
                    }
                }
            },
        }
    }

    /// The root over the sandbox's state: digests of the unchanged files of
    /// the snapshot and of every written content.
    pub fn compute_post_merkle_root(&self) -> (r: [u8; 32])
        ensures
            r@ == tree_root(post_hashes(*self)),
    {
        let files = &self.base_snapshot.files;
        let mut hashes: Vec<[u8; 32]> = Vec::new();
        let mut i: usize = 0;
        while i < files.len()
            invariant
                0 <= i <= files@.len(),
                digest_views(hashes@) == kept_hashes(files@.take(i as int), self.changes@),
            decreases files@.len() - i,
        {
            proof {
                assert(files@.take(i + 1).drop_last() =~= files@.take(i as int));
            }
            match change_index(&self.changes, &files[i].path) {
                Some(_) => {},
                None => {
                    let ghost old = hashes@;
                    hashes.push(files[i].hash);
                    proof {
                        assert(digest_views(hashes@) =~= digest_views(old).push(files@[i as int].hash@));
                        assert(digest_views(hashes@) =~= kept_hashes(files@.take(i + 1), self.changes@));
                    }
                },
            }
            i = i + 1;
        }
        proof {
            assert(files@.take(files@.len() as int) =~= files@);
        }
        let ghost kept = digest_views(hashes@);
        let mut j: usize = 0;
        while j < self.changes.len()
            invariant
                0 <= j <= self.changes@.len(),
                digest_views(hashes@) == kept + content_hashes(self.changes@.take(j as int)),
            decreases self.changes@.len() - j,
        {
            let h = blake3_hash(self.changes[j].content.as_slice());
            let ghost old = hashes@;
            hashes.push(h);
            proof {
                assert(digest_views(hashes@) =~= digest_views(old).push(h@));
                assert(content_hashes(self.changes@.take(j + 1)) =~= content_hashes(self.changes@.take(j as int)).push(h@));
                assert(digest_views(hashes@) =~= kept + content_hashes(self.changes@.take(j + 1)));
            }
            j = j + 1;
        }
        proof {
            assert(self.changes@.take(self.changes@.len() as int) =~= self.changes@);
        }
        tree_root_of(hashes)
    }

    /// The paths of the snapshot's files that the sandbox has not written:
    /// the files to copy unchanged when the sandbox is written out.
    pub fn files_to_copy(&self) -> (r: Vec<String>)
        ensures
            string_views(r@) == kept_paths(self.base_snapshot.files@, self.changes@),
    {
        let files = &self.base_snapshot.files;
        let mut paths: Vec<String> = Vec::new();
        let mut i: usize = 0;
        while i < files.len()
            invariant
                0 <= i <= files@.len(),
                string_views(paths@) == kept_paths(files@.take(i as int), self.changes@),
            decreases files@.len() - i,
        {
            proof {
                assert(files@.take(i + 1).drop_last() =~= files@.take(i as int));
            }
            match change_index(&self.changes, &files[i].path) {
                Some(_) => {},
                None => {
                    paths.push(files[i].path.clone());
                    proof {
                        assert(string_views(paths@) =~= kept_paths(files@.take(i + 1), self.changes@));
                    }
                },
            }
            i = i + 1;
        }
        proof {
            assert(files@.take(files@.len() as int) =~= files@);
        }
        paths
    }
}


// ---------------------------------------------------------------------------
// Checking a session step out of the journal.

/// Why a checkout was refused.
#[derive(Debug, Clone, Copy, PartialEq, Eq)]
pub enum CheckoutError {
    /// The rebuilt state's root is not the one the journal recorded.
    HashMismatch { expected: [u8; 32], actual: [u8; 32] },
}

/// The journal block that records `step` of a session: step 0 is the state
/// before the first block, step `n > 0` the state after block `n - 1`.
pub fn checkout_block_index(step: usize) -> (i: usize)
    ensures
        i == if step == 0 { 0 } else { step - 1 },
{
    if step == 0 {
        0
    } else {
        step - 1
    }
}

/// The root of the state a checkout of `step` rebuilds: the snapshot's own
/// for step 0, the snapshot with `changes` written over it otherwise.
pub open spec fn rebuilt_root(step: usize, base: Snapshot, changes: Seq<FileChange>) -> Seq<u8> {
    if step == 0 {
        tree_root(file_hashes(base.files@))
    } else {
        tree_root(kept_hashes(base.files@, changes) + content_hashes(changes))
    }
}

/// The root the journal recorded for `step`: the block's pre-state root for
/// step 0, its post-state root otherwise.
pub open spec fn recorded_root(step: usize, pre_state_hash: [u8; 32], post_state_hash: [u8; 32]) -> Seq<u8> {
    if step == 0 {
        pre_state_hash@
    } else {
        post_state_hash@
    }
}

/// Rebuilds the sandbox for `step` from the block that records it: its base
/// snapshot and, past step 0, the writes made up to it. The rebuilt state
/// must have the root the block recorded; otherwise the checkout is refused.
pub fn checkout(
    step: usize,
    base_snapshot: Snapshot,
    changes: Vec<FileChange>,
    pre_state_hash: [u8; 32],
    post_state_hash: [u8; 32],
    work_dir: String,
) -> (r: Result<Sandbox, CheckoutError>)
    ensures
        match r {
            Ok(sb) => {
                &&& sb.base_snapshot == base_snapshot
                &&& sb.work_dir == work_dir
                &&& if step == 0 { sb.changes@.len() == 0 } else { sb.changes@ == changes@ }
                &&& rebuilt_root(step, base_snapshot, changes@) == recorded_root(step, pre_state_hash, post_state_hash)
            },
            Err(CheckoutError::HashMismatch { expected, actual }) => {
                &&& expected@ == recorded_root(step, pre_state_hash, post_state_hash)
                &&& actual@ == rebuilt_root(step, base_snapshot, changes@)
                &&& expected@ != actual@
            },
        },
{
    let expected = if step == 0 {
        pre_state_hash
    } else {
        post_state_hash
    };
    let mut sandbox = Sandbox::new(base_snapshot, work_dir);
    let actual = if step == 0 {
        sandbox.base_snapshot.compute_merkle_root()
    } else {
        sandbox.changes = changes;
        sandbox.compute_post_merkle_root()
    };
    if !same_digest(&actual, &expected) {
        return Err(CheckoutError::HashMismatch { expected, actual });
    }
    Ok(sandbox)
}

} // verus!

verus! {

// ---------------------------------------------------------------------------
// The sandbox's root depends only on what it holds, not on the order in which
// files and writes are kept.

/// A file's metadata as plain values: path, size, digest.
pub open spec fn meta_view(m: FileMetadata) -> (Seq<char>, u64, Seq<u8>) {
    (m.path@, m.size, m.hash@)
}

/// The views of a listing.
pub open spec fn meta_views(files: Seq<FileMetadata>) -> Seq<(Seq<char>, u64, Seq<u8>)> {
    files.map_values(|m: FileMetadata| meta_view(m))
}

/// A write as plain values: path and content.
pub open spec fn change_view(c: FileChange) -> (Seq<char>, Seq<u8>) {
    (c.path@, c.content@)
}

/// The views of the writes.
pub open spec fn change_views(changes: Seq<FileChange>) -> Seq<(Seq<char>, Seq<u8>)> {
    changes.map_values(|c: FileChange| change_view(c))
}

/// Adds a base file's digest unless its path was written.
pub open spec fn kept_step(written: Set<Seq<char>>) -> spec_fn(Multiset<Seq<u8>>, (Seq<char>, u64, Seq<u8>)) -> Multiset<Seq<u8>> {
    |acc: Multiset<Seq<u8>>, m: (Seq<char>, u64, Seq<u8>)| if written.contains(m.0) { acc } else { acc.insert(m.2) }
}

/// Adds the digest of a write's content.
pub open spec fn content_step() -> spec_fn(Multiset<Seq<u8>>, (Seq<char>, Seq<u8>)) -> Multiset<Seq<u8>> {
    |acc: Multiset<Seq<u8>>, c: (Seq<char>, Seq<u8>)| acc.insert(blake3_digest(c.1))
}

proof fn lemma_is_changed_dom(changes: Seq<FileChange>, p: Seq<char>)
    ensures
        is_changed(changes, p) <==> change_map(changes).dom().contains(p),
    decreases changes.len(),
{
    if changes.len() > 0 {
        let init = changes.drop_last();
        lemma_is_changed_dom(init, p);
        if is_changed(init, p) {
            let i = choose|i: int| 0 <= i < init.len() && #[trigger] init[i].path@ == p;
            assert(changes[i].path@ == p);
        }
        if is_changed(changes, p) && changes.last().path@ != p {
            let i = choose|i: int| 0 <= i < changes.len() && #[trigger] changes[i].path@ == p;
            assert(init[i].path@ == p);
        }
        if changes.last().path@ == p {
            assert(changes[changes.len() - 1].path@ == p);
        }
    }
}

proof fn lemma_kept_fold(files: Seq<FileMetadata>, changes: Seq<FileChange>)
    ensures
        kept_hashes(files, changes).to_multiset() == meta_views(files).fold_left(
            Multiset::empty(),
            kept_step(change_map(changes).dom()),
        ),
    decreases files.len(),
{
    broadcast use vstd::seq_lib::to_multiset_build;

    if files.len() == 0 {
        let k = kept_hashes(files, changes);
        vstd::seq_lib::to_multiset_len(k);
        vstd::multiset::lemma_multiset_empty_len(k.to_multiset());
    } else {
        lemma_kept_fold(files.drop_last(), changes);
        assert(meta_views(files).drop_last() =~= meta_views(files.drop_last()));
        lemma_is_changed_dom(changes, files.last().path@);
    }
}

proof fn lemma_content_fold(changes: Seq<FileChange>)
    ensures
        content_hashes(changes).to_multiset() == change_views(changes).fold_left(Multiset::empty(), content_step()),
    decreases changes.len(),
{
    broadcast use vstd::seq_lib::to_multiset_build;

    if changes.len() == 0 {
        let k = content_hashes(changes);
        vstd::seq_lib::to_multiset_len(k);
        vstd::multiset::lemma_multiset_empty_len(k.to_multiset());
    } else {
        lemma_content_fold(changes.drop_last());
        assert(change_views(changes).drop_last() =~= change_views(changes.drop_last()));
        assert(content_hashes(changes) =~= content_hashes(changes.drop_last()).push(
            blake3_digest(changes.last().content@),
        ));
    }
}

proof fn lemma_file_map_contains(files: Seq<FileMetadata>, x: (Seq<char>, u64, Seq<u8>))
    requires
        files_distinct(files),
    ensures
        meta_views(files).contains(x) <==> (file_map(files).dom().contains(x.0) && file_map(files)[x.0] == (x.1, x.2)),
    decreases files.len(),
{
    if files.len() > 0 {
        let init = files.drop_last();
        let last = files.last();
        lemma_file_map_contains(init, x);
        let mv = meta_views(files);
        assert(meta_views(init) =~= mv.drop_last());
        if mv.contains(x) {
            let i = choose|i: int| 0 <= i < mv.len() && mv[i] == x;
            if i < files.len() - 1 {
                assert(meta_views(init)[i] == x);
                if x.0 == last.path@ {
                    assert(files[i].path@ == last.path@);
                }
            }
        }
        if file_map(files).dom().contains(x.0) && file_map(files)[x.0] == (x.1, x.2) {
            if x.0 == last.path@ {
                assert(mv[files.len() - 1] == x);
            } else {
                assert(meta_views(init).contains(x));
                let i = choose|i: int| 0 <= i < init.len() && meta_views(init)[i] == x;
                assert(mv[i] == x);
            }
        }
    }
}

proof fn lemma_change_map_contains(changes: Seq<FileChange>, x: (Seq<char>, Seq<u8>))
    requires
        changes_distinct(changes),
    ensures
        change_views(changes).contains(x) <==> (change_map(changes).dom().contains(x.0) && change_map(changes)[x.0] == x.1),
    decreases changes.len(),
{
    if changes.len() > 0 {
        let init = changes.drop_last();
        let last = changes.last();
        lemma_change_map_contains(init, x);
        let cv = change_views(changes);
        assert(change_views(init) =~= cv.drop_last());
        if cv.contains(x) {
            let i = choose|i: int| 0 <= i < cv.len() && cv[i] == x;
            if i < changes.len() - 1 {
                assert(change_views(init)[i] == x);
                if x.0 == last.path@ {
                    assert(changes[i].path@ == last.path@);
                }
            }
        }
        if change_map(changes).dom().contains(x.0) && change_map(changes)[x.0] == x.1 {
            if x.0 == last.path@ {
                assert(cv[changes.len() - 1] == x);
            } else {
                assert(change_views(init).contains(x));
                let i = choose|i: int| 0 <= i < init.len() && change_views(init)[i] == x;
                assert(cv[i] == x);
            }
        }
    }
}

/// Two sequences without repeats that hold the same elements have the same multiset.
proof fn lemma_same_elements_multiset<A>(a: Seq<A>, b: Seq<A>)
    requires
        a.no_duplicates(),
        b.no_duplicates(),
        forall|x: A| a.contains(x) <==> b.contains(x),
    ensures
        a.to_multiset() == b.to_multiset(),
{
    broadcast use vstd::seq_lib::to_multiset_contains;

    a.lemma_multiset_has_no_duplicates();
    b.lemma_multiset_has_no_duplicates();
    assert forall|x: A| a.to_multiset().count(x) == b.to_multiset().count(x) by {
        if a.contains(x) {
            assert(a.to_multiset().contains(x));
            assert(b.to_multiset().contains(x));
        }
    }
    assert(a.to_multiset() =~= b.to_multiset());
}

/// Two sandboxes that hold the same files and the same writes have the same
/// root, however their entries are ordered: a state rebuilt from a journaled
/// snapshot and journaled writes is verified against the journaled root.
pub proof fn lemma_post_root_determined_by_contents(a: Sandbox, b: Sandbox)
    requires
        a.wf(),
        b.wf(),
        file_map(a.base_snapshot.files@) == file_map(b.base_snapshot.files@),
        change_map(a.changes@) == change_map(b.changes@),
    ensures
        tree_root(post_hashes(a)) == tree_root(post_hashes(b)),
{
    let fa = a.base_snapshot.files@;
    let fb = b.base_snapshot.files@;
    let ca = a.changes@;
    let cb = b.changes@;
    // The entries are the same up to order.
    assert forall|x: (Seq<char>, u64, Seq<u8>)| meta_views(fa).contains(x) <==> meta_views(fb).contains(x) by {
        lemma_file_map_contains(fa, x);
        lemma_file_map_contains(fb, x);
    }
    assert(meta_views(fa).no_duplicates()) by {
        assert forall|i: int, j: int| 0 <= i < j < fa.len() implies meta_views(fa)[i] != meta_views(fa)[j] by {
            assert(fa[i].path@ != fa[j].path@);
        }
    }
    assert(meta_views(fb).no_duplicates()) by {
        assert forall|i: int, j: int| 0 <= i < j < fb.len() implies meta_views(fb)[i] != meta_views(fb)[j] by {
            assert(fb[i].path@ != fb[j].path@);
        }
    }
    lemma_same_elements_multiset(meta_views(fa), meta_views(fb));
    assert forall|x: (Seq<char>, Seq<u8>)| change_views(ca).contains(x) <==> change_views(cb).contains(x) by {
        lemma_change_map_contains(ca, x);
        lemma_change_map_contains(cb, x);
    }
    assert(change_views(ca).no_duplicates()) by {
        assert forall|i: int, j: int| 0 <= i < j < ca.len() implies change_views(ca)[i] != change_views(ca)[j] by {
            assert(ca[i].path@ != ca[j].path@);
        }
    }
    assert(change_views(cb).no_duplicates()) by {
        assert forall|i: int, j: int| 0 <= i < j < cb.len() implies change_views(cb)[i] != change_views(cb)[j] by {
            assert(cb[i].path@ != cb[j].path@);
        }
    }
    lemma_same_elements_multiset(change_views(ca), change_views(cb));
    // Folding an order-insensitive step over either gives the same multiset.
    let written = change_map(ca).dom();
    let ks = kept_step(written);
    assert(vstd::seq_lib::commutative_foldl(ks)) by {
        assert forall|x: (Seq<char>, u64, Seq<u8>), y: (Seq<char>, u64, Seq<u8>), v: Multiset<Seq<u8>>|
            #[trigger] ks(ks(v, x), y) == ks(ks(v, y), x) by {
            assert(ks(ks(v, x), y) =~= ks(ks(v, y), x));
        }
    }
    let cs = content_step();
    assert(vstd::seq_lib::commutative_foldl(cs)) by {
        assert forall|x: (Seq<char>, Seq<u8>), y: (Seq<char>, Seq<u8>), v: Multiset<Seq<u8>>|
            #[trigger] cs(cs(v, x), y) == cs(cs(v, y), x) by {
            assert(cs(cs(v, x), y) =~= cs(cs(v, y), x));
        }
    }
    vstd::seq_lib::lemma_fold_left_permutation(meta_views(fa), meta_views(fb), ks, Multiset::empty());
    vstd::seq_lib::lemma_fold_left_permutation(change_views(ca), change_views(cb), cs, Multiset::empty());
    lemma_kept_fold(fa, ca);
    lemma_kept_fold(fb, cb);
    lemma_content_fold(ca);
    lemma_content_fold(cb);
    vstd::seq_lib::lemma_multiset_commutative(kept_hashes(fa, ca), content_hashes(ca));
    vstd::seq_lib::lemma_multiset_commutative(kept_hashes(fb, cb), content_hashes(cb));
    crate::merkle::lemma_tree_root_order_independent(post_hashes(a), post_hashes(b));
}


/// Time travel: checking out a step rebuilds the state the journal recorded
/// for it. When the block's root was taken over the sandbox `recorded` (its
/// pre-state root, before anything was written, for step 0; its post-state
/// root otherwise), a sandbox restored from the stored snapshot and writes,
/// in whatever order they come back, has that root, so the checkout of the
/// step is accepted.
pub proof fn lemma_checkout_accepts_journaled_state(
    recorded: Sandbox,
    restored: Sandbox,
    step: usize,
    pre_state_hash: [u8; 32],
    post_state_hash: [u8; 32],
)
    requires
        recorded.wf(),
        restored.wf(),
        file_map(restored.base_snapshot.files@) == file_map(recorded.base_snapshot.files@),
        step == 0 ==> recorded.changes@.len() == 0 && pre_state_hash@ == tree_root(post_hashes(recorded)),
        step > 0 ==> change_map(restored.changes@) == change_map(recorded.changes@) && post_state_hash@
            == tree_root(post_hashes(recorded)),
    ensures
        rebuilt_root(step, restored.base_snapshot, restored.changes@) == recorded_root(
            step,
            pre_state_hash,
            post_state_hash,
        ),
{
    if step == 0 {
        let bare = Sandbox {
            base_snapshot: restored.base_snapshot,
            work_dir: restored.work_dir,
            changes: recorded.changes,
        };
        lemma_post_root_determined_by_contents(recorded, bare);
        lemma_unchanged_sandbox_root(bare);
    } else {
        lemma_post_root_determined_by_contents(recorded, restored);
    }
}


/// The digests kept of a snapshot's files when one more path `p` has been
/// written: if the snapshot holds `p` with digest `d`, one `d` fewer;
/// otherwise the same.
proof fn lemma_kept_one_more(
    files: Seq<FileMetadata>,
    c1: Seq<FileChange>,
    c2: Seq<FileChange>,
    p: Seq<char>,
    d: Seq<u8>,
)
    requires
        files_distinct(files),
        !is_changed(c1, p),
        forall|q: Seq<char>| is_changed(c2, q) <==> (is_changed(c1, q) || q == p),
    ensures
        file_map(files).dom().contains(p) && file_map(files)[p].1 == d ==> kept_hashes(files, c1).to_multiset()
            == kept_hashes(files, c2).to_multiset().insert(d),
        !file_map(files).dom().contains(p) ==> kept_hashes(files, c1) == kept_hashes(files, c2),
    decreases files.len(),
{
    broadcast use vstd::seq_lib::to_multiset_build;

    if files.len() > 0 {
        let init = files.drop_last();
        let last = files.last();
        assert(files_distinct(init));
        lemma_kept_one_more(init, c1, c2, p, d);
        if last.path@ == p {
            assert(is_changed(c2, p));
            // `p` is not among the earlier files.
            if file_map(init).dom().contains(p) {
                let x = (p, file_map(init)[p].0, file_map(init)[p].1);
                lemma_file_map_contains(init, x);
                let i = choose|i: int| 0 <= i < meta_views(init).len() && meta_views(init)[i] == x;
                assert(init[i].path@ == files[files.len() - 1].path@);
            }
        } else {
            assert(is_changed(c2, last.path@) == is_changed(c1, last.path@));
        }
    }
}

/// Writing a file of the snapshot, not written before, with the content it
/// already has leaves the sandbox's root unchanged.
pub proof fn lemma_rewrite_same_content(before: Sandbox, after: Sandbox, path: Seq<char>, content: Seq<u8>)
    requires
        before.wf(),
        after.wf(),
        after.base_snapshot == before.base_snapshot,
        !change_map(before.changes@).dom().contains(path),
        file_map(before.base_snapshot.files@).dom().contains(path),
        file_map(before.base_snapshot.files@)[path].1 == blake3_digest(content),
        change_map(after.changes@) == change_map(before.changes@).insert(path, content),
    ensures
        tree_root(post_hashes(after)) == tree_root(post_hashes(before)),
{
    broadcast use vstd::seq_lib::to_multiset_build;

    let files = before.base_snapshot.files@;
    let ca = before.changes@;
    let cb = after.changes@;
    let d = blake3_digest(content);
    // The write to `path` among the new writes.
    lemma_change_map_contains(cb, (path, content));
    let i = choose|i: int| 0 <= i < change_views(cb).len() && change_views(cb)[i] == (path, content);
    let x = cb[i];
    let c2 = ca.push(x);
    assert(c2.drop_last() =~= ca);
    lemma_is_changed_dom(ca, path);
    assert(changes_distinct(c2)) by {
        assert forall|a: int, b: int| 0 <= a < b < c2.len() implies c2[a].path@ != c2[b].path@ by {
            if b == ca.len() {
                assert(ca[a].path@ != path);
            }
        }
    }
    assert(change_map(c2) == change_map(cb));
    // `c2` and `cb` hold the same writes: same kept digests, same contents.
    lemma_kept_fold(files, c2);
    lemma_kept_fold(files, cb);
    assert forall|y: (Seq<char>, Seq<u8>)| change_views(c2).contains(y) <==> change_views(cb).contains(y) by {
        lemma_change_map_contains(c2, y);
        lemma_change_map_contains(cb, y);
    }
    assert(change_views(c2).no_duplicates()) by {
        assert forall|a: int, b: int| 0 <= a < b < c2.len() implies change_views(c2)[a] != change_views(c2)[b] by {
            assert(c2[a].path@ != c2[b].path@);
        }
    }
    assert(change_views(cb).no_duplicates()) by {
        assert forall|a: int, b: int| 0 <= a < b < cb.len() implies change_views(cb)[a] != change_views(cb)[b] by {
            assert(cb[a].path@ != cb[b].path@);
        }
    }
    lemma_same_elements_multiset(change_views(c2), change_views(cb));
    let cs = content_step();
    assert(vstd::seq_lib::commutative_foldl(cs)) by {
        assert forall|u: (Seq<char>, Seq<u8>), w: (Seq<char>, Seq<u8>), v: Multiset<Seq<u8>>|
            #[trigger] cs(cs(v, u), w) == cs(cs(v, w), u) by {
            assert(cs(cs(v, u), w) =~= cs(cs(v, w), u));
        }
    }
    vstd::seq_lib::lemma_fold_left_permutation(change_views(c2), change_views(cb), cs, Multiset::empty());
    lemma_content_fold(c2);
    lemma_content_fold(cb);
    assert(content_hashes(c2) =~= content_hashes(ca).push(d));
    // Against the writes before: `path` is no longer kept, and `d` is written.
    assert forall|q: Seq<char>| is_changed(c2, q) <==> (is_changed(ca, q) || q == path) by {
        lemma_is_changed_dom(c2, q);
        lemma_is_changed_dom(ca, q);
    }
    lemma_kept_one_more(files, ca, c2, path, d);
    vstd::seq_lib::lemma_multiset_commutative(kept_hashes(files, ca), content_hashes(ca));
    vstd::seq_lib::lemma_multiset_commutative(kept_hashes(files, cb), content_hashes(cb));
    assert(post_hashes(before).to_multiset() =~= post_hashes(after).to_multiset());
    crate::merkle::lemma_tree_root_order_independent(post_hashes(before), post_hashes(after));
}


// ---------------------------------------------------------------------------
// Writing a sandbox out: the snapshot of the written tree.

/// What a sandbox holds once written out to a directory: each file of the
/// snapshot that was not written, with its size and digest, and each written
/// path with the length and digest of its new content.
pub open spec fn written_out_map(sb: Sandbox) -> Map<Seq<char>, (u64, Seq<u8>)> {
    file_map(sb.base_snapshot.files@).union_prefer_right(
        change_map(sb.changes@).map_values(|c: Seq<u8>| (c.len() as u64, blake3_digest(c))),
    )
}

/// The digests of a sequence of file entries.
pub open spec fn view_digests(s: Seq<(Seq<char>, u64, Seq<u8>)>) -> Seq<Seq<u8>> {
    s.map_values(|x: (Seq<char>, u64, Seq<u8>)| x.2)
}

/// The entries of the snapshot's files that the sandbox has not written.
pub open spec fn kept_views(files: Seq<FileMetadata>, changes: Seq<FileChange>) -> Seq<(Seq<char>, u64, Seq<u8>)>
    decreases files.len(),
{
    if files.len() == 0 {
        Seq::empty()
    } else {
        let rest = kept_views(files.drop_last(), changes);
        if is_changed(changes, files.last().path@) {
            rest
        } else {
            rest.push(meta_view(files.last()))
        }
    }
}

/// The entries of the written files: path, content length, content digest.
pub open spec fn written_views(changes: Seq<FileChange>) -> Seq<(Seq<char>, u64, Seq<u8>)> {
    changes.map_values(|c: FileChange| (c.path@, c.content@.len() as u64, blake3_digest(c.content@)))
}

/// Adds an entry's digest.
pub open spec fn digest_step() -> spec_fn(Multiset<Seq<u8>>, (Seq<char>, u64, Seq<u8>)) -> Multiset<Seq<u8>> {
    |acc: Multiset<Seq<u8>>, x: (Seq<char>, u64, Seq<u8>)| acc.insert(x.2)
}

proof fn lemma_kept_views(files: Seq<FileMetadata>, changes: Seq<FileChange>)
    requires
        files_distinct(files),
    ensures
        kept_hashes(files, changes) == view_digests(kept_views(files, changes)),
        kept_views(files, changes).no_duplicates(),
        forall|x: (Seq<char>, u64, Seq<u8>)|
            #[trigger] kept_views(files, changes).contains(x) <==> (meta_views(files).contains(x) && !is_changed(
                changes,
                x.0,
            )),
    decreases files.len(),
{
    if files.len() > 0 {
        let init = files.drop_last();
        let last = files.last();
        lemma_kept_views(init, changes);
        assert(meta_views(files) =~= meta_views(init).push(meta_view(last)));
        let k = kept_views(init, changes);
        assert forall|y: (Seq<char>, u64, Seq<u8>)| k.contains(y) implies y.0 != last.path@ by {
            let i = choose|i: int| 0 <= i < meta_views(init).len() && meta_views(init)[i] == y;
            assert(files[i].path@ != files[files.len() - 1].path@);
        }
        assert forall|x: (Seq<char>, u64, Seq<u8>)|
            #[trigger] kept_views(files, changes).contains(x) <==> (meta_views(files).contains(x) && !is_changed(
                changes,
                x.0,
            )) by {
            if meta_views(files).contains(x) {
                let i = choose|i: int| 0 <= i < meta_views(files).len() && meta_views(files)[i] == x;
                if i < init.len() {
                    assert(meta_views(init)[i] == x);
                }
            }
            if meta_views(init).contains(x) {
                let i = choose|i: int| 0 <= i < meta_views(init).len() && meta_views(init)[i] == x;
                assert(meta_views(files)[i] == x);
            }
            if !is_changed(changes, last.path@) {
                let kk = k.push(meta_view(last));
                if kk.contains(x) {
                    let i = choose|i: int| 0 <= i < kk.len() && kk[i] == x;
                    if i < k.len() {
                        assert(k[i] == x);
                    }
                }
                if k.contains(x) {
                    let i = choose|i: int| 0 <= i < k.len() && k[i] == x;
                    assert(kk[i] == x);
                }
                if x == meta_view(last) {
                    assert(kk[k.len() as int] == x);
                    assert(meta_views(files)[files.len() - 1] == x);
                }
            }
        }
        if !is_changed(changes, last.path@) {
            assert(view_digests(k.push(meta_view(last))) =~= view_digests(k).push(last.hash@));
            assert(!k.contains(meta_view(last)));
        }
    }
}

proof fn lemma_written_views(changes: Seq<FileChange>)
    requires
        changes_distinct(changes),
    ensures
        content_hashes(changes) == view_digests(written_views(changes)),
        written_views(changes).no_duplicates(),
        forall|x: (Seq<char>, u64, Seq<u8>)|
            #[trigger] written_views(changes).contains(x) <==> (change_map(changes).dom().contains(x.0) && x.1
                == change_map(changes)[x.0].len() as u64 && x.2 == blake3_digest(change_map(changes)[x.0])),
{
    let w = written_views(changes);
    assert(content_hashes(changes) =~= view_digests(w));
    assert forall|a: int, b: int| 0 <= a < b < w.len() implies w[a] != w[b] by {
        assert(changes[a].path@ != changes[b].path@);
    }
    assert forall|x: (Seq<char>, u64, Seq<u8>)|
        #[trigger] w.contains(x) <==> (change_map(changes).dom().contains(x.0) && x.1 == change_map(changes)[x.0].len() as u64
            && x.2 == blake3_digest(change_map(changes)[x.0])) by {
        if w.contains(x) {
            let i = choose|i: int| 0 <= i < w.len() && w[i] == x;
            lemma_change_map_contains(changes, change_views(changes)[i]);
            assert(change_views(changes).contains(change_views(changes)[i]));
        }
        if change_map(changes).dom().contains(x.0) {
            let y = (x.0, change_map(changes)[x.0]);
            lemma_change_map_contains(changes, y);
            let i = choose|i: int| 0 <= i < change_views(changes).len() && change_views(changes)[i] == y;
            if x.1 == change_map(changes)[x.0].len() as u64 && x.2 == blake3_digest(change_map(changes)[x.0]) {
                assert(w[i] == x);
            }
        }
    }
}

proof fn lemma_view_digests_fold(s: Seq<(Seq<char>, u64, Seq<u8>)>)
    ensures
        view_digests(s).to_multiset() == s.fold_left(Multiset::empty(), digest_step()),
    decreases s.len(),
{
    broadcast use vstd::seq_lib::to_multiset_build;

    if s.len() == 0 {
        let k = view_digests(s);
        vstd::seq_lib::to_multiset_len(k);
        vstd::multiset::lemma_multiset_empty_len(k.to_multiset());
    } else {
        lemma_view_digests_fold(s.drop_last());
        assert(view_digests(s) =~= view_digests(s.drop_last()).push(s.last().2));
    }
}

/// The snapshot of a written-out sandbox has the sandbox's root: a snapshot
/// that lists exactly what the sandbox writes out (its unchanged files and
/// its written contents, each path once) has the sandbox's post-state root.
pub proof fn lemma_written_out_root(sb: Sandbox, s: Snapshot)
    requires
        sb.wf(),
        s.wf(),
        file_map(s.files@) == written_out_map(sb),
    ensures
        tree_root(file_hashes(s.files@)) == tree_root(post_hashes(sb)),
{
    let base = sb.base_snapshot.files@;
    let ch = sb.changes@;
    let files = s.files@;
    lemma_kept_views(base, ch);
    lemma_written_views(ch);
    let k = kept_views(base, ch);
    let w = written_views(ch);
    let p = k + w;
    let v = meta_views(files);
    assert(post_hashes(sb) =~= view_digests(p));
    assert(file_hashes(files) =~= view_digests(v));
    // Both list the same entries, each once.
    assert forall|x: (Seq<char>, u64, Seq<u8>)| k.contains(x) implies !w.contains(x) by {
        lemma_is_changed_dom(ch, x.0);
    }
    assert(p.no_duplicates()) by {
        assert forall|a: int, b: int| 0 <= a < b < p.len() implies p[a] != p[b] by {
            if a < k.len() && b >= k.len() {
                assert(k.contains(p[a]));
                assert(w[b - k.len()] == p[b]);
                assert(w.contains(p[b]));
            } else if a >= k.len() {
                assert(p[a] == w[a - k.len()] && p[b] == w[b - k.len()]);
            } else {
                assert(p[a] == k[a] && p[b] == k[b]);
            }
        }
    }
    assert(v.no_duplicates()) by {
        assert forall|a: int, b: int| 0 <= a < b < files.len() implies v[a] != v[b] by {
            assert(files[a].path@ != files[b].path@);
        }
    }
    assert forall|x: (Seq<char>, u64, Seq<u8>)| v.contains(x) <==> p.contains(x) by {
        lemma_file_map_contains(files, x);
        lemma_file_map_contains(base, x);
        lemma_is_changed_dom(ch, x.0);
        if p.contains(x) {
            let i = choose|i: int| 0 <= i < p.len() && p[i] == x;
            if i < k.len() {
                assert(k.contains(x));
            } else {
                assert(w[i - k.len()] == x);
                assert(w.contains(x));
            }
        }
        if k.contains(x) {
            let i = choose|i: int| 0 <= i < k.len() && k[i] == x;
            assert(p[i] == x);
        }
        if w.contains(x) {
            let i = choose|i: int| 0 <= i < w.len() && w[i] == x;
            assert(p[k.len() + i] == x);
        }
    }
    lemma_same_elements_multiset(v, p);
    let ds = digest_step();
    assert(vstd::seq_lib::commutative_foldl(ds)) by {
        assert forall|x: (Seq<char>, u64, Seq<u8>), y: (Seq<char>, u64, Seq<u8>), m: Multiset<Seq<u8>>|
            #[trigger] ds(ds(m, x), y) == ds(ds(m, y), x) by {
            assert(ds(ds(m, x), y) =~= ds(ds(m, y), x));
        }
    }
    vstd::seq_lib::lemma_fold_left_permutation(v, p, ds, Multiset::empty());
    lemma_view_digests_fold(v);
    lemma_view_digests_fold(p);
    crate::merkle::lemma_tree_root_order_independent(file_hashes(files), post_hashes(sb));
}


proof fn lemma_file_map_dom(files: Seq<FileMetadata>, p: Seq<char>)
    ensures
        file_map(files).dom().contains(p) <==> exists|i: int| 0 <= i < files.len() && #[trigger] files[i].path@ == p,
    decreases files.len(),
{
    if files.len() > 0 {
        let init = files.drop_last();
        lemma_file_map_dom(init, p);
        if file_map(init).dom().contains(p) {
            let i = choose|i: int| 0 <= i < init.len() && #[trigger] init[i].path@ == p;
            assert(files[i].path@ == p);
        }
        if exists|i: int| 0 <= i < files.len() && #[trigger] files[i].path@ == p {
            let i = choose|i: int| 0 <= i < files.len() && #[trigger] files[i].path@ == p;
            if i < init.len() {
                assert(init[i].path@ == p);
            }
        }
    }
}

/// The files copied unchanged when a sandbox is written out are exactly the
/// snapshot's paths that no write of the sandbox has touched; each is listed
/// once when the snapshot lists each path once.
pub proof fn lemma_copied_files(files: Seq<FileMetadata>, changes: Seq<FileChange>, p: Seq<char>)
    ensures
        kept_paths(files, changes).contains(p) <==> (file_map(files).dom().contains(p) && !change_map(
            changes,
        ).dom().contains(p)),
        files_distinct(files) ==> kept_paths(files, changes).no_duplicates(),
    decreases files.len(),
{
    lemma_file_map_dom(files, p);
    lemma_is_changed_dom(changes, p);
    if files.len() > 0 {
        let init = files.drop_last();
        let last = files.last();
        lemma_copied_files(init, changes, p);
        lemma_file_map_dom(init, p);
        let k = kept_paths(init, changes);
        if !is_changed(changes, last.path@) {
            let kk = k.push(last.path@);
            if kk.contains(p) {
                let i = choose|i: int| 0 <= i < kk.len() && kk[i] == p;
                if i < k.len() {
                    assert(k[i] == p);
                }
            }
            if k.contains(p) {
                let i = choose|i: int| 0 <= i < k.len() && k[i] == p;
                assert(kk[i] == p);
            }
            if p == last.path@ {
                assert(kk[k.len() as int] == p);
                lemma_is_changed_dom(changes, last.path@);
            }
            if file_map(files).dom().contains(p) && !change_map(changes).dom().contains(p) && p != last.path@ {
                let i = choose|i: int| 0 <= i < files.len() && #[trigger] files[i].path@ == p;
                assert(init[i].path@ == p);
            }
            if files_distinct(files) {
                assert(files_distinct(init));
                lemma_copied_files(init, changes, last.path@);
                if k.contains(last.path@) {
                    lemma_file_map_dom(init, last.path@);
                    let i = choose|i: int| 0 <= i < init.len() && #[trigger] init[i].path@ == last.path@;
                    assert(files[i].path@ == files[files.len() - 1].path@);
                }
                assert forall|a: int, b: int| 0 <= a < b < kk.len() implies kk[a] != kk[b] by {
                    if b == k.len() {
                        assert(k.contains(kk[a]));
                    } else {
                        assert(kk[a] == k[a] && kk[b] == k[b]);
                    }
                }
            }
        } else {
            lemma_is_changed_dom(changes, last.path@);
            if file_map(files).dom().contains(p) && !change_map(changes).dom().contains(p) {
                let i = choose|i: int| 0 <= i < files.len() && #[trigger] files[i].path@ == p;
                assert(i != files.len() - 1);
                assert(init[i].path@ == p);
            }
            if files_distinct(files) {
                assert(files_distinct(init));
            }
        }
    }
}

} // verus!
