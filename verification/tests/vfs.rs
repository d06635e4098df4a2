use fileflow::journal::MerkleTree;
use fileflow::vfs::{checkout, checkout_block_index, CheckoutError, FileChange, ListedFile, Sandbox, Snapshot};

fn h(bytes: &[u8]) -> [u8; 32] {
    *blake3::hash(bytes).as_bytes()
}

fn listed(path: &str, content: &[u8]) -> ListedFile {
    ListedFile { path: path.to_string(), size: content.len() as u64, content: content.to_vec() }
}

fn snapshot() -> Snapshot {
    Snapshot::create("/data".to_string(), vec![listed("a.txt", b"aaa"), listed("dir/b.txt", b"bb")])
}

#[test]
fn create_hashes_each_file() {
    let s = snapshot();
    assert_eq!(s.root, "/data");
    assert_eq!(s.files.len(), 2);
    assert_eq!(s.files[0].path, "a.txt");
    assert_eq!(s.files[0].size, 3);
    assert_eq!(s.files[0].hash, h(b"aaa"));
    assert_eq!(s.files[1].hash, h(b"bb"));
}

#[test]
fn create_keeps_last_entry_for_a_path() {
    let s = Snapshot::create("/d".to_string(), vec![listed("x", b"1"), listed("x", b"22")]);
    assert_eq!(s.files.len(), 1);
    assert_eq!(s.files[0].hash, h(b"22"));
    assert_eq!(s.files[0].size, 2);
}

#[test]
fn snapshot_root_matches_merkle_tree() {
    let s = snapshot();
    let expected = MerkleTree::from_hashes(vec![h(b"aaa"), h(b"bb")]).root;
    assert_eq!(s.compute_merkle_root(), expected);
    let empty = Snapshot::create("/e".to_string(), vec![]);
    assert_eq!(empty.compute_merkle_root(), [0u8; 32]);
}

#[test]
fn unchanged_sandbox_has_snapshot_root() {
    let s = snapshot();
    let root = s.compute_merkle_root();
    let sb = Sandbox::new(s, "/tmp/work".to_string());
    assert!(sb.changes.is_empty());
    assert_eq!(sb.work_dir, "/tmp/work");
    assert_eq!(sb.compute_post_merkle_root(), root);
}

#[test]
fn written_file_replaces_its_snapshot_digest() {
    let mut sb = Sandbox::new(snapshot(), "/w".to_string());
    sb.write_file("a.txt".to_string(), b"new".to_vec());
    let expected = MerkleTree::from_hashes(vec![h(b"bb"), h(b"new")]).root;
    assert_eq!(sb.compute_post_merkle_root(), expected);
    assert_eq!(sb.files_to_copy(), vec!["dir/b.txt".to_string()]);
}

#[test]
fn later_write_to_same_path_wins() {
    let mut sb = Sandbox::new(snapshot(), "/w".to_string());
    sb.write_file("c.txt".to_string(), b"first".to_vec());
    sb.write_file("c.txt".to_string(), b"second".to_vec());
    assert_eq!(sb.changes.len(), 1);
    assert_eq!(sb.changes[0].content, b"second".to_vec());
    let expected = MerkleTree::from_hashes(vec![h(b"aaa"), h(b"bb"), h(b"second")]).root;
    assert_eq!(sb.compute_post_merkle_root(), expected);
    assert_eq!(sb.files_to_copy(), vec!["a.txt".to_string(), "dir/b.txt".to_string()]);
}

#[test]
fn writing_identical_content_keeps_the_root() {
    let s = snapshot();
    let root = s.compute_merkle_root();
    let mut sb = Sandbox::new(s, "/w".to_string());
    sb.write_file("a.txt".to_string(), b"aaa".to_vec());
    assert_eq!(sb.compute_post_merkle_root(), root);
}

#[test]
fn root_does_not_depend_on_entry_order() {
    let s1 = Snapshot::create("/o".to_string(), vec![listed("a", b"1"), listed("b", b"2"), listed("c", b"3")]);
    let s2 = Snapshot::create("/o".to_string(), vec![listed("c", b"3"), listed("a", b"1"), listed("b", b"2")]);
    let mut x = Sandbox::new(s1, "/w".to_string());
    let mut y = Sandbox::new(s2, "/w".to_string());
    x.write_file("b".to_string(), b"B".to_vec());
    x.write_file("d".to_string(), b"D".to_vec());
    y.write_file("d".to_string(), b"D".to_vec());
    y.write_file("b".to_string(), b"B".to_vec());
    assert_eq!(x.compute_post_merkle_root(), y.compute_post_merkle_root());
    assert_eq!(x.base_snapshot.compute_merkle_root(), y.base_snapshot.compute_merkle_root());
}

#[test]
fn checkout_step_selects_block() {
    assert_eq!(checkout_block_index(0), 0);
    assert_eq!(checkout_block_index(1), 0);
    assert_eq!(checkout_block_index(5), 4);
}

fn change(path: &str, content: &[u8]) -> FileChange {
    FileChange { path: path.to_string(), content: content.to_vec() }
}

#[test]
fn checkout_restores_journaled_state_in_any_order() {
    let mut recorded = Sandbox::new(snapshot(), "/w".to_string());
    let pre = recorded.compute_post_merkle_root();
    recorded.write_file("a.txt".to_string(), b"A".to_vec());
    recorded.write_file("new.txt".to_string(), b"N".to_vec());
    let post = recorded.compute_post_merkle_root();

    let base = Snapshot::create("/data".to_string(), vec![listed("dir/b.txt", b"bb"), listed("a.txt", b"aaa")]);
    let changes = vec![change("new.txt", b"N"), change("a.txt", b"A")];
    let sb = checkout(2, base.clone(), changes, pre, post, "/tmp/co".to_string()).unwrap();
    assert_eq!(sb.work_dir, "/tmp/co");
    assert_eq!(sb.changes.len(), 2);
    assert_eq!(sb.compute_post_merkle_root(), post);

    let sb0 = checkout(0, base, vec![change("ignored", b"x")], pre, post, "/tmp/co".to_string()).unwrap();
    assert!(sb0.changes.is_empty());
    assert_eq!(sb0.compute_post_merkle_root(), pre);
}

#[test]
fn checkout_refuses_mismatched_state() {
    let s = snapshot();
    let pre = s.compute_merkle_root();
    let wrong = [7u8; 32];
    let err = checkout(1, s.clone(), vec![change("a.txt", b"tampered")], pre, wrong, "/c".to_string()).unwrap_err();
    let expected_actual = MerkleTree::from_hashes(vec![h(b"bb"), h(b"tampered")]).root;
    assert_eq!(err, CheckoutError::HashMismatch { expected: wrong, actual: expected_actual });
    let err0 = checkout(0, s, vec![], wrong, pre, "/c".to_string()).unwrap_err();
    assert_eq!(err0, CheckoutError::HashMismatch { expected: wrong, actual: pre });
}

#[test]
fn written_out_tree_has_the_sandbox_root() {
    let mut sb = Sandbox::new(snapshot(), "/w".to_string());
    sb.write_file("a.txt".to_string(), b"changed".to_vec());
    sb.write_file("new/c.txt".to_string(), b"cc".to_vec());
    let originals = [("a.txt", b"aaa".to_vec()), ("dir/b.txt", b"bb".to_vec())];
    let mut listing: Vec<ListedFile> = Vec::new();
    for path in sb.files_to_copy() {
        let content = originals.iter().find(|(p, _)| *p == path).unwrap().1.clone();
        listing.push(listed(&path, &content));
    }
    for c in &sb.changes {
        listing.push(listed(&c.path, &c.content));
    }
    let written = Snapshot::create("/out".to_string(), listing);
    assert_eq!(written.files.len(), 3);
    assert_eq!(written.compute_merkle_root(), sb.compute_post_merkle_root());
}
