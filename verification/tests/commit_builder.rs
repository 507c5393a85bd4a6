use bump2version::repo::{
    build_commit, check_working_tree, plan_file_update, render_message, RefStore,
};
use bump2version::text::{contains_bytes, replace_all};
use bump2version::tree::{build_commit_tree, EntryMode, TreeEntry};
use bump2version::BumpError;

fn entry(name: &[u8], oid: &[u8], mode: EntryMode) -> TreeEntry {
    TreeEntry {
        filename: name.to_vec(),
        oid: oid.to_vec(),
        mode,
    }
}

#[test]
fn changed_blob_replaces_entry_and_marks_modified() {
    let current = vec![
        entry(b"a.txt", b"oid1", EntryMode::Regular),
        entry(b"b.txt", b"oid2", EntryMode::Regular),
    ];
    let updates = vec![entry(b"a.txt", b"oid3", EntryMode::Regular)];
    let (tree, modified) = build_commit_tree(&current, &updates);
    assert!(modified);
    assert_eq!(tree.len(), 2);
    assert_eq!(tree[0].filename, b"a.txt".to_vec());
    assert_eq!(tree[0].oid, b"oid3".to_vec());
    assert_eq!(tree[1].filename, b"b.txt".to_vec());
    assert_eq!(tree[1].oid, b"oid2".to_vec());
}

#[test]
fn unchanged_blobs_trigger_the_no_op_path_twice() {
    let current = vec![
        entry(b"a.txt", b"oid1", EntryMode::Regular),
        entry(b"b.txt", b"oid2", EntryMode::Regular),
    ];
    let updates = vec![entry(b"a.txt", b"oid1", EntryMode::Regular)];
    let (tree, modified) = build_commit_tree(&current, &updates);
    assert!(!modified);
    // Nothing was committed, so the tree the next run starts from is the
    // same; running the builder again is a no-op again.
    let (_, modified_again) = build_commit_tree(&current, &updates);
    assert!(!modified_again);
    assert_eq!(tree.len(), 2);
}

#[test]
fn unchanged_blob_keeps_the_existing_mode() {
    let current = vec![entry(b"run.sh", b"oid1", EntryMode::Executable)];
    let updates = vec![entry(b"run.sh", b"oid1", EntryMode::Regular)];
    let (tree, modified) = build_commit_tree(&current, &updates);
    assert!(!modified);
    assert_eq!(tree[0].mode, EntryMode::Executable);
}

#[test]
fn new_file_is_added_and_entries_are_sorted() {
    let current = vec![entry(b"b.txt", b"oid2", EntryMode::Regular)];
    let updates = vec![
        entry(b"z.txt", b"oid9", EntryMode::Regular),
        entry(b"a.txt", b"oid1", EntryMode::Executable),
    ];
    let (tree, modified) = build_commit_tree(&current, &updates);
    assert!(modified);
    let names: Vec<Vec<u8>> = tree.iter().map(|e| e.filename.clone()).collect();
    assert_eq!(
        names,
        vec![b"a.txt".to_vec(), b"b.txt".to_vec(), b"z.txt".to_vec()]
    );
    assert_eq!(tree[0].mode, EntryMode::Executable);
}

#[test]
fn change_outside_target_list_is_a_dirty_tree() {
    let changed = vec![b"notes.md".to_vec()];
    let targets = vec![b"Cargo.toml".to_vec(), b".bumpversion.toml".to_vec()];
    assert_eq!(
        check_working_tree(&changed, &targets),
        Err(BumpError::DirtyWorkingTree)
    );
}

#[test]
fn changes_only_to_targets_are_allowed() {
    let changed = vec![b"Cargo.toml".to_vec()];
    let targets = vec![b"Cargo.toml".to_vec(), b".bumpversion.toml".to_vec()];
    assert_eq!(check_working_tree(&changed, &targets), Ok(()));
    assert_eq!(check_working_tree(&Vec::new(), &targets), Ok(()));
}

#[test]
fn file_update_replaces_every_occurrence() {
    let r = plan_file_update(b"version = 1.2.3\n", b"1.2.3", b"1.2.4");
    assert_eq!(r, Ok(b"version = 1.2.4\n".to_vec()));
}

#[test]
fn file_update_is_plain_substring_replacement() {
    // The replacement is literal, not token-aware: the version is replaced
    // even where it is only a prefix of a longer number.
    let r = plan_file_update(b"version = 1.2.30", b"1.2.3", b"1.2.4");
    assert_eq!(r, Ok(b"version = 1.2.40".to_vec()));
}

#[test]
fn file_without_the_version_is_an_error() {
    let r = plan_file_update(b"nothing here\n", b"1.2.3", b"1.2.4");
    assert_eq!(r, Err(BumpError::MissingVersionInFile));
}

#[test]
fn replace_all_handles_repeats_and_absence() {
    assert_eq!(replace_all(b"a 1.2, b 1.2", b"1.2", b"2.0"), b"a 2.0, b 2.0".to_vec());
    assert_eq!(replace_all(b"nothing", b"1.2", b"2.0"), b"nothing".to_vec());
    assert!(contains_bytes(b"a 1.2", b"1.2"));
    assert!(!contains_bytes(b"a 1,2", b"1.2"));
}

#[test]
fn message_template_substitutes_both_versions() {
    let msg = render_message(
        b"Bump version: {current_version} -> {new_version}",
        b"1.2.3",
        b"1.2.4",
    );
    assert_eq!(msg, b"Bump version: 1.2.3 -> 1.2.4".to_vec());
}

#[test]
fn commit_record_copies_identity_and_message() {
    let c = build_commit(
        b"tree1",
        b"parent1",
        b"Jane Doe",
        b"jane@example.com",
        b"Bump {current_version} to {new_version}",
        b"0.1.0",
        b"0.1.1",
    );
    assert_eq!(c.tree, b"tree1".to_vec());
    assert_eq!(c.parent, b"parent1".to_vec());
    assert_eq!(c.author_name, b"Jane Doe".to_vec());
    assert_eq!(c.author_email, b"jane@example.com".to_vec());
    assert_eq!(c.message, b"Bump 0.1.0 to 0.1.1".to_vec());
}

#[test]
fn branch_swap_succeeds_only_on_expected_value() {
    let mut store = RefStore::new();
    assert_eq!(store.create_ref(b"refs/heads/main", b"commit1"), Ok(()));
    assert_eq!(
        store.compare_and_swap(b"refs/heads/main", b"commit1", b"commit2"),
        Ok(())
    );
    assert_eq!(store.read_ref(b"refs/heads/main"), Some(b"commit2".to_vec()));
}

#[test]
fn branch_moved_by_another_process_is_a_ref_conflict() {
    let mut store = RefStore::new();
    assert_eq!(store.create_ref(b"refs/heads/main", b"commit1"), Ok(()));
    // Another process moves the branch between our read and our update.
    assert_eq!(
        store.compare_and_swap(b"refs/heads/main", b"commit1", b"other"),
        Ok(())
    );
    // Our update still expects the value we read first: it must fail and
    // leave the reference exactly where the other process put it.
    assert_eq!(
        store.compare_and_swap(b"refs/heads/main", b"commit1", b"commit2"),
        Err(BumpError::RefConflict)
    );
    assert_eq!(store.read_ref(b"refs/heads/main"), Some(b"other".to_vec()));
}

#[test]
fn missing_branch_is_a_ref_conflict() {
    let mut store = RefStore::new();
    assert_eq!(
        store.compare_and_swap(b"refs/heads/main", b"commit1", b"commit2"),
        Err(BumpError::RefConflict)
    );
}

#[test]
fn existing_tag_is_never_overwritten() {
    let mut store = RefStore::new();
    assert_eq!(store.create_ref(b"refs/tags/v1.2.4", b"commit2"), Ok(()));
    assert_eq!(
        store.create_ref(b"refs/tags/v1.2.4", b"commit3"),
        Err(BumpError::DuplicateTag)
    );
    assert_eq!(store.read_ref(b"refs/tags/v1.2.4"), Some(b"commit2".to_vec()));
}
