use duet::actions::{pair_changes, reverse, Action, Resolution};
use duet::actions::resolve_action;
use duet::scan::change::{changes, Change};
use duet::scan::DirEntryWithMeta;
use duet::sync::{
    apply_detailed_changes, detail_requests, get_signatures, ApplyError, ChangeDetails,
    DetailRequest, FsOp,
};

fn file_entry(path: &str, size: u64, mtime: i64, ino: u64) -> DirEntryWithMeta {
    DirEntryWithMeta::new(
        path.as_bytes().to_vec(),
        size,
        mtime,
        ino,
        0o644,
        None,
        false,
        0,
    )
}

fn dir_entry(path: &str, mtime: i64) -> DirEntryWithMeta {
    DirEntryWithMeta::new(path.as_bytes().to_vec(), 0, mtime, 1, 0o755, None, true, 0)
}

fn link_entry(path: &str, target: &str) -> DirEntryWithMeta {
    DirEntryWithMeta::new(
        path.as_bytes().to_vec(),
        0,
        5,
        2,
        0o777,
        Some(target.as_bytes().to_vec()),
        false,
        0,
    )
}

#[test]
fn one_sided_add_reaches_the_peer() {
    // local has {a: "hello"}, the peer has nothing, no prior snapshot anywhere
    let a = file_entry("a", 5, 10, 3);
    let local_changes = changes(&vec![], &vec![a.duplicate()]);
    let remote_changes = changes(&vec![], &vec![]);
    assert_eq!(remote_changes, vec![]);

    let actions = pair_changes(&local_changes, &remote_changes);
    assert_eq!(actions.len(), 1);
    assert!(matches!(&actions[0], Action::Remote(Change::Added(e)) if e.path() == b"a"));

    // this side reads the file it owes the peer
    let requests = detail_requests(&actions);
    assert_eq!(requests, vec![DetailRequest::WholeFile(b"a".to_vec())]);
    let details = vec![ChangeDetails::Contents(b"hello".to_vec())];

    // the peer applies the reversed actions with those details
    let remote_actions = reverse(&actions);
    let mut remote_snapshot: Vec<DirEntryWithMeta> = vec![];
    let ops = apply_detailed_changes(&remote_actions, &details, &mut remote_snapshot).unwrap();
    assert_eq!(
        ops,
        vec![
            FsOp::WriteFile(b"a".to_vec(), b"hello".to_vec()),
            FsOp::SetMeta(b"a".to_vec(), 0o644, 10, false),
        ]
    );
    assert_eq!(remote_snapshot.len(), 1);
    assert_eq!(remote_snapshot[0].path(), &b"a".to_vec());

    // this side only records the entry; it touches nothing
    let mut local_snapshot: Vec<DirEntryWithMeta> = vec![];
    let ops = apply_detailed_changes(&actions, &vec![], &mut local_snapshot).unwrap();
    assert_eq!(ops, vec![]);
    assert_eq!(local_snapshot.len(), 1);
    assert_eq!(local_snapshot[0].path(), &b"a".to_vec());
}

#[test]
fn identical_edits_transfer_nothing() {
    // both sides changed a from "hi" to "hey" with the same bytes
    let old_l = file_entry("a", 2, 1, 3);
    let new_l = file_entry("a", 3, 9, 3);
    let old_r = file_entry("a", 2, 1, 8);
    let new_r = file_entry("a", 3, 9, 8);

    let local_changes = changes(&vec![old_l.duplicate()], &vec![new_l.duplicate()]);
    let remote_changes = changes(&vec![old_r.duplicate()], &vec![new_r.duplicate()]);
    let actions = pair_changes(&local_changes, &remote_changes);
    assert_eq!(actions.len(), 1);
    assert!(matches!(&actions[0], Action::Identical(_, _)));

    // no content moves in either direction
    assert_eq!(detail_requests(&actions), vec![]);
    assert_eq!(get_signatures(&actions), Vec::<Vec<u8>>::new());

    // both snapshots pick up the new metadata without filesystem work
    let mut snapshot = vec![old_l.duplicate()];
    let ops = apply_detailed_changes(&actions, &vec![], &mut snapshot).unwrap();
    assert_eq!(ops, vec![]);
    assert_eq!(snapshot.len(), 1);
    assert_eq!(snapshot[0].size(), 3);
    assert_eq!(snapshot[0].mtime(), 9);
}

#[test]
fn unresolved_conflict_mutates_nothing() {
    let base = file_entry("a", 2, 1, 3);
    let ln = file_entry("a", 1, 5, 3);
    let rn = file_entry("a", 1, 6, 8);
    let local_changes = vec![Change::Modified(base.duplicate(), ln.duplicate())];
    let remote_changes = vec![Change::Modified(base.duplicate(), rn.duplicate())];
    let actions = pair_changes(&local_changes, &remote_changes);
    assert!(matches!(&actions[0], Action::Conflict(_, _)));

    // a forced batch run carries the conflict into apply, which skips it
    let mut snapshot = vec![base.duplicate()];
    let ops = apply_detailed_changes(&actions, &vec![], &mut snapshot).unwrap();
    assert_eq!(ops, vec![]);
    assert_eq!(snapshot, vec![base.duplicate()]);
}

#[test]
fn symlink_file_conflict_resolved_toward_the_peer() {
    // locally a is a regular file; on the peer it is a symlink to b
    let lf = file_entry("a", 5, 10, 3);
    let rl = link_entry("a", "b");
    let actions = pair_changes(
        &vec![Change::Added(lf.duplicate())],
        &vec![Change::Added(rl.duplicate())],
    );
    assert!(matches!(&actions[0], Action::Conflict(_, _)));

    // keep the peer's state: this side turns its file into the symlink
    let resolved = resolve_action(&actions[0], Resolution::Local);
    let mut snapshot = vec![lf.duplicate()];
    let ops = apply_detailed_changes(&vec![resolved], &vec![], &mut snapshot).unwrap();
    assert_eq!(
        ops,
        vec![
            FsOp::RemoveFile(b"a".to_vec()),
            FsOp::CreateSymlink(b"a".to_vec(), b"b".to_vec()),
            FsOp::SetMeta(b"a".to_vec(), 0o777, 5, true),
        ]
    );
    assert_eq!(snapshot.len(), 1);
    assert!(snapshot[0].is_symlink());
    assert_eq!(snapshot[0].target().as_deref(), Some(b"b".as_slice()));
}

#[test]
fn directory_becomes_file_in_two_passes() {
    // the old snapshot has directory d with d/x inside; d is now a file
    let d_dir = dir_entry("d", 1);
    let d_file = file_entry("d", 4, 20, 9);
    let dx = file_entry("d/x", 2, 2, 7);
    let old_snapshot = vec![d_dir.duplicate(), dx.duplicate()];
    let scan_now = vec![d_file.duplicate()];

    let local_changes = changes(&old_snapshot, &scan_now);
    assert_eq!(local_changes.len(), 2);
    assert!(matches!(&local_changes[0], Change::Modified(o, n) if o.is_dir() && n.is_file()));
    assert!(matches!(&local_changes[1], Change::Removed(_)));

    // the peer sees these as its local actions and receives whole contents
    let actions: Vec<Action> = local_changes
        .iter()
        .map(|c| Action::Local(c.duplicate()))
        .collect();
    let details = vec![ChangeDetails::Contents(b"data".to_vec())];
    let mut snapshot = old_snapshot;
    let ops = apply_detailed_changes(&actions, &details, &mut snapshot).unwrap();
    assert_eq!(
        ops,
        vec![
            // forward pass: empty the directory
            FsOp::RemoveFile(b"d/x".to_vec()),
            // reverse pass: remove it and put the file in its place
            FsOp::RemoveDir(b"d".to_vec()),
            FsOp::WriteFile(b"d".to_vec(), b"data".to_vec()),
            FsOp::SetMeta(b"d".to_vec(), 0o644, 20, false),
        ]
    );
    assert_eq!(snapshot.len(), 1);
    assert!(snapshot[0].is_file());
    assert_eq!(snapshot[0].path(), &b"d".to_vec());
}

#[test]
fn modified_file_travels_as_a_delta() {
    let old = file_entry("a", 4, 1, 3);
    let new = file_entry("a", 4, 2, 3);
    let actions = vec![Action::Local(Change::Modified(
        old.duplicate(),
        new.duplicate(),
    ))];
    // the applying side offers a signature of its current file
    assert_eq!(get_signatures(&actions), vec![b"a".to_vec()]);
    // the sending side answers it with a delta
    let sending = reverse(&actions);
    assert_eq!(
        detail_requests(&sending),
        vec![DetailRequest::DeltaAgainst(b"a".to_vec())]
    );
}

#[test]
fn apply_rejects_missing_or_misshapen_details() {
    let a = file_entry("a", 5, 10, 3);
    let actions = vec![Action::Local(Change::Added(a.duplicate()))];

    let mut snapshot: Vec<DirEntryWithMeta> = vec![];
    let r = apply_detailed_changes(&actions, &vec![], &mut snapshot);
    assert_eq!(r, Err(ApplyError::MissingDetail));
    assert_eq!(snapshot, vec![]);

    let sig = duet::rustsync::signature(&[], 32);
    let delta = duet::rustsync::compare(&sig, &[]);
    let details = vec![ChangeDetails::Diff(delta)];
    let r = apply_detailed_changes(&actions, &details, &mut snapshot);
    assert_eq!(r, Err(ApplyError::WrongDetail));
    assert_eq!(snapshot, vec![]);
}

#[test]
fn apply_keeps_untouched_entries() {
    let keep1 = file_entry("0before", 1, 1, 1);
    let gone = file_entry("b", 2, 2, 2);
    let keep2 = file_entry("z", 3, 3, 3);
    let actions = vec![Action::Local(Change::Removed(gone.duplicate()))];
    let mut snapshot = vec![keep1.duplicate(), gone.duplicate(), keep2.duplicate()];
    let ops = apply_detailed_changes(&actions, &vec![], &mut snapshot).unwrap();
    assert_eq!(ops, vec![FsOp::RemoveFile(b"b".to_vec())]);
    assert_eq!(snapshot, vec![keep1, keep2]);
}

#[test]
fn second_sync_detects_no_changes() {
    // after a successful sync, both snapshots hold entry a; a rescan that
    // finds the same state yields no changes and no actions
    let a = file_entry("a", 5, 10, 3);
    let local_snapshot = vec![a.duplicate()];
    let remote_snapshot = vec![a.duplicate()];
    let local_rescan = vec![a.duplicate()];
    let remote_rescan = vec![a.duplicate()];
    let local_changes = changes(&local_snapshot, &local_rescan);
    let remote_changes = changes(&remote_snapshot, &remote_rescan);
    assert_eq!(local_changes, vec![]);
    assert_eq!(remote_changes, vec![]);
    assert_eq!(pair_changes(&local_changes, &remote_changes), vec![]);
}

#[test]
fn both_sides_converge() {
    // one side removes b and adds c; after applying the actions here and the
    // reversed actions there, the snapshots list the same paths
    let b = file_entry("b", 2, 2, 2);
    let c = file_entry("c", 3, 3, 3);
    let actions = vec![
        Action::Local(Change::Removed(b.duplicate())),
        Action::Remote(Change::Added(c.duplicate())),
    ];
    let mut local = vec![b.duplicate()];
    let mut remote = vec![b.duplicate()];
    apply_detailed_changes(&actions, &vec![], &mut local).unwrap();
    apply_detailed_changes(
        &reverse(&actions),
        &vec![ChangeDetails::Contents(b"ccc".to_vec())],
        &mut remote,
    )
    .unwrap();
    let local_paths: Vec<&Vec<u8>> = local.iter().map(|e| e.path()).collect();
    let remote_paths: Vec<&Vec<u8>> = remote.iter().map(|e| e.path()).collect();
    assert_eq!(local_paths, vec![&b"c".to_vec()]);
    assert_eq!(local_paths, remote_paths);
    assert_eq!(local[0].size(), remote[0].size());
    assert_eq!(local[0].mtime(), remote[0].mtime());
}
