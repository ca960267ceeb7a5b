use duet::actions::{
    batch_resolution, filter_resolved, num_identical, num_unresolved_conflicts, pair_changes,
    resolve_action, reverse, Action, AllResolution, Resolution,
};
use duet::scan::change::Change;
use duet::scan::DirEntryWithMeta;

fn file_entry(path: &str, size: u64, mtime: i64, ino: u64) -> DirEntryWithMeta {
    DirEntryWithMeta::new(
        path.as_bytes().to_vec(),
        size,
        mtime,
        ino,
        0o644,
        None,
        false,
        0,
    )
}

#[test]
fn local_only_changes_become_remote_actions() {
    let local = vec![
        Change::Added(file_entry("a", 1, 1, 1)),
        Change::Removed(file_entry("b", 2, 2, 2)),
    ];
    let remote = vec![];
    let actions = pair_changes(&local, &remote);
    assert_eq!(actions.len(), 2);
    assert!(matches!(&actions[0], Action::Remote(Change::Added(_))));
    assert!(matches!(&actions[1], Action::Remote(Change::Removed(_))));
}

#[test]
fn remote_only_changes_become_local_actions() {
    let local = vec![];
    let remote = vec![
        Change::Added(file_entry("a", 1, 1, 1)),
        Change::Modified(file_entry("b", 2, 2, 2), file_entry("b", 3, 3, 3)),
    ];
    let actions = pair_changes(&local, &remote);
    assert_eq!(actions.len(), 2);
    assert!(matches!(&actions[0], Action::Local(Change::Added(_))));
    assert!(matches!(&actions[1], Action::Local(Change::Modified(_, _))));
}

#[test]
fn equal_changes_pair_as_identical_diverging_as_conflict() {
    let local = vec![
        Change::Added(file_entry("a", 5, 9, 1)),
        Change::Added(file_entry("b", 1, 1, 1)),
    ];
    let remote = vec![
        Change::Added(file_entry("a", 5, 9, 42)),
        Change::Added(file_entry("b", 2, 1, 1)),
    ];
    let actions = pair_changes(&local, &remote);
    assert!(matches!(&actions[0], Action::Identical(_, _)));
    assert!(matches!(&actions[1], Action::Conflict(_, _)));
    assert_eq!(num_unresolved_conflicts(&actions), 1);
    assert_eq!(num_identical(&actions), 1);
}

#[test]
fn reverse_twice_is_identity() {
    let actions = vec![
        Action::Remote(Change::Added(file_entry("a", 1, 1, 1))),
        Action::Local(Change::Removed(file_entry("b", 2, 2, 2))),
        Action::Conflict(
            Change::Added(file_entry("c", 1, 1, 1)),
            Change::Added(file_entry("c", 2, 2, 2)),
        ),
        Action::Identical(
            Change::Added(file_entry("d", 1, 1, 1)),
            Change::Added(file_entry("d", 1, 1, 2)),
        ),
    ];
    let back = reverse(&reverse(&actions));
    assert_eq!(back, actions);
}

#[test]
fn reverse_swaps_sides() {
    let actions = vec![Action::Remote(Change::Added(file_entry("a", 1, 1, 1)))];
    let rev = reverse(&actions);
    assert!(matches!(&rev[0], Action::Local(Change::Added(_))));
}

#[test]
fn resolving_keeps_the_chosen_side() {
    let base = file_entry("a", 1, 1, 1);
    let ln = file_entry("a", 2, 2, 2);
    let rn = file_entry("a", 3, 3, 3);
    let conflict = Action::Conflict(
        Change::Modified(base.duplicate(), ln.duplicate()),
        Change::Modified(base.duplicate(), rn.duplicate()),
    );
    // keep the remote state: the local side applies remote's new contents
    let toward_remote = resolve_action(&conflict, Resolution::Local);
    assert!(matches!(&toward_remote, Action::ResolvedLocal(_, Change::Modified(f, t))
        if f.size() == 2 && t.size() == 3));
    // keep the local state: the remote side applies local's new contents
    let toward_local = resolve_action(&conflict, Resolution::Remote);
    assert!(matches!(&toward_local, Action::ResolvedRemote(_, Change::Modified(f, t))
        if f.size() == 3 && t.size() == 2));
}

#[test]
fn resolving_a_removal_conflict() {
    let base = file_entry("a", 1, 1, 1);
    let rn = file_entry("a", 3, 3, 3);
    let conflict = Action::Conflict(
        Change::Removed(base.duplicate()),
        Change::Modified(base.duplicate(), rn.duplicate()),
    );
    // take the remote state: the file comes back locally
    let a = resolve_action(&conflict, Resolution::Local);
    assert!(matches!(&a, Action::ResolvedLocal(_, Change::Added(e)) if e.size() == 3));
    // take the local state: the remote copy is removed too
    let b = resolve_action(&conflict, Resolution::Remote);
    assert!(matches!(&b, Action::ResolvedRemote(_, Change::Removed(_))));
}

#[test]
fn unresolved_conflicts_are_filtered_before_apply() {
    let actions = vec![
        Action::Remote(Change::Added(file_entry("a", 1, 1, 1))),
        Action::Conflict(
            Change::Added(file_entry("c", 1, 1, 1)),
            Change::Added(file_entry("c", 2, 2, 2)),
        ),
    ];
    let kept = filter_resolved(&actions);
    assert_eq!(kept.len(), 1);
    assert!(matches!(&kept[0], Action::Remote(_)));
}

#[test]
fn batch_runs_abort_on_conflicts_unless_forced() {
    assert_eq!(batch_resolution(false, 0), AllResolution::Proceed);
    assert_eq!(batch_resolution(false, 3), AllResolution::Abort);
    assert_eq!(batch_resolution(true, 3), AllResolution::Force);
}

#[test]
fn create_pairs_optional_changes() {
    let lc = Change::Added(file_entry("a", 5, 9, 1));
    let rc_same = Change::Added(file_entry("a", 5, 9, 7));
    let rc_other = Change::Added(file_entry("a", 6, 9, 7));
    assert!(matches!(
        Action::create(Some(&lc), None),
        Some(Action::Remote(_))
    ));
    assert!(matches!(
        Action::create(None, Some(&rc_same)),
        Some(Action::Local(_))
    ));
    assert!(matches!(
        Action::create(Some(&lc), Some(&rc_same)),
        Some(Action::Identical(_, _))
    ));
    assert!(matches!(
        Action::create(Some(&lc), Some(&rc_other)),
        Some(Action::Conflict(_, _))
    ));
    assert!(Action::create(None, None).is_none());
}
