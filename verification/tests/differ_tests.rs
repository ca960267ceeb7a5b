use duet::scan::change::{changes, same, Change};
use duet::scan::DirEntryWithMeta;

fn file_entry(path: &str, size: u64, mtime: i64, ino: u64) -> DirEntryWithMeta {
    DirEntryWithMeta::new(
        path.as_bytes().to_vec(),
        size,
        mtime,
        ino,
        0o644,
        None,
        false,
        0,
    )
}

fn dir_entry(path: &str, mtime: i64) -> DirEntryWithMeta {
    DirEntryWithMeta::new(path.as_bytes().to_vec(), 0, mtime, 1, 0o755, None, true, 0)
}

fn link_entry(path: &str, target: &str) -> DirEntryWithMeta {
    DirEntryWithMeta::new(
        path.as_bytes().to_vec(),
        0,
        5,
        2,
        0o777,
        Some(target.as_bytes().to_vec()),
        false,
        0,
    )
}

#[test]
fn diff_of_snapshot_with_itself_is_empty() {
    let snap = vec![
        dir_entry("a", 1),
        file_entry("a/x", 10, 2, 7),
        link_entry("b", "a/x"),
    ];
    let snap2 = vec![
        dir_entry("a", 1),
        file_entry("a/x", 10, 2, 7),
        link_entry("b", "a/x"),
    ];
    assert_eq!(changes(&snap, &snap2), vec![]);
}

#[test]
fn diff_reports_sorted_changes() {
    let old = vec![file_entry("a", 1, 1, 1), file_entry("c", 3, 3, 3)];
    let new = vec![file_entry("b", 2, 2, 2)];
    let cs = changes(&old, &new);
    assert_eq!(cs.len(), 3);
    assert!(matches!(&cs[0], Change::Removed(e) if e.path() == b"a"));
    assert!(matches!(&cs[1], Change::Added(e) if e.path() == b"b"));
    assert!(matches!(&cs[2], Change::Removed(e) if e.path() == b"c"));
    let paths: Vec<&[u8]> = cs.iter().map(|c| c.path().as_slice()).collect();
    let mut sorted = paths.clone();
    sorted.sort();
    assert_eq!(paths, sorted);
}

#[test]
fn diff_detects_metadata_modification() {
    let old = vec![file_entry("a", 10, 100, 7)];
    let new = vec![file_entry("a", 10, 200, 7)];
    let cs = changes(&old, &new);
    assert_eq!(cs.len(), 1);
    assert!(matches!(&cs[0], Change::Modified(o, n)
        if o.mtime() == 100 && n.mtime() == 200));
}

#[test]
fn diff_ignores_symlink_mode() {
    let mut old_link = link_entry("l", "t");
    // symlinks compare by target, not permissions
    let new_link = link_entry("l", "t");
    old_link.set_ino(2);
    let cs = changes(&vec![old_link], &vec![new_link]);
    assert_eq!(cs, vec![]);
}

#[test]
fn same_compares_new_side_fingerprints() {
    let a1 = Change::Added(file_entry("a", 5, 9, 1));
    let a2 = Change::Added(file_entry("a", 5, 9, 99));
    // inode is not part of the cross-machine fingerprint
    assert!(same(&a1, &a2));
    let a3 = Change::Added(file_entry("a", 6, 9, 1));
    assert!(!same(&a1, &a3));
    let r1 = Change::Removed(file_entry("a", 5, 9, 1));
    let r2 = Change::Removed(file_entry("a", 1, 1, 1));
    assert!(same(&r1, &r2));
    assert!(!same(&a1, &r1));
}

#[test]
fn checksum_follows_contents() {
    let mut e = file_entry("a", 5, 1, 1);
    e.compute_checksum(&b"hello".to_vec());
    // Adler-32 of "hello"
    assert_eq!(e.checksum(), 0x062C_0215);
    let mut d = dir_entry("d", 1);
    d.compute_checksum(&b"hello".to_vec());
    assert_eq!(d.checksum(), 0);
}

#[test]
fn entry_kind_predicates() {
    let f = file_entry("f", 1, 1, 1);
    let d = dir_entry("d", 1);
    let l = link_entry("l", "f");
    assert!(f.is_file() && !f.is_dir() && !f.is_symlink());
    assert!(d.is_dir() && !d.is_file());
    assert!(l.is_symlink() && !l.is_file() && !l.is_dir());
    assert_eq!(l.target().as_deref(), Some(b"f".as_slice()));
    assert!(f.starts_with(&b"".to_vec()));
    assert!(!f.starts_with(&b"d".to_vec()));
}
